use vstd::prelude::*;

verus! {

/// Names an entity of a [`DenseStorage`]: the directory slot it lives in and
/// the generation that slot had when the entity was inserted.
#[derive(Debug, Clone, Copy)]
pub struct EntityId(pub u32, pub u32);

/// One directory slot: where the slot's item sits in the dense array while
/// the slot is occupied, and how many times the slot has been reused.
pub struct Entry {
    index: Option<u32>,
    generation: u32,
}

/// A generational slot map that keeps its items packed in one vector.
///
/// Ids stay valid while their entity lives; once an entity is removed its id
/// never resolves again, even after the slot is reused for a new entity.
pub struct DenseStorage<T> {
    directory: Vec<Entry>,
    data: Vec<T>,
    /// Stack of slots that can be reused, the most recently freed on top.
    free: Vec<usize>,
    /// For each dense index, the directory slot that owns it.
    owners: Vec<usize>,
}

impl<T> View for DenseStorage<T> {
    type V = Map<EntityId, T>;

    /// The live entities and their items.
    closed spec fn view(&self) -> Map<EntityId, T> {
        Map::new(
            |id: EntityId| self.is_live(id),
            |id: EntityId| self.data@[self.directory@[id.0 as int].index->0 as int],
        )
    }
}

impl<T> DenseStorage<T> {
    /// Number of directory slots handed out so far.
    pub closed spec fn slot_count(&self) -> nat {
        self.directory@.len()
    }

    /// Current generation of a directory slot.
    pub closed spec fn generation(&self, slot: int) -> u32 {
        self.directory@[slot].generation
    }

    /// The slots waiting to be reused; the next insert takes the last one.
    pub closed spec fn free_slots(&self) -> Seq<usize> {
        self.free@
    }

    /// Number of items stored.
    pub closed spec fn item_count(&self) -> nat {
        self.data@.len()
    }

    pub closed spec fn is_live(&self, id: EntityId) -> bool {
        &&& (id.0 as int) < self.directory@.len()
        &&& self.directory@[id.0 as int].generation == id.1
        &&& self.directory@[id.0 as int].index is Some
    }

    /// The storage handed out `id` at some point: its slot exists and has
    /// reached the id's generation.
    pub closed spec fn was_issued(&self, id: EntityId) -> bool {
        &&& (id.0 as int) < self.directory@.len()
        &&& id.1 <= self.directory@[id.0 as int].generation
    }

    /// An id that was handed out and no longer names an entity.
    pub open spec fn is_stale(&self, id: EntityId) -> bool {
        self.was_issued(id) && !self@.dom().contains(id)
    }

    spec fn slot_points_to(&self, slot: int, k: int) -> bool {
        &&& self.directory@[slot].index is Some
        &&& self.directory@[slot].index->0 == k
    }

    /// Internal consistency: the directory and the dense array point at
    /// each other, free slots are distinct, empty and reusable, and every
    /// empty slot that is still reusable is free.
    pub closed spec fn wf(&self) -> bool {
        &&& self.data@.len() == self.owners@.len()
        &&& self.directory@.len() <= u32::MAX + 1
        &&& self.data@.len() + self.free@.len() <= self.directory@.len()
        &&& forall|k: int|
            0 <= k < self.owners@.len() ==> {
                &&& #[trigger] self.owners@[k] < self.directory@.len()
                &&& self.slot_points_to(self.owners@[k] as int, k)
            }
        &&& forall|s: int|
            0 <= s < self.directory@.len() && (#[trigger] self.directory@[s]).index is Some ==> {
                &&& self.directory@[s].index->0 < self.data@.len()
                &&& self.owners@[self.directory@[s].index->0 as int] == s
            }
        &&& forall|j: int|
            0 <= j < self.free@.len() ==> {
                &&& #[trigger] self.free@[j] < self.directory@.len()
                &&& self.directory@[self.free@[j] as int].index is None
                &&& self.directory@[self.free@[j] as int].generation < u32::MAX
            }
        &&& forall|i: int, j: int|
            0 <= i < j < self.free@.len() ==> #[trigger] self.free@[i] != #[trigger] self.free@[j]
        &&& forall|s: int|
            0 <= s < self.directory@.len() && (#[trigger] self.directory@[s]).index is None
                && self.directory@[s].generation < u32::MAX ==> self.free@.contains(s as usize)
    }

    /// `post` is `pre` with `item` stored under the fresh id `id`: the most
    /// recently freed slot with its generation bumped, or else a new slot.
    pub open spec fn inserted(pre: Self, post: Self, item: T, id: EntityId) -> bool {
        &&& !pre@.dom().contains(id)
        &&& !pre.was_issued(id)
        &&& post@ == pre@.insert(id, item)
        &&& post.item_count() == pre.item_count() + 1
        &&& if pre.free_slots().len() > 0 {
            &&& id.0 == pre.free_slots().last()
            &&& id.1 == pre.generation(id.0 as int) + 1
            &&& post.free_slots() == pre.free_slots().drop_last()
            &&& post.slot_count() == pre.slot_count()
        } else {
            &&& id.0 == pre.slot_count()
            &&& id.1 == 0
            &&& post.free_slots() == pre.free_slots()
            &&& post.slot_count() == pre.slot_count() + 1
        }
        &&& post.generation(id.0 as int) == id.1
        &&& forall|s: int|
            0 <= s < pre.slot_count() && s != id.0 ==> #[trigger] post.generation(s)
                == pre.generation(s)
    }

    /// `post` is `pre` after removing `id`: a live id hands back its item and
    /// frees its slot (unless the slot's generation is exhausted); any other
    /// id changes nothing and yields `None`.
    pub open spec fn removed(pre: Self, post: Self, id: EntityId, result: Option<T>) -> bool {
        if pre@.dom().contains(id) {
            &&& result == Some(pre@[id])
            &&& post@ == pre@.remove(id)
            &&& post.item_count() + 1 == pre.item_count()
            &&& post.slot_count() == pre.slot_count()
            &&& forall|s: int| 0 <= s < pre.slot_count() ==> #[trigger] post.generation(s) == pre.generation(s)
            &&& post.free_slots() == if id.1 < u32::MAX {
                pre.free_slots().push(id.0 as usize)
            } else {
                pre.free_slots()
            }
        } else {
            &&& result is None
            &&& post == pre
        }
    }

    /// The slots from `lo` up that can still be reused (their generation is
    /// not exhausted), in descending order.
    pub open spec fn reusable_slots_from(&self, lo: int) -> Seq<usize>
        decreases self.slot_count() - lo,
    {
        if lo < 0 || lo >= self.slot_count() {
            Seq::empty()
        } else {
            let rest = self.reusable_slots_from(lo + 1);
            if self.generation(lo) < u32::MAX {
                rest.push(lo as usize)
            } else {
                rest
            }
        }
    }

    /// `post` is `pre` with every entity dropped; slots keep their
    /// generations, and every slot that can still be reused is free, in
    /// descending order so that the lowest slot is reused first.
    pub open spec fn cleared(pre: Self, post: Self) -> bool {
        &&& post@ == Map::<EntityId, T>::empty()
        &&& post.item_count() == 0
        &&& post.slot_count() == pre.slot_count()
        &&& forall|s: int| 0 <= s < pre.slot_count() ==> #[trigger] post.generation(s) == pre.generation(s)
        &&& post.free_slots() == pre.reusable_slots_from(0)
    }

    /// An empty storage.
    pub fn new() -> (s: Self)
        ensures
            s.wf(),
            s@ == Map::<EntityId, T>::empty(),
            s.slot_count() == 0,
            s.item_count() == 0,
            s.free_slots().len() == 0,
    {
        let s = Self { directory: Vec::new(), data: Vec::new(), free: Vec::new(), owners: Vec::new() };
        assert(s@ =~= Map::<EntityId, T>::empty());
        s
    }

    /// An empty storage with room reserved for `capacity` entities.
    pub fn with_capacity(capacity: u32) -> (s: Self)
        ensures
            s.wf(),
            s@ == Map::<EntityId, T>::empty(),
            s.slot_count() == 0,
            s.item_count() == 0,
            s.free_slots().len() == 0,
    {
        let s = Self {
            directory: Vec::with_capacity(capacity as usize),
            data: Vec::with_capacity(capacity as usize),
            free: Vec::new(),
            owners: Vec::with_capacity(capacity as usize),
        };
        assert(s@ =~= Map::<EntityId, T>::empty());
        s
    }
    /// Stores `item` and returns the id that names it: the most recently
    /// freed slot under its next generation, or else a new slot.
    pub fn insert(&mut self, item: T) -> (id: EntityId)
        requires
            old(self).wf(),
            old(self).free_slots().len() > 0 || old(self).slot_count() <= u32::MAX,
        ensures
            final(self).wf(),
            Self::inserted(*old(self), *final(self), item, id),
    {
        let ghost pre = *self;
        match self.free.pop() {
            Some(free) => {
                let data_index = self.data.len();
                let generation = self.directory[free].generation + 1;
                self.directory.set(free, Entry { index: Some(data_index as u32), generation });
                self.data.push(item);
                self.owners.push(free);
                let id = EntityId(free as u32, generation);
                proof {
                    assert(pre.free@[pre.free@.len() - 1] == free);
                    assert forall|j: int| 0 <= j < self.free@.len() implies self.free@[j] != free by {
                        assert(self.free@[j] == pre.free@[j]);
                    }
                    assert forall|k: int| 0 <= k < self.owners@.len() implies {
                        &&& #[trigger] self.owners@[k] < self.directory@.len()
                        &&& self.slot_points_to(self.owners@[k] as int, k)
                    } by {
                        if k < pre.owners@.len() {
                            assert(pre.owners@[k] < pre.directory@.len());
                            assert(pre.slot_points_to(pre.owners@[k] as int, k));
                        }
                    }
                    assert forall|t: int|
                        0 <= t < self.directory@.len() && (#[trigger] self.directory@[t]).index is None
                            && self.directory@[t].generation < u32::MAX implies self.free@.contains(t as usize) by {
                        assert(pre.directory@[t] == self.directory@[t]);
                        assert(pre.free@.contains(t as usize));
                        let j = choose|j: int| 0 <= j < pre.free@.len() && pre.free@[j] == t as usize;
                        assert(j != pre.free@.len() - 1);
                        assert(self.free@[j] == t as usize);
                    }
                    assert(self@ =~= pre@.insert(id, item));
                }
                id
            },
            None => {
                let slot = self.directory.len();
                let data_index = self.data.len();
                self.directory.push(Entry { index: Some(data_index as u32), generation: 0 });
                self.data.push(item);
                self.owners.push(slot);
                let id = EntityId(slot as u32, 0);
                proof {
                    assert forall|k: int| 0 <= k < self.owners@.len() implies {
                        &&& #[trigger] self.owners@[k] < self.directory@.len()
                        &&& self.slot_points_to(self.owners@[k] as int, k)
                    } by {
                        if k < pre.owners@.len() {
                            assert(pre.owners@[k] < pre.directory@.len());
                            assert(pre.slot_points_to(pre.owners@[k] as int, k));
                        }
                    }
                    assert forall|t: int|
                        0 <= t < self.directory@.len() && (#[trigger] self.directory@[t]).index is None
                            && self.directory@[t].generation < u32::MAX implies self.free@.contains(t as usize) by {
                        assert(pre.directory@[t] == self.directory@[t]);
                    }
                    assert(self@ =~= pre@.insert(id, item));
                }
                id
            },
        }
    }

    /// The item named by `id`, if `id` names a live entity.
    pub fn get(&self, id: EntityId) -> (r: Option<&T>)
        requires
            self.wf(),
        ensures
            r == (if self@.dom().contains(id) {
                Some(&self@[id])
            } else {
                None
            }),
    {
        let dir_index = id.0 as usize;
        if dir_index < self.directory.len() {
            let entry = &self.directory[dir_index];
            if entry.generation == id.1 {
                if let Some(data_index) = entry.index {
                    return Some(&self.data[data_index as usize]);
                }
            }
        }
        None
    }
    /// Removes the entity named by `id` and hands back its item; `None`,
    /// with nothing changed, when `id` names no live entity.
    ///
    /// The item stored last moves into the hole, so the items stay packed.
    pub fn remove(&mut self, id: EntityId) -> (r: Option<T>)
        requires
            old(self).wf(),
        ensures
            final(self).wf(),
            Self::removed(*old(self), *final(self), id, r),
    {
        let ghost pre = *self;
        let dir_i = id.0 as usize;
        if dir_i < self.directory.len() {
            let generation = self.directory[dir_i].generation;
            let index = self.directory[dir_i].index;
            if id.1 == generation {
                if let Some(data_i) = index {
                    let data_i = data_i as usize;
                    let last = self.data.len() - 1;
                    let item = self.data.swap_remove(data_i);
                    let _ = self.owners.swap_remove(data_i);
                    let ghost moved_slot = pre.owners@[last as int];
                    if data_i < last {
                        let moved = self.owners[data_i];
                        let moved_generation = self.directory[moved].generation;
                        self.directory.set(
                            moved,
                            Entry { index: Some(data_i as u32), generation: moved_generation },
                        );
                    }
                    self.directory.set(dir_i, Entry { index: None, generation });
                    if generation < u32::MAX {
                        self.free.push(dir_i);
                    }
                    proof {
                        assert(pre.slot_points_to(moved_slot as int, last as int));
                        assert(data_i < last ==> moved_slot != dir_i);
                        assert forall|k: int| 0 <= k < self.owners@.len() implies {
                            &&& #[trigger] self.owners@[k] < self.directory@.len()
                            &&& self.slot_points_to(self.owners@[k] as int, k)
                        } by {
                            assert(pre.owners@[k] < pre.directory@.len());
                            assert(pre.slot_points_to(pre.owners@[k] as int, k));
                        }
                        assert forall|j: int| 0 <= j < pre.free@.len() implies pre.free@[j] != dir_i by {
                            assert(pre.free@[j] < pre.directory@.len());
                        }
                        assert forall|j: int| 0 <= j < pre.free@.len() implies pre.free@[j] != moved_slot by {
                            assert(pre.free@[j] < pre.directory@.len());
                        }
                        assert forall|j: int| 0 <= j < self.free@.len() implies {
                            &&& #[trigger] self.free@[j] < self.directory@.len()
                            &&& self.directory@[self.free@[j] as int].index is None
                            &&& self.directory@[self.free@[j] as int].generation < u32::MAX
                        } by {
                            if j < pre.free@.len() {
                                assert(self.free@[j] == pre.free@[j]);
                            }
                        }
                        assert forall|i: int, j: int|
                            0 <= i < j < self.free@.len() implies #[trigger] self.free@[i]
                            != #[trigger] self.free@[j] by {
                            if j < pre.free@.len() {
                                assert(self.free@[i] == pre.free@[i]);
                                assert(self.free@[j] == pre.free@[j]);
                            } else {
                                assert(self.free@[i] == pre.free@[i]);
                            }
                        }
                        assert forall|t: int|
                            0 <= t < self.directory@.len() && (#[trigger] self.directory@[t]).index is None
                                && self.directory@[t].generation < u32::MAX implies self.free@.contains(t as usize) by {
                            if t == dir_i {
                                assert(self.free@[self.free@.len() - 1] == dir_i);
                            } else {
                                assert(pre.directory@[t] == self.directory@[t]);
                                let j = choose|j: int| 0 <= j < pre.free@.len() && pre.free@[j] == t as usize;
                                assert(self.free@[j] == t as usize);
                            }
                        }
                        assert(self@ =~= pre@.remove(id));
                    }
                    return Some(item);
                }
            }
        }
        None
    }
    /// Drops every entity. Slots keep their generations, so no id handed out
    /// before resolves afterwards; every slot that can still be reused
    /// becomes free, the lowest slot first in line.
    pub fn clear(&mut self)
        requires
            old(self).wf(),
        ensures
            final(self).wf(),
            Self::cleared(*old(self), *final(self)),
    {
        let ghost pre = *self;
        let n = self.directory.len();
        let mut free: Vec<usize> = Vec::new();
        let mut s = n;
        while s > 0
            invariant
                s <= n,
                n == pre.directory@.len(),
                n <= u32::MAX + 1,
                self.directory@.len() == n,
                forall|t: int| 0 <= t < s ==> #[trigger] self.directory@[t] == pre.directory@[t],
                forall|t: int|
                    s <= t < n ==> {
                        &&& (#[trigger] self.directory@[t]).index is None
                        &&& self.directory@[t].generation == pre.directory@[t].generation
                    },
                free@ == pre.reusable_slots_from(s as int),
                free@.len() <= n - s,
                forall|j: int|
                    0 <= j < free@.len() ==> {
                        &&& s <= #[trigger] free@[j] < n
                        &&& pre.directory@[free@[j] as int].generation < u32::MAX
                    },
                forall|i: int, j: int| 0 <= i < j < free@.len() ==> #[trigger] free@[i] > #[trigger] free@[j],
                forall|t: int|
                    s <= t < n && #[trigger] pre.directory@[t].generation < u32::MAX
                        ==> free@.contains(t as usize),
            decreases s,
        {
            s = s - 1;
            let generation = self.directory[s].generation;
            self.directory.set(s, Entry { index: None, generation });
            if generation < u32::MAX {
                let ghost old_free = free@;
                free.push(s);
                proof {
                    assert forall|t: int|
                        s <= t < n && #[trigger] pre.directory@[t].generation < u32::MAX implies free@.contains(t as usize) by {
                        if t == s {
                            assert(free@[free@.len() - 1] == s);
                        } else {
                            let j = choose|j: int| 0 <= j < old_free.len() && old_free[j] == t as usize;
                            assert(free@[j] == t as usize);
                        }
                    }
                }
            }
        }
        self.data.clear();
        self.owners.clear();
        self.free = free;
        proof {
            assert forall|i: int, j: int|
                0 <= i < j < self.free@.len() implies #[trigger] self.free@[i] != #[trigger] self.free@[j] by {
                assert(self.free@[i] > self.free@[j]);
            }
            assert(self@ =~= Map::<EntityId, T>::empty());
            assert(self.free_slots() == pre.reusable_slots_from(0));
            assert forall|j: int| 0 <= j < self.free@.len() implies {
                &&& #[trigger] self.free@[j] < self.directory@.len()
                &&& self.directory@[self.free@[j] as int].index is None
                &&& self.directory@[self.free@[j] as int].generation < u32::MAX
            } by {
                let t = self.free@[j] as int;
                assert(self.directory@[t].index is None);
            }
            assert forall|t: int|
                0 <= t < self.directory@.len() && (#[trigger] self.directory@[t]).index is None
                    && self.directory@[t].generation < u32::MAX implies self.free@.contains(t as usize) by {
                assert(pre.directory@[t].generation < u32::MAX);
            }
        }
    }
}

impl<T> DenseStorage<T> {
    /// Reading an entity right after inserting it gives back the inserted
    /// item, and every other id reads as it did before the insert.
    pub proof fn lemma_get_after_insert(pre: Self, post: Self, item: T, id: EntityId, other: EntityId)
        requires
            Self::inserted(pre, post, item, id),
        ensures
            post@.dom().contains(id),
            post@[id] == item,
            other != id ==> post@.dom().contains(other) == pre@.dom().contains(other),
            other != id && pre@.dom().contains(other) ==> post@[other] == pre@[other],
    {
    }

    /// An insert never hands out an id that was live or stale before.
    pub proof fn lemma_insert_id_is_fresh(pre: Self, post: Self, item: T, id: EntityId)
        requires
            Self::inserted(pre, post, item, id),
        ensures
            !pre@.dom().contains(id),
            !pre.is_stale(id),
    {
    }

    /// Removing an entity right after inserting it hands back the inserted
    /// item and leaves the storage holding exactly what it held before; the
    /// id it had stays dead.
    pub proof fn lemma_remove_undoes_insert(
        s0: Self,
        s1: Self,
        s2: Self,
        item: T,
        id: EntityId,
        result: Option<T>,
    )
        requires
            Self::inserted(s0, s1, item, id),
            Self::removed(s1, s2, id, result),
        ensures
            result == Some(item),
            s2@ == s0@,
            s2.is_stale(id),
    {
        assert(s0@.insert(id, item).remove(id) =~= s0@);
        assert(s2.generation(id.0 as int) == s1.generation(id.0 as int));
    }

    /// Removing the same id twice: the second removal finds nothing and
    /// changes nothing.
    pub proof fn lemma_remove_twice(
        s0: Self,
        s1: Self,
        s2: Self,
        id: EntityId,
        first: Option<T>,
        second: Option<T>,
    )
        requires
            Self::removed(s0, s1, id, first),
            Self::removed(s1, s2, id, second),
        ensures
            second is None,
            s2 == s1,
    {
    }

    /// A successful removal leaves the id stale.
    pub proof fn lemma_stale_after_remove(pre: Self, post: Self, id: EntityId, result: Option<T>)
        requires
            Self::removed(pre, post, id, result),
            result is Some,
        ensures
            post.is_stale(id),
    {
        assert(post.generation(id.0 as int) == pre.generation(id.0 as int));
    }

    /// A stale id stays stale across an insert.
    pub proof fn lemma_stale_survives_insert(
        pre: Self,
        post: Self,
        item: T,
        new_id: EntityId,
        id: EntityId,
    )
        requires
            Self::inserted(pre, post, item, new_id),
            pre.is_stale(id),
        ensures
            post.is_stale(id),
    {
        if id.0 != new_id.0 {
            assert(post.generation(id.0 as int) == pre.generation(id.0 as int));
        }
    }

    /// A stale id stays stale across a removal.
    pub proof fn lemma_stale_survives_remove(
        pre: Self,
        post: Self,
        removed_id: EntityId,
        result: Option<T>,
        id: EntityId,
    )
        requires
            Self::removed(pre, post, removed_id, result),
            pre.is_stale(id),
        ensures
            post.is_stale(id),
    {
        if pre@.dom().contains(removed_id) {
            assert(post.generation(id.0 as int) == pre.generation(id.0 as int));
        }
    }

    /// Clearing leaves no live entity, and every id handed out before is
    /// stale afterwards.
    pub proof fn lemma_clear_makes_issued_ids_stale(pre: Self, post: Self, id: EntityId)
        requires
            Self::cleared(pre, post),
            pre.was_issued(id),
        ensures
            post.is_stale(id),
            post@.dom().len() == 0,
    {
        assert(post.generation(id.0 as int) == pre.generation(id.0 as int));
    }

    /// The slot that a removal frees is the one the next insert takes,
    /// under a new generation, so the old id and the new one differ.
    pub proof fn lemma_insert_reuses_freed_slot(
        s0: Self,
        s1: Self,
        s2: Self,
        id: EntityId,
        result: Option<T>,
        item: T,
        new_id: EntityId,
    )
        requires
            Self::removed(s0, s1, id, result),
            result is Some,
            id.1 < u32::MAX,
            Self::inserted(s1, s2, item, new_id),
        ensures
            new_id.0 == id.0,
            new_id.1 == id.1 + 1,
            !s2@.dom().contains(id),
    {
        assert(s1.free_slots().last() == id.0 as usize);
    }
}

impl<T> DenseStorage<T> {
    spec fn id_of_index(&self, k: int) -> EntityId {
        EntityId(self.owners@[k] as u32, self.directory@[self.owners@[k] as int].generation)
    }

    /// Every stored item belongs to exactly one live entity: there are as
    /// many live ids as items.
    pub proof fn lemma_items_match_entities(s: Self)
        requires
            s.wf(),
        ensures
            s@.dom().finite(),
            s@.dom().len() == s.item_count(),
    {
        let n = s.data@.len() as int;
        let x = vstd::set_lib::set_int_range(0, n);
        let f = |k: int| s.id_of_index(k);
        vstd::set_lib::lemma_int_range(0, n);
        assert forall|k1: int, k2: int|
            x.contains(k1) && x.contains(k2) && #[trigger] f(k1) == #[trigger] f(k2) implies k1 == k2 by {
            assert(s.owners@[k1] < s.directory@.len());
            assert(s.owners@[k2] < s.directory@.len());
            assert(s.slot_points_to(s.owners@[k1] as int, k1));
            assert(s.slot_points_to(s.owners@[k2] as int, k2));
        }
        assert forall|id: EntityId| #[trigger] x.map(f).contains(id) <==> s@.dom().contains(id) by {
            if s@.dom().contains(id) {
                let k = s.directory@[id.0 as int].index->0 as int;
                assert(x.contains(k));
                assert(f(k) == id);
            }
            if x.map(f).contains(id) {
                let k = choose|k: int| x.contains(k) && f(k) == id;
                assert(s.owners@[k] < s.directory@.len());
                assert(s.slot_points_to(s.owners@[k] as int, k));
            }
        }
        assert(x.map(f) =~= s@.dom());
        vstd::set_lib::lemma_map_size(x, s@.dom(), f);
    }
}

impl<T> DenseStorage<T> {
    /// The free slots are exactly the slots that hold no entity and whose
    /// generation is not exhausted, each listed once.
    pub proof fn lemma_free_slots_are_the_reusable_empty_slots(s: Self, slot: int)
        requires
            s.wf(),
            0 <= slot < s.slot_count(),
        ensures
            s.free_slots().contains(slot as usize) <==> (!s@.dom().contains(
                EntityId(slot as u32, s.generation(slot)),
            ) && s.generation(slot) < u32::MAX),
            s.free_slots().no_duplicates(),
            forall|j: int| 0 <= j < s.free_slots().len() ==> #[trigger] s.free_slots()[j] < s.slot_count(),
    {
        let id = EntityId(slot as u32, s.generation(slot));
        if s.free_slots().contains(slot as usize) {
            let j = choose|j: int| 0 <= j < s.free@.len() && s.free@[j] == slot as usize;
            assert(s.free@[j] < s.directory@.len());
        }
        if !s@.dom().contains(id) && s.generation(slot) < u32::MAX {
            assert(s.directory@[slot].index is None);
        }
        assert forall|i: int, j: int| 0 <= i < s.free_slots().len() && 0 <= j < s.free_slots().len() && i != j
            implies s.free_slots()[i] != s.free_slots()[j] by {
            if i < j {
                assert(s.free@[i] != s.free@[j]);
            } else {
                assert(s.free@[j] != s.free@[i]);
            }
        }
    }
}

impl<T> DenseStorage<T> {
    /// `post` follows `pre` by one insert, one remove or one clear.
    pub open spec fn step(pre: Self, post: Self) -> bool {
        ||| exists|item: T, id: EntityId| Self::inserted(pre, post, item, id)
        ||| exists|id: EntityId, result: Option<T>| Self::removed(pre, post, id, result)
        ||| Self::cleared(pre, post)
    }

    /// An insert never hands out a stale id again.
    pub proof fn lemma_stale_never_reissued(
        pre: Self,
        post: Self,
        item: T,
        new_id: EntityId,
        id: EntityId,
    )
        requires
            Self::inserted(pre, post, item, new_id),
            pre.is_stale(id),
        ensures
            new_id != id,
    {
    }

    /// A stale id stays stale across any single step.
    pub proof fn lemma_stale_survives_step(pre: Self, post: Self, id: EntityId)
        requires
            Self::step(pre, post),
            pre.is_stale(id),
        ensures
            post.is_stale(id),
    {
        if exists|item: T, new_id: EntityId| Self::inserted(pre, post, item, new_id) {
            let (item, new_id) = choose|item: T, new_id: EntityId| Self::inserted(pre, post, item, new_id);
            Self::lemma_stale_survives_insert(pre, post, item, new_id, id);
        } else if exists|rid: EntityId, result: Option<T>| Self::removed(pre, post, rid, result) {
            let (rid, result) = choose|rid: EntityId, result: Option<T>| Self::removed(pre, post, rid, result);
            Self::lemma_stale_survives_remove(pre, post, rid, result, id);
        } else {
            assert(post.generation(id.0 as int) == pre.generation(id.0 as int));
        }
    }

    /// Once an id is stale, it stays stale through any later run of inserts,
    /// removes and clears: it never names an entity again, and no insert of
    /// the run hands it out.
    pub proof fn lemma_stale_for_good(history: Seq<Self>, id: EntityId)
        requires
            history.len() > 0,
            forall|i: int| 0 <= i < history.len() - 1 ==> Self::step(#[trigger] history[i], history[i + 1]),
            history[0].is_stale(id),
        ensures
            forall|i: int| 0 <= i < history.len() ==> (#[trigger] history[i]).is_stale(id),
            forall|i: int, item: T, new_id: EntityId|
                0 <= i < history.len() - 1 && #[trigger] Self::inserted(history[i], history[i + 1], item, new_id)
                    ==> new_id != id,
        decreases history.len(),
    {
        if history.len() > 1 {
            let rest = history.drop_last();
            assert forall|i: int| 0 <= i < rest.len() - 1 implies Self::step(#[trigger] rest[i], rest[i + 1]) by {
                assert(Self::step(history[i], history[i + 1]));
            }
            Self::lemma_stale_for_good(rest, id);
            let n = history.len() - 1;
            assert(rest[n - 1] == history[n - 1]);
            assert(Self::step(history[n - 1], history[n]));
            Self::lemma_stale_survives_step(history[n - 1], history[n], id);
            assert forall|i: int| 0 <= i < history.len() implies (#[trigger] history[i]).is_stale(id) by {
                if i < n {
                    assert(rest[i] == history[i]);
                }
            }
            assert forall|i: int, item: T, new_id: EntityId|
                0 <= i < history.len() - 1 && #[trigger] Self::inserted(history[i], history[i + 1], item, new_id)
                    implies new_id != id by {
                assert(history[i].is_stale(id));
            }
        }
    }
}

impl<T> DenseStorage<T> {
    /// `a` and `b` cannot be told apart: same entities and items, same slots
    /// and generations, same free slots in the same order.
    pub open spec fn same_state(a: Self, b: Self) -> bool {
        &&& a@ == b@
        &&& a.item_count() == b.item_count()
        &&& a.slot_count() == b.slot_count()
        &&& forall|s: int| 0 <= s < a.slot_count() ==> #[trigger] a.generation(s) == b.generation(s)
        &&& a.free_slots() == b.free_slots()
    }

    /// Every freshly made storage is in the same state, whether it came from
    /// `new`, `with_capacity` or `default`.
    pub proof fn lemma_fresh_storages_agree(a: Self, b: Self)
        requires
            a@ == Map::<EntityId, T>::empty(),
            a.slot_count() == 0,
            a.item_count() == 0,
            a.free_slots().len() == 0,
            b@ == Map::<EntityId, T>::empty(),
            b.slot_count() == 0,
            b.item_count() == 0,
            b.free_slots().len() == 0,
        ensures
            Self::same_state(a, b),
    {
        assert(a.free_slots() =~= b.free_slots());
    }

    /// Inserting the same item into storages in the same state hands out the
    /// same id and leaves them in the same state.
    pub proof fn lemma_insert_agrees(a: Self, b: Self, a2: Self, b2: Self, item: T, ida: EntityId, idb: EntityId)
        requires
            a.wf(),
            b.wf(),
            Self::same_state(a, b),
            Self::inserted(a, a2, item, ida),
            Self::inserted(b, b2, item, idb),
        ensures
            ida == idb,
            Self::same_state(a2, b2),
    {
        if a.free_slots().len() > 0 {
            let last = a.free@.len() - 1;
            assert(a.free@[last] < a.directory@.len());
            assert(a.generation(ida.0 as int) == b.generation(ida.0 as int));
        }
        assert(ida.0 == idb.0 && ida.1 == idb.1);
        assert forall|s: int| 0 <= s < a2.slot_count() implies #[trigger] a2.generation(s) == b2.generation(s) by {
            if s != ida.0 {
                assert(a.generation(s) == b.generation(s));
            }
        }
    }

    /// Removing the same id from storages in the same state gives the same
    /// result and leaves them in the same state.
    pub proof fn lemma_remove_agrees(
        a: Self,
        b: Self,
        a2: Self,
        b2: Self,
        id: EntityId,
        ra: Option<T>,
        rb: Option<T>,
    )
        requires
            Self::same_state(a, b),
            Self::removed(a, a2, id, ra),
            Self::removed(b, b2, id, rb),
        ensures
            ra == rb,
            Self::same_state(a2, b2),
    {
        if a@.dom().contains(id) {
            assert forall|s: int| 0 <= s < a2.slot_count() implies #[trigger] a2.generation(s) == b2.generation(s) by {
                assert(a.generation(s) == b.generation(s));
            }
        }
    }

    /// Clearing storages in the same state leaves them in the same state.
    pub proof fn lemma_clear_agrees(a: Self, b: Self, a2: Self, b2: Self)
        requires
            Self::same_state(a, b),
            Self::cleared(a, a2),
            Self::cleared(b, b2),
        ensures
            Self::same_state(a2, b2),
    {
        Self::lemma_reusable_slots_agree(a, b, 0);
        assert forall|s: int| 0 <= s < a2.slot_count() implies #[trigger] a2.generation(s) == b2.generation(s) by {
            assert(a.generation(s) == b.generation(s));
        }
    }

    proof fn lemma_reusable_slots_agree(a: Self, b: Self, lo: int)
        requires
            Self::same_state(a, b),
        ensures
            a.reusable_slots_from(lo) == b.reusable_slots_from(lo),
        decreases a.slot_count() - lo,
    {
        if 0 <= lo < a.slot_count() {
            Self::lemma_reusable_slots_agree(a, b, lo + 1);
            assert(a.generation(lo) == b.generation(lo));
        }
    }
}

/// One call on a storage, as runs of calls are told in laws.
pub enum StorageCall<T> {
    Insert(T),
    Remove(EntityId),
    Clear,
}

/// What a call on a storage answers.
pub enum StorageAnswer<T> {
    Inserted(EntityId),
    Removed(Option<T>),
    Cleared,
}

impl<T> DenseStorage<T> {
    /// `post` is `pre` after `call`, which answered `answer`.
    pub open spec fn answers(pre: Self, post: Self, call: StorageCall<T>, answer: StorageAnswer<T>) -> bool {
        match call {
            StorageCall::Insert(item) => answer matches StorageAnswer::Inserted(id) && Self::inserted(
                pre,
                post,
                item,
                id,
            ),
            StorageCall::Remove(id) => answer matches StorageAnswer::Removed(result) && Self::removed(
                pre,
                post,
                id,
                result,
            ),
            StorageCall::Clear => answer is Cleared && Self::cleared(pre, post),
        }
    }

    /// Two storages in the same state, such as any two fresh storages from
    /// `new`, `with_capacity` or `default`, answer the same run of inserts,
    /// removes and clears alike and stay in the same state all along, so a
    /// read gives the same result on both at every point.
    pub proof fn lemma_runs_agree(
        a: Seq<Self>,
        b: Seq<Self>,
        calls: Seq<StorageCall<T>>,
        answers_a: Seq<StorageAnswer<T>>,
        answers_b: Seq<StorageAnswer<T>>,
    )
        requires
            a.len() == calls.len() + 1,
            b.len() == calls.len() + 1,
            answers_a.len() == calls.len(),
            answers_b.len() == calls.len(),
            Self::same_state(a[0], b[0]),
            forall|i: int| 0 <= i < a.len() ==> (#[trigger] a[i]).wf() && b[i].wf(),
            forall|i: int|
                0 <= i < calls.len() ==> Self::answers(a[i], a[i + 1], #[trigger] calls[i], answers_a[i]),
            forall|i: int|
                0 <= i < calls.len() ==> Self::answers(b[i], b[i + 1], #[trigger] calls[i], answers_b[i]),
        ensures
            forall|i: int| 0 <= i < calls.len() ==> #[trigger] answers_a[i] == answers_b[i],
            forall|i: int| 0 <= i < a.len() ==> Self::same_state(#[trigger] a[i], b[i]),
        decreases calls.len(),
    {
        if calls.len() > 0 {
            let n = calls.len() - 1;
            Self::lemma_runs_agree(
                a.drop_last(),
                b.drop_last(),
                calls.drop_last(),
                answers_a.drop_last(),
                answers_b.drop_last(),
            );
            assert(a.drop_last()[n] == a[n]);
            assert(b.drop_last()[n] == b[n]);
            assert(Self::same_state(a[n], b[n]));
            assert(a[n].wf() && b[n].wf());
            assert(Self::answers(a[n], a[n + 1], calls[n], answers_a[n]));
            assert(Self::answers(b[n], b[n + 1], calls[n], answers_b[n]));
            match calls[n] {
                StorageCall::Insert(item) => {
                    let ida = answers_a[n]->Inserted_0;
                    let idb = answers_b[n]->Inserted_0;
                    Self::lemma_insert_agrees(a[n], b[n], a[n + 1], b[n + 1], item, ida, idb);
                },
                StorageCall::Remove(id) => {
                    let ra = answers_a[n]->Removed_0;
                    let rb = answers_b[n]->Removed_0;
                    Self::lemma_remove_agrees(a[n], b[n], a[n + 1], b[n + 1], id, ra, rb);
                },
                StorageCall::Clear => {
                    Self::lemma_clear_agrees(a[n], b[n], a[n + 1], b[n + 1]);
                },
            }
            assert forall|i: int| 0 <= i < calls.len() implies #[trigger] answers_a[i] == answers_b[i] by {
                if i < n {
                    assert(answers_a.drop_last()[i] == answers_b.drop_last()[i]);
                }
            }
            assert forall|i: int| 0 <= i < a.len() implies Self::same_state(#[trigger] a[i], b[i]) by {
                if i <= n {
                    assert(Self::same_state(a.drop_last()[i], b.drop_last()[i]));
                }
            }
        }
    }
}

impl<T> Default for DenseStorage<T> {
    /// An empty storage.
    fn default() -> (s: Self)
        ensures
            s.wf(),
            s@ == Map::<EntityId, T>::empty(),
            s.slot_count() == 0,
            s.item_count() == 0,
            s.free_slots().len() == 0,
    {
        Self::new()
    }
}

/// The entities of the game and their components.
pub struct World {
    positions: DenseStorage<glam::Vec3>,
}

impl World {
    pub closed spec fn wf(&self) -> bool {
        self.positions.wf()
    }

    /// The storage that holds each entity's position.
    pub closed spec fn positions(&self) -> DenseStorage<glam::Vec3> {
        self.positions
    }

    /// A world without entities.
    pub fn new() -> (w: Self)
        ensures
            w.wf(),
            w.positions()@ == Map::<EntityId, glam::Vec3>::empty(),
            w.positions().slot_count() == 0,
            w.positions().item_count() == 0,
            w.positions().free_slots().len() == 0,
    {
        Self { positions: Default::default() }
    }

    /// Drops every entity of the world.
    pub fn clear(&mut self)
        requires
            old(self).wf(),
        ensures
            final(self).wf(),
            DenseStorage::cleared(old(self).positions(), final(self).positions()),
    {
        self.positions.clear();
    }
}

} // verus!
