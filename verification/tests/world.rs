use framework::world::{DenseStorage, EntityId, World};

#[test]
fn test_dense_insert() {
    let mut s = DenseStorage::new();
    let a = s.insert("a");
    assert_eq!(s.get(a), Some(&"a"));
}

#[test]
fn test_dense_remove() {
    let mut s = DenseStorage::new();

    let a = s.insert("a");

    assert_eq!(s.get(a), Some(&"a"));
    assert_eq!(s.remove(a), Some("a"));
    assert_eq!(s.get(a), None);
    assert_eq!(s.remove(a), None);

    let b = s.insert("b");

    assert_eq!(b.0, a.0);
    assert_ne!(b.1, a.1);

    assert_eq!(s.get(a), None);
    assert_eq!(s.get(b), Some(&"b"));
}

#[test]
fn insert_hands_out_consecutive_slots_at_generation_zero() {
    let mut s = DenseStorage::with_capacity(4);
    let a = s.insert(10u32);
    let b = s.insert(20u32);
    let c = s.insert(30u32);
    assert_eq!((a.0, a.1), (0, 0));
    assert_eq!((b.0, b.1), (1, 0));
    assert_eq!((c.0, c.1), (2, 0));
    assert_eq!(s.get(a), Some(&10));
    assert_eq!(s.get(b), Some(&20));
    assert_eq!(s.get(c), Some(&30));
}

#[test]
fn removing_from_the_middle_keeps_other_entities() {
    let mut s = DenseStorage::new();
    let a = s.insert('a');
    let b = s.insert('b');
    let c = s.insert('c');
    assert_eq!(s.remove(a), Some('a'));
    // 'c' moved into the hole left by 'a'; its id still finds it.
    assert_eq!(s.get(c), Some(&'c'));
    assert_eq!(s.get(b), Some(&'b'));
    assert_eq!(s.get(a), None);
    assert_eq!(s.remove(c), Some('c'));
    assert_eq!(s.get(b), Some(&'b'));
    assert_eq!(s.remove(b), Some('b'));
    assert_eq!(s.get(b), None);
}

#[test]
fn most_recently_freed_slot_is_reused_first() {
    let mut s = DenseStorage::new();
    let a = s.insert(1u8);
    let b = s.insert(2u8);
    s.remove(a);
    s.remove(b);
    let c = s.insert(3u8);
    let d = s.insert(4u8);
    assert_eq!((c.0, c.1), (1, 1));
    assert_eq!((d.0, d.1), (0, 1));
    let e = s.insert(5u8);
    assert_eq!((e.0, e.1), (2, 0));
    assert_eq!(s.get(a), None);
    assert_eq!(s.get(b), None);
    assert_eq!(s.get(c), Some(&3));
    assert_eq!(s.get(d), Some(&4));
}

#[test]
fn ids_that_were_never_handed_out_find_nothing() {
    let mut s = DenseStorage::new();
    let a = s.insert("x");
    assert_eq!(s.get(EntityId(a.0, a.1 + 1)), None);
    assert_eq!(s.get(EntityId(7, 0)), None);
    assert_eq!(s.remove(EntityId(7, 0)), None);
    assert_eq!(s.remove(EntityId(a.0, a.1 + 1)), None);
    assert_eq!(s.get(a), Some(&"x"));
}

#[test]
fn clear_drops_everything_and_old_ids_stay_dead() {
    let mut s = DenseStorage::default();
    let a = s.insert(1i32);
    let b = s.insert(2i32);
    let c = s.insert(3i32);
    s.remove(b);
    s.clear();
    assert_eq!(s.get(a), None);
    assert_eq!(s.get(b), None);
    assert_eq!(s.get(c), None);
    // The lowest slot is reused first, under a new generation.
    let d = s.insert(4i32);
    assert_eq!((d.0, d.1), (0, 1));
    let e = s.insert(5i32);
    assert_eq!((e.0, e.1), (1, 1));
    assert_eq!(s.get(a), None);
    assert_eq!(s.get(d), Some(&4));
    assert_eq!(s.get(e), Some(&5));
}

#[test]
fn world_can_be_cleared() {
    let mut w = World::new();
    w.clear();
    w.clear();
}

#[test]
fn with_capacity_behaves_like_new() {
    let mut a = DenseStorage::new();
    let mut b = DenseStorage::with_capacity(16);
    let ids_a = [a.insert(1u16), a.insert(2u16), a.insert(3u16)];
    let ids_b = [b.insert(1u16), b.insert(2u16), b.insert(3u16)];
    assert_eq!(a.remove(ids_a[1]), b.remove(ids_b[1]));
    let x = a.insert(4u16);
    let y = b.insert(4u16);
    assert_eq!((x.0, x.1), (y.0, y.1));
    for (ia, ib) in ids_a.iter().zip(ids_b.iter()) {
        assert_eq!((ia.0, ia.1), (ib.0, ib.1));
        assert_eq!(a.get(*ia), b.get(*ib));
    }
}

#[test]
fn a_removed_id_stays_dead_through_many_reuses() {
    let mut s = DenseStorage::new();
    let a = s.insert(0u32);
    s.remove(a);
    for i in 1..50u32 {
        let b = s.insert(i);
        assert_eq!(b.0, a.0);
        assert_ne!(b.1, a.1);
        assert_eq!(s.get(a), None);
        s.remove(b);
        assert_eq!(s.get(b), None);
    }
    assert_eq!(s.get(a), None);
}
