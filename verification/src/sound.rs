use std::sync::Arc;
use vstd::prelude::*;

verus! {

/// Names one of the sound system's players.
#[derive(Debug, Clone, Copy)]
pub struct PlayerId(pub usize);

/// Names a track loaded into the sound system.
#[derive(Debug, Clone, Copy)]
pub struct TrackId(pub usize);

/// The encoded bytes of a sound file, shared by every play of it.
pub struct Track(Arc<Vec<u8>>);

/// `Arc::clone`: a second pointer to the same allocation, so the clone
/// holds the same bytes.
#[verifier::external_body]
fn share_bytes(bytes: &Arc<Vec<u8>>) -> (r: Arc<Vec<u8>>)
    ensures
        r@ == bytes@,
{
    Arc::clone(bytes)
}

impl View for Track {
    type V = Seq<u8>;

    closed spec fn view(&self) -> Seq<u8> {
        self.0@
    }
}

impl Track {
    /// A track holding `bytes`.
    pub fn new(bytes: Vec<u8>) -> (t: Track)
        ensures
            t@ == bytes@,
    {
        Track(Arc::new(bytes))
    }
}

impl Clone for Track {
    fn clone(&self) -> (r: Self)
        ensures
            r@ == self@,
    {
        Track(share_bytes(&self.0))
    }
}

impl AsRef<[u8]> for Track {
    fn as_ref(&self) -> (r: &[u8])
        ensures
            r@ == self@,
    {
        self.0.as_slice()
    }
}

/// The bookkeeping of the sound system: how many players exist, which of
/// them finished playing at the last update, and the loaded tracks.
///
/// The audio output itself (the players and the device) is driven by the
/// caller, which reports after each update which players ran dry.
pub struct SoundSystem {
    player_count: usize,
    tracks: Vec<Track>,
    finished_players: Vec<PlayerId>,
}

/// `finished` lists, in increasing order, exactly the players whose flag in
/// `empty` is set.
pub open spec fn lists_empty_players(finished: Seq<usize>, empty: Seq<bool>) -> bool {
    &&& forall|j: int| 0 <= j < finished.len() ==> #[trigger] finished[j] < empty.len() && empty[finished[j] as int]
    &&& forall|i: int| 0 <= i < empty.len() && #[trigger] empty[i] ==> finished.contains(i as usize)
    &&& forall|i: int, j: int| 0 <= i < j < finished.len() ==> #[trigger] finished[i] < #[trigger] finished[j]
}

impl SoundSystem {
    pub closed spec fn player_count(&self) -> nat {
        self.player_count as nat
    }

    /// The loaded tracks, by id.
    pub closed spec fn tracks(&self) -> Seq<Seq<u8>> {
        self.tracks@.map_values(|t: Track| t@)
    }

    /// Players that finished at the last update and were not handed out
    /// since; the next play takes the last one.
    pub closed spec fn finished_players(&self) -> Seq<usize> {
        self.finished_players@.map_values(|p: PlayerId| p.0)
    }

    pub closed spec fn wf(&self) -> bool {
        &&& forall|j: int|
            0 <= j < self.finished_players@.len() ==> (#[trigger] self.finished_players@[j]).0
                < self.player_count
        &&& forall|i: int, j: int|
            0 <= i < j < self.finished_players@.len() ==> (#[trigger] self.finished_players@[i]).0
                < (#[trigger] self.finished_players@[j]).0
    }

    /// `post` is `pre` with one more player, named `id`.
    pub open spec fn player_created(pre: Self, post: Self, id: PlayerId) -> bool {
        &&& id.0 == pre.player_count()
        &&& post.player_count() == pre.player_count() + 1
        &&& post.tracks() == pre.tracks()
        &&& post.finished_players() == pre.finished_players()
    }

    /// `post` is `pre` with `bytes` loaded as the track `id`.
    pub open spec fn track_loaded(pre: Self, post: Self, bytes: Seq<u8>, id: TrackId) -> bool {
        &&& id.0 == pre.tracks().len()
        &&& post.tracks() == pre.tracks().push(bytes)
        &&& post.player_count() == pre.player_count()
        &&& post.finished_players() == pre.finished_players()
    }

    /// `post` is `pre` after an update in which exactly the players flagged
    /// in `empty` had nothing left to play.
    pub open spec fn updated(pre: Self, post: Self, empty: Seq<bool>) -> bool {
        &&& lists_empty_players(post.finished_players(), empty)
        &&& post.player_count() == pre.player_count()
        &&& post.tracks() == pre.tracks()
    }

    /// `post` is `pre` after asking to play `track`: an unknown track yields
    /// `None` and changes nothing; otherwise the player that finished last
    /// is reused, or a new player is created when none is free.
    pub open spec fn played(pre: Self, post: Self, track: TrackId, result: Option<PlayerId>) -> bool {
        if track.0 < pre.tracks().len() {
            &&& post.tracks() == pre.tracks()
            &&& if pre.finished_players().len() > 0 {
                &&& result == Some(PlayerId(pre.finished_players().last()))
                &&& post.finished_players() == pre.finished_players().drop_last()
                &&& post.player_count() == pre.player_count()
            } else {
                &&& result == Some(PlayerId(pre.player_count() as usize))
                &&& post.finished_players() == pre.finished_players()
                &&& post.player_count() == pre.player_count() + 1
            }
        } else {
            &&& result is None
            &&& post == pre
        }
    }

    /// A sound system without players or tracks.
    pub fn new() -> (s: Self)
        ensures
            s.wf(),
            s.player_count() == 0,
            s.tracks().len() == 0,
            s.finished_players().len() == 0,
    {
        SoundSystem { player_count: 0, tracks: Vec::new(), finished_players: Vec::new() }
    }

    /// Adds a player and returns its id.
    pub fn create_player(&mut self) -> (id: PlayerId)
        requires
            old(self).wf(),
            old(self).player_count() < usize::MAX,
        ensures
            final(self).wf(),
            Self::player_created(*old(self), *final(self), id),
    {
        let id = PlayerId(self.player_count);
        self.player_count = self.player_count + 1;
        id
    }

    /// Keeps the encoded bytes of a sound file as a new track.
    pub fn load(&mut self, bytes: Vec<u8>) -> (id: TrackId)
        requires
            old(self).wf(),
        ensures
            final(self).wf(),
            Self::track_loaded(*old(self), *final(self), bytes@, id),
    {
        let ghost pre = *self;
        let ghost data = bytes@;
        let id = TrackId(self.tracks.len());
        self.tracks.push(Track::new(bytes));
        proof {
            assert(self.tracks() =~= pre.tracks().push(data));
        }
        id
    }

    /// The track loaded under `id`, if any.
    pub fn track(&self, id: TrackId) -> (r: Option<&Track>)
        ensures
            r is Some <==> id.0 < self.tracks().len(),
            r matches Some(t) ==> t@ == self.tracks()[id.0 as int],
    {
        if id.0 < self.tracks.len() {
            Some(&self.tracks[id.0])
        } else {
            None
        }
    }

    /// Records which players ran out of sound: `empty[i]` tells whether
    /// player `i` has nothing left to play.
    pub fn run(&mut self, empty: &Vec<bool>)
        requires
            old(self).wf(),
            empty@.len() == old(self).player_count(),
        ensures
            final(self).wf(),
            Self::updated(*old(self), *final(self), empty@),
    {
        let ghost pre = *self;
        self.finished_players.clear();
        let n = empty.len();
        let mut i: usize = 0;
        while i < n
            invariant
                n == empty@.len(),
                n == self.player_count,
                self.player_count == pre.player_count,
                self.tracks == pre.tracks,
                i <= n,
                forall|j: int|
                    0 <= j < self.finished_players@.len() ==> (#[trigger] self.finished_players@[j]).0
                        < i && empty@[self.finished_players@[j].0 as int],
                forall|t: int|
                    0 <= t < i && #[trigger] empty@[t] ==> exists|j: int|
                        0 <= j < self.finished_players@.len() && (#[trigger] self.finished_players@[j]).0
                            == t,
                forall|a: int, b: int|
                    0 <= a < b < self.finished_players@.len() ==> (#[trigger] self.finished_players@[a]).0
                        < (#[trigger] self.finished_players@[b]).0,
            decreases n - i,
        {
            if empty[i] {
                let ghost before = self.finished_players@;
                self.finished_players.push(PlayerId(i));
                proof {
                    assert forall|t: int|
                        0 <= t < i + 1 && #[trigger] empty@[t] implies exists|j: int|
                            0 <= j < self.finished_players@.len() && (#[trigger] self.finished_players@[j]).0
                                == t by {
                        if t == i {
                            assert(self.finished_players@[before.len() as int].0 == t);
                        } else {
                            let j = choose|j: int| 0 <= j < before.len() && (#[trigger] before[j]).0 == t;
                            assert(self.finished_players@[j] == before[j]);
                        }
                    }
                }
            }
            i = i + 1;
        }
        proof {
            let f = self.finished_players();
            assert forall|t: int| 0 <= t < n && #[trigger] empty@[t] implies f.contains(t as usize) by {
                let j = choose|j: int| 0 <= j < self.finished_players@.len() && (#[trigger] self.finished_players@[j]).0 == t;
                assert(f[j] == t as usize);
            }
            assert forall|j: int| 0 <= j < f.len() implies #[trigger] f[j] < n && empty@[f[j] as int] by {
                assert(f[j] == self.finished_players@[j].0);
            }
            assert forall|a: int, b: int| 0 <= a < b < f.len() implies #[trigger] f[a] < #[trigger] f[b] by {
                assert(f[a] == self.finished_players@[a].0);
                assert(f[b] == self.finished_players@[b].0);
            }
            assert(lists_empty_players(f, empty@));
        }
    }

    /// Picks the player that plays `track`: `None` when no such track was
    /// loaded, else the player that finished last, or a new player when
    /// every player is busy.
    pub fn play(&mut self, track: TrackId) -> (r: Option<PlayerId>)
        requires
            old(self).wf(),
            track.0 >= old(self).tracks().len() || old(self).finished_players().len() > 0
                || old(self).player_count() < usize::MAX,
        ensures
            final(self).wf(),
            Self::played(*old(self), *final(self), track, r),
    {
        if track.0 >= self.tracks.len() {
            return None;
        }
        let ghost pre = *self;
        let player = match self.finished_players.pop() {
            Some(id) => {
                proof {
                    assert(self.finished_players() =~= pre.finished_players().drop_last());
                }
                id
            },
            None => self.create_player(),
        };
        Some(player)
    }
}

impl SoundSystem {
    /// A loaded track reads back as the bytes it was loaded from, and the
    /// tracks loaded before it are untouched.
    pub proof fn lemma_load_then_read(pre: Self, post: Self, bytes: Seq<u8>, id: TrackId, other: TrackId)
        requires
            Self::track_loaded(pre, post, bytes, id),
        ensures
            id.0 < post.tracks().len(),
            post.tracks()[id.0 as int] == bytes,
            other.0 < pre.tracks().len() ==> post.tracks()[other.0 as int] == pre.tracks()[other.0 as int],
    {
    }

    /// Every player that a play hands out exists afterwards.
    pub proof fn lemma_played_player_exists(pre: Self, post: Self, track: TrackId, player: PlayerId)
        requires
            pre.wf(),
            Self::played(pre, post, track, Some(player)),
        ensures
            player.0 < post.player_count(),
    {
        if pre.finished_players().len() > 0 {
            let last = pre.finished_players@.len() - 1;
            assert(pre.finished_players()[last] == pre.finished_players@[last].0);
        }
    }

    /// After an update, the player a play hands out is one that the update
    /// reported as having nothing left to play, or a brand new one.
    pub proof fn lemma_play_reuses_only_idle_players(
        s0: Self,
        s1: Self,
        s2: Self,
        empty: Seq<bool>,
        track: TrackId,
        player: PlayerId,
    )
        requires
            Self::updated(s0, s1, empty),
            Self::played(s1, s2, track, Some(player)),
        ensures
            (player.0 < empty.len() && empty[player.0 as int]) || player.0 == s1.player_count(),
    {
        if s1.finished_players().len() > 0 {
            let last = s1.finished_players().len() - 1;
            assert(s1.finished_players()[last] < empty.len());
        }
    }
}

impl SoundSystem {
    /// What one play that hands out player `p` does to the finished players
    /// and the player count.
    #[verifier::opaque]
    spec fn play_step(pre: SoundSystem, post: SoundSystem, p: usize) -> bool {
        if pre.finished_players().len() > 0 {
            &&& p == pre.finished_players().last()
            &&& post.finished_players() == pre.finished_players().drop_last()
            &&& post.player_count() == pre.player_count()
        } else {
            &&& p == pre.player_count()
            &&& post.finished_players().len() == 0
            &&& post.player_count() == pre.player_count() + 1
        }
    }

    proof fn lemma_play_step(pre: SoundSystem, post: SoundSystem, track: TrackId, player: PlayerId)
        requires
            Self::played(pre, post, track, Some(player)),
        ensures
            Self::play_step(pre, post, player.0),
    {
        reveal(SoundSystem::play_step);
    }

    proof fn lemma_play_step_facts(pre: SoundSystem, post: SoundSystem, p: usize)
        requires
            Self::play_step(pre, post, p),
        ensures
            pre.finished_players().len() > 0 ==> {
                &&& p == pre.finished_players().last()
                &&& post.finished_players() == pre.finished_players().drop_last()
                &&& post.player_count() == pre.player_count()
            },
            pre.finished_players().len() == 0 ==> {
                &&& p == pre.player_count()
                &&& post.finished_players().len() == 0
                &&& post.player_count() == pre.player_count() + 1
            },
    {
        reveal(SoundSystem::play_step);
    }

    /// Along a run of plays, each state's finished players are a prefix of
    /// the first state's, and the player count never falls.
    proof fn lemma_plays_prefix(states: Seq<SoundSystem>, players: Seq<usize>, k: int)
        requires
            states.len() == players.len() + 1,
            0 <= k < states.len(),
            forall|i: int| 0 <= i < players.len() ==> Self::play_step(#[trigger] states[i], states[i + 1], players[i]),
        ensures
            states[k].finished_players() == states[0].finished_players().take(
                states[k].finished_players().len() as int,
            ),
            states[k].player_count() >= states[0].player_count(),
            states[k].finished_players().len() <= states[0].finished_players().len(),
        decreases k,
    {
        if k == 0 {
            assert(states[0].finished_players() =~= states[0].finished_players().take(
                states[0].finished_players().len() as int,
            ));
        } else {
            Self::lemma_plays_prefix(states, players, k - 1);
            let pre = states[k - 1];
            let post = states[k];
            assert(Self::play_step(pre, post, players[k - 1]));
            Self::lemma_play_step_facts(pre, post, players[k - 1]);
            let f0 = states[0].finished_players();
            let len = pre.finished_players().len();
            assert(pre.finished_players() == f0.take(len as int));
            if len > 0 {
                assert(post.finished_players() == pre.finished_players().drop_last());
                assert(f0.take(len as int).drop_last() =~= f0.take(len - 1));
            } else {
                assert(post.finished_players() =~= f0.take(0));
            }
        }
    }

    /// Along a run of plays the finished players only shrink and the player
    /// count only grows; once none is finished, each play adds a player.
    proof fn lemma_plays_monotone(states: Seq<SoundSystem>, players: Seq<usize>, i: int, j: int)
        requires
            states.len() == players.len() + 1,
            0 <= i <= j < states.len(),
            forall|k: int| 0 <= k < players.len() ==> Self::play_step(#[trigger] states[k], states[k + 1], players[k]),
        ensures
            states[j].finished_players().len() <= states[i].finished_players().len(),
            states[j].player_count() >= states[i].player_count(),
            states[i].finished_players().len() == 0 ==> states[j].player_count() - states[i].player_count()
                == j - i,
            states[i].finished_players().len() == 0 ==> states[j].finished_players().len() == 0,
        decreases j - i,
    {
        if i < j {
            Self::lemma_plays_monotone(states, players, i + 1, j);
            assert(Self::play_step(states[i], states[i + 1], players[i]));
            Self::lemma_play_step_facts(states[i], states[i + 1], players[i]);
        }
    }

    /// With no update in between, every play of a run hands out a player
    /// of its own: first the players that finished, the last found first,
    /// then new ones.
    pub proof fn lemma_run_of_plays_uses_distinct_players(
        states: Seq<SoundSystem>,
        tracks: Seq<TrackId>,
        players: Seq<PlayerId>,
    )
        requires
            states.len() == players.len() + 1,
            tracks.len() == players.len(),
            states[0].wf(),
            forall|i: int|
                0 <= i < players.len() ==> Self::played(
                    #[trigger] states[i],
                    states[i + 1],
                    tracks[i],
                    Some(players[i]),
                ),
        ensures
            forall|i: int, j: int| 0 <= i < j < players.len() ==> #[trigger] players[i].0 != #[trigger] players[j].0,
    {
        let ids = players.map_values(|p: PlayerId| p.0);
        assert forall|i: int| 0 <= i < ids.len() implies Self::play_step(#[trigger] states[i], states[i + 1], ids[i]) by {
            Self::lemma_play_step(states[i], states[i + 1], tracks[i], players[i]);
        }
        let f = states[0].finished_players();
        assert forall|i: int, j: int| 0 <= i < j < players.len() implies #[trigger] players[i].0
            != #[trigger] players[j].0 by {
            Self::lemma_plays_prefix(states, ids, i);
            Self::lemma_plays_prefix(states, ids, j);
            Self::lemma_plays_monotone(states, ids, i + 1, j);
            Self::lemma_plays_monotone(states, ids, 0, i);
            assert(Self::play_step(states[i], states[i + 1], ids[i]));
            assert(Self::play_step(states[j], states[j + 1], ids[j]));
            Self::lemma_play_step_facts(states[i], states[i + 1], ids[i]);
            Self::lemma_play_step_facts(states[j], states[j + 1], ids[j]);
            let fi = states[i].finished_players().len();
            let fj = states[j].finished_players().len();
            if fi > 0 {
                assert(ids[i] == f[fi - 1]);
                assert(f[fi - 1] == states[0].finished_players@[fi - 1].0);
                if fj > 0 {
                    assert(ids[j] == f[fj - 1]);
                    assert(f[fj - 1] == states[0].finished_players@[fj - 1].0);
                } else {
                    assert(states[0].finished_players@[fi - 1].0 < states[0].player_count);
                }
            } else {
                Self::lemma_plays_monotone(states, ids, i, j);
            }
        }
    }
}

} // verus!
