use framework::sound::{PlayerId, SoundSystem, Track, TrackId};

#[test]
fn tracks_get_consecutive_ids_and_keep_their_bytes() {
    let mut s = SoundSystem::new();
    let a = s.load(vec![1, 2, 3]);
    let b = s.load(vec![9]);
    assert_eq!(a.0, 0);
    assert_eq!(b.0, 1);
    assert_eq!(s.track(a).unwrap().as_ref(), &[1, 2, 3]);
    assert_eq!(s.track(b).unwrap().as_ref(), &[9]);
    assert!(s.track(TrackId(2)).is_none());
}

#[test]
fn track_clone_shares_the_bytes() {
    let t = Track::new(vec![4, 5]);
    let u = t.clone();
    assert_eq!(u.as_ref(), t.as_ref());
    assert_eq!(u.as_ref(), &[4, 5]);
}

#[test]
fn playing_an_unknown_track_gives_nothing() {
    let mut s = SoundSystem::new();
    assert!(s.play(TrackId(0)).is_none());
    let t = s.load(vec![0]);
    assert!(s.play(TrackId(t.0 + 1)).is_none());
}

#[test]
fn plays_create_players_while_none_is_free() {
    let mut s = SoundSystem::new();
    let t = s.load(vec![7]);
    let p0 = s.play(t).unwrap();
    let p1 = s.play(t).unwrap();
    assert_eq!(p0.0, 0);
    assert_eq!(p1.0, 1);
    let p2 = s.create_player();
    assert_eq!(p2.0, 2);
}

#[test]
fn finished_players_are_reused_last_first() {
    let mut s = SoundSystem::new();
    let t = s.load(vec![7]);
    for _ in 0..4 {
        s.create_player();
    }
    // Players 1 and 3 ran dry.
    s.run(&vec![false, true, false, true]);
    let a: PlayerId = s.play(t).unwrap();
    let b: PlayerId = s.play(t).unwrap();
    let c: PlayerId = s.play(t).unwrap();
    assert_eq!(a.0, 3);
    assert_eq!(b.0, 1);
    assert_eq!(c.0, 4);
    // A new update replaces the list of finished players.
    s.run(&vec![true, false, false, false, false]);
    assert_eq!(s.play(t).unwrap().0, 0);
    assert_eq!(s.play(t).unwrap().0, 5);
}
