use mt_client::pos::BlockPos;
use mt_client::pos::{face_dir, opposite_face};
use mt_client::schedule::MeshScheduler;

fn p(x: i16, y: i16, z: i16) -> BlockPos {
    BlockPos { x, y, z }
}

fn neighbors(c: BlockPos) -> Vec<BlockPos> {
    (0..6).map(|f| c.neighbor(f)).collect()
}

#[test]
fn lone_block_waits() {
    let mut s = MeshScheduler::new();
    let sends = s.add_block(p(0, 0, 0), 10);
    assert!(sends.is_empty());
    // nothing has waited long enough yet
    assert!(s.update(109).is_empty());
    // once 100 ms have elapsed the block is handed over, once
    assert_eq!(s.update(110), vec![p(0, 0, 0)]);
    assert!(s.update(500).is_empty());
}

#[test]
fn block_with_all_neighbors_is_sent_at_once() {
    let mut s = MeshScheduler::new();
    let c = p(3, -2, 7);
    for n in neighbors(c) {
        s.add_block(n, 0);
    }
    let sends = s.add_block(c, 0);
    // each neighbour still misses five of its own neighbours and keeps
    // waiting; only c is handed over
    assert_eq!(sends.last(), Some(&c));
    assert_eq!(sends, vec![c]);
}

#[test]
fn waiting_block_sent_when_last_neighbor_arrives() {
    let mut s = MeshScheduler::new();
    let c = p(0, 0, 0);
    assert!(s.add_block(c, 0).is_empty());
    let ns = neighbors(c);
    for n in &ns[..5] {
        let sends = s.add_block(*n, 1);
        assert!(!sends.contains(&c));
    }
    let sends = s.add_block(ns[5], 2);
    assert_eq!(sends, vec![c]);
    // c no longer waits
    assert!(!s.update(1000).contains(&c));
}

#[test]
fn neighbor_not_waiting_is_remeshed() {
    let mut s = MeshScheduler::new();
    let a = p(0, 0, 0);
    s.add_block(a, 0);
    // a times out and is meshed
    assert_eq!(s.update(200), vec![a]);
    // a new neighbour of a hands a over again, as a is loaded and not waiting
    let b = p(1, 0, 0);
    let sends = s.add_block(b, 300);
    assert_eq!(sends, vec![a]);
}

#[test]
fn re_adding_keeps_waiting_time() {
    let mut s = MeshScheduler::new();
    let a = p(5, 5, 5);
    s.add_block(a, 0);
    s.add_block(a, 90);
    // waits since 0, not 90
    assert_eq!(s.update(101), vec![a]);
}

#[test]
fn update_before_start_time_hands_nothing() {
    let mut s = MeshScheduler::new();
    s.add_block(p(0, 0, 0), 1000);
    assert!(s.update(5).is_empty());
}

#[test]
fn key_roundtrip() {
    for q in [p(0, 0, 0), p(-1, 2, -3), p(i16::MIN, i16::MAX, 0), p(100, -100, 32000)] {
        assert_eq!(BlockPos::from_key(q.key()), q);
    }
    assert_ne!(p(1, 0, 0).key(), p(0, 1, 0).key());
}

#[test]
fn opposite_faces() {
    for f in 0..6 {
        let o = opposite_face(f);
        let (a, b) = (face_dir(f), face_dir(o));
        assert_eq!((a.0 + b.0, a.1 + b.1, a.2 + b.2), (0, 0, 0));
        assert_eq!(opposite_face(o), f);
    }
    assert_eq!(face_dir(0), (0, 1, 0));
    assert_eq!(face_dir(5), (0, 0, -1));
    let c = p(1, 1, 1);
    for f in 0..6 {
        assert_eq!(c.neighbor(f).neighbor(opposite_face(f)), c);
    }
}

#[test]
fn loaded_blocks_stay_and_waiting_ones_are_handed_over_once() {
    let mut s = MeshScheduler::new();
    let a = p(0, 0, 0);
    let b = p(1, 0, 0);
    assert!(s.add_block(a, 0).is_empty());
    // a still waits for five neighbours, b for five
    assert!(s.add_block(b, 5).is_empty());
    let mut expired = s.update(105);
    expired.sort_by_key(|q| q.x);
    assert_eq!(expired, vec![a, b]);
    assert!(s.update(1000).is_empty());
    // a is still loaded and no longer waits: each new neighbour remeshes it
    for f in 0..6 {
        let n = a.neighbor(f);
        if n != b {
            assert_eq!(s.add_block(n, 2000), vec![a]);
        }
    }
}
