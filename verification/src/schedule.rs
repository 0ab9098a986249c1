//! Which map blocks to hand to the mesh generator, and when.
//!
//! To avoid rebuilding a block's mesh over and over, a block is meshed once
//! all six of its neighbours are loaded; a block that still misses a
//! neighbour waits, and is meshed anyway once it has waited for
//! `DEFER_TIMEOUT_MS` milliseconds.

use crate::pos::{
    BlockPos, is_interior, key_pos, lemma_key_injective, lemma_key_roundtrip, lemma_neighbor_back, lemma_neighbors_distinct, lemma_opposite_face, neighbor, opposite,
    opposite_face, pos_key,
};
use std::collections::{HashMap, HashSet};
#[allow(unused_imports)]
use vstd::std_specs::hash::spec_keys_iter;
#[allow(unused_imports)]
use vstd::std_specs::iter::IteratorSpec;
use vstd::prelude::*;

verus! {

broadcast use {vstd::std_specs::hash::group_hash_axioms, vstd::seq_lib::group_seq_properties};

/// How long, in milliseconds, a block may wait for its neighbours: it is
/// handed over once this much time has elapsed.
pub const DEFER_TIMEOUT_MS: u64 = 100;

/// The bookkeeping of a block that waits for neighbours: `mask[f]` tells
/// whether the neighbour through face `f` is loaded, `count` how many are not,
/// and `time` when the block started waiting.
#[derive(Clone, Copy, Debug)]
pub struct DeferredBlock {
    pub count: u8,
    pub mask: [bool; 6],
    pub time: u64,
}

/// The blocks that are loaded and the blocks that wait for neighbours.
pub struct MeshScheduler {
    blocks: HashSet<u64>,
    blocks_defer: HashMap<u64, DeferredBlock>,
}

/// What a scheduler stands for: the loaded blocks, and for each waiting block
/// the time at which it started to wait.
pub struct SchedulerView {
    pub loaded: Set<BlockPos>,
    pub deferred: Map<BlockPos, u64>,
}

/// The blocks whose keys a set of keys holds.
pub open spec fn keyed_set(keys: Set<u64>) -> Set<BlockPos> {
    Set::new(|p: BlockPos| keys.contains(pos_key(p)))
}

/// The waiting times that a map from keys to bookkeeping holds.
pub open spec fn keyed_times(d: Map<u64, DeferredBlock>) -> Map<BlockPos, u64> {
    Map::new(|p: BlockPos| d.contains_key(pos_key(p)), |p: BlockPos| d[pos_key(p)].time)
}

impl View for MeshScheduler {
    type V = SchedulerView;

    closed spec fn view(&self) -> SchedulerView {
        SchedulerView { loaded: keyed_set(self.blocks@), deferred: keyed_times(self.blocks_defer@) }
    }
}

/// The number of faces below `n` through which `p` has no loaded neighbour.
pub open spec fn missing_upto(loaded: Set<BlockPos>, p: BlockPos, n: int) -> int
    decreases n,
{
    if n <= 0 {
        0
    } else {
        missing_upto(loaded, p, n - 1) + if loaded.contains(neighbor(p, n - 1)) {
            0int
        } else {
            1int
        }
    }
}

/// The number of faces through which `p` has no loaded neighbour.
pub open spec fn missing(loaded: Set<BlockPos>, p: BlockPos) -> int {
    missing_upto(loaded, p, 6)
}

/// All six neighbours of `p` are loaded.
pub open spec fn all_neighbors_loaded(loaded: Set<BlockPos>, p: BlockPos) -> bool {
    forall|f: int| 0 <= f < 6 ==> #[trigger] loaded.contains(neighbor(p, f))
}

/// A block that started waiting at `time` has waited long enough at `now`:
/// the timeout has elapsed.
pub open spec fn is_expired(time: u64, now: u64) -> bool {
    now - time >= DEFER_TIMEOUT_MS
}

/// The waiting blocks after `pos` was loaded at `now`: those that waited
/// before, and `pos` itself, except the ones whose neighbours are now all
/// loaded. A block that waited keeps its time; `pos`, if new, waits from `now`.
pub open spec fn deferred_after_add(v: SchedulerView, pos: BlockPos, now: u64) -> Map<BlockPos, u64> {
    Map::new(
        |q: BlockPos|
            (v.deferred.contains_key(q) || q == pos) && !all_neighbors_loaded(v.loaded.insert(pos), q),
        |q: BlockPos|
            if v.deferred.contains_key(q) {
                v.deferred[q]
            } else {
                now
            },
    )
}

/// Loading `pos` hands the neighbour through face `f` to the mesh generator:
/// it is loaded, and either did not wait or now has all its neighbours.
pub open spec fn face_sent(v: SchedulerView, pos: BlockPos, f: int) -> bool {
    let n = neighbor(pos, f);
    &&& v.loaded.contains(n)
    &&& v.deferred.contains_key(n) ==> all_neighbors_loaded(v.loaded.insert(pos), n)
}

/// The neighbours, in face order, among the first `n` faces, that loading
/// `pos` hands to the mesh generator.
pub open spec fn sent_neighbors(v: SchedulerView, pos: BlockPos, n: int) -> Seq<BlockPos>
    decreases n,
{
    if n <= 0 {
        Seq::empty()
    } else {
        sent_neighbors(v, pos, n - 1) + if face_sent(v, pos, n - 1) {
            seq![neighbor(pos, n - 1)]
        } else {
            Seq::empty()
        }
    }
}

/// What loading `pos` hands to the mesh generator: the neighbours of
/// `sent_neighbors`, then `pos` itself if all its neighbours are loaded.
pub open spec fn sent_after_add(v: SchedulerView, pos: BlockPos) -> Seq<BlockPos> {
    sent_neighbors(v, pos, 6) + if all_neighbors_loaded(v.loaded, pos) {
        seq![pos]
    } else {
        Seq::empty()
    }
}

/// The bookkeeping of the block at `p` agrees with the loaded keys `b`.
pub open spec fn entry_ok(b: Set<u64>, p: BlockPos, e: DeferredBlock) -> bool {
    &&& is_interior(p)
    &&& b.contains(pos_key(p))
    &&& forall|g: int| 0 <= g < 6 ==> e.mask@[g] == #[trigger] b.contains(pos_key(neighbor(p, g)))
    &&& e.count == missing(keyed_set(b), p)
    &&& e.count >= 1
}

/// Every waiting block's bookkeeping agrees with the loaded keys `b`, and
/// every key of `d` is the key of a position.
pub open spec fn bookkeeping_ok(d: Map<u64, DeferredBlock>, b: Set<u64>) -> bool {
    forall|k: u64| #[trigger]
        d.contains_key(k) ==> pos_key(key_pos(k)) == k && entry_ok(b, key_pos(k), d[k])
}

/// The key of the neighbour of `pos` through face `f`.
pub open spec fn nkey(pos: BlockPos, f: int) -> u64 {
    pos_key(neighbor(pos, f))
}

/// The bookkeeping after the neighbour of `pos` through face `f` learns that
/// `pos` is loaded.
pub open spec fn step_defer(d: Map<u64, DeferredBlock>, pos: BlockPos, f: int) -> Map<u64, DeferredBlock> {
    let k = nkey(pos, f);
    let rf = opposite(f);
    if d.contains_key(k) && !d[k].mask@[rf] {
        if d[k].count == 1 {
            d.remove(k)
        } else {
            d.insert(
                k,
                DeferredBlock {
                    count: (d[k].count - 1) as u8,
                    mask: vstd::array::spec_array_update(d[k].mask, rf, true),
                    time: d[k].time,
                },
            )
        }
    } else {
        d
    }
}

/// The bookkeeping after the neighbours through the first `i` faces of
/// `pos` learnt that `pos` is loaded.
pub open spec fn defer_upto(d: Map<u64, DeferredBlock>, pos: BlockPos, i: int) -> Map<u64, DeferredBlock>
    decreases i,
{
    if i <= 0 {
        d
    } else {
        step_defer(defer_upto(d, pos, i - 1), pos, i - 1)
    }
}

/// In the bookkeeping `d` and loaded keys `b`, the neighbour of `pos`
/// through face `f` is loaded.
pub open spec fn present_c(d: Map<u64, DeferredBlock>, b: Set<u64>, pos: BlockPos, f: int) -> bool {
    d.contains_key(nkey(pos, f)) || b.contains(nkey(pos, f))
}

/// In the bookkeeping `d` and loaded keys `b`, the neighbour through face `f`
/// is handed to the mesh generator.
pub open spec fn sent_c(d: Map<u64, DeferredBlock>, b: Set<u64>, pos: BlockPos, f: int) -> bool {
    let k = nkey(pos, f);
    if d.contains_key(k) {
        !d[k].mask@[opposite(f)] && d[k].count == 1
    } else {
        b.contains(k)
    }
}

/// The neighbours handed to the mesh generator among the first `i` faces.
pub open spec fn sends_upto(d: Map<u64, DeferredBlock>, b: Set<u64>, pos: BlockPos, i: int) -> Seq<BlockPos>
    decreases i,
{
    if i <= 0 {
        Seq::empty()
    } else {
        sends_upto(d, b, pos, i - 1) + if sent_c(defer_upto(d, pos, i - 1), b, pos, i - 1) {
            seq![neighbor(pos, i - 1)]
        } else {
            Seq::empty()
        }
    }
}

/// The number of loaded neighbours among the first `i` faces.
pub open spec fn present_upto(d: Map<u64, DeferredBlock>, b: Set<u64>, pos: BlockPos, i: int) -> int
    decreases i,
{
    if i <= 0 {
        0
    } else {
        present_upto(d, b, pos, i - 1) + if present_c(defer_upto(d, pos, i - 1), b, pos, i - 1) {
            1int
        } else {
            0int
        }
    }
}

/// Only the key of the neighbour through face `i - 1` is touched by a step:
/// keys that no step of the first `i` touches keep their bookkeeping.
proof fn lemma_defer_upto_untouched(d: Map<u64, DeferredBlock>, pos: BlockPos, i: int, k: u64)
    requires
        forall|g: int| 0 <= g < i ==> k != #[trigger] nkey(pos, g),
    ensures
        defer_upto(d, pos, i).contains_key(k) == d.contains_key(k),
        d.contains_key(k) ==> defer_upto(d, pos, i)[k] == d[k],
    decreases i,
{
    if i > 0 {
        lemma_defer_upto_untouched(d, pos, i - 1, k);
    }
}

/// The keys of the six neighbours of an interior block are distinct, and
/// differ from the block's own key.
proof fn lemma_nkeys_distinct(pos: BlockPos)
    requires
        is_interior(pos),
    ensures
        forall|f: int| 0 <= f < 6 ==> #[trigger] nkey(pos, f) != pos_key(pos),
        forall|f: int, g: int| 0 <= f < 6 && 0 <= g < 6 && f != g ==> #[trigger] nkey(pos, f) != #[trigger] nkey(pos, g),
{
    assert forall|f: int| 0 <= f < 6 implies #[trigger] nkey(pos, f) != pos_key(pos) by {
        lemma_neighbors_distinct(pos, f, f);
        lemma_key_injective(neighbor(pos, f), pos);
    }
    assert forall|f: int, g: int| 0 <= f < 6 && 0 <= g < 6 && f != g implies #[trigger] nkey(pos, f) != #[trigger] nkey(pos, g) by {
        lemma_neighbors_distinct(pos, f, g);
        lemma_key_injective(neighbor(pos, f), neighbor(pos, g));
    }
}

/// Loading a block adds exactly that block to the loaded blocks.
proof fn lemma_keyed_set_insert(b: Set<u64>, p: BlockPos)
    ensures
        keyed_set(b.insert(pos_key(p))) == keyed_set(b).insert(p),
{
    assert forall|q: BlockPos| #[trigger] keyed_set(b.insert(pos_key(p))).contains(q) == keyed_set(b).insert(p).contains(q) by {
        lemma_key_injective(p, q);
    }
    assert(keyed_set(b.insert(pos_key(p))) =~= keyed_set(b).insert(p));
}

/// No face misses a neighbour exactly when all neighbours are loaded.
proof fn lemma_missing_zero(l: Set<BlockPos>, p: BlockPos, n: int)
    requires
        0 <= n <= 6,
    ensures
        missing_upto(l, p, n) >= 0,
        missing_upto(l, p, n) <= n,
        missing_upto(l, p, n) == 0 <==> forall|f: int| 0 <= f < n ==> #[trigger] l.contains(neighbor(p, f)),
    decreases n,
{
    if n > 0 {
        lemma_missing_zero(l, p, n - 1);
        if missing_upto(l, p, n) == 0 {
            assert forall|f: int| 0 <= f < n implies #[trigger] l.contains(neighbor(p, f)) by {
                if f < n - 1 {
                }
            }
        }
    }
}

/// Loading the neighbour through face `r` lowers the number of missing
/// neighbours by one, if it was not loaded.
proof fn lemma_missing_insert_face(l: Set<BlockPos>, p: BlockPos, r: int, n: int)
    requires
        is_interior(p),
        0 <= r < 6,
        0 <= n <= 6,
    ensures
        missing_upto(l.insert(neighbor(p, r)), p, n) == missing_upto(l, p, n) - if !l.contains(neighbor(p, r)) && r < n {
            1int
        } else {
            0int
        },
    decreases n,
{
    if n > 0 {
        lemma_missing_insert_face(l, p, r, n - 1);
        lemma_neighbors_distinct(p, r, n - 1);
    }
}

/// Loading a block that is no neighbour of `p` does not change the number of
/// missing neighbours of `p`.
proof fn lemma_missing_insert_other(l: Set<BlockPos>, p: BlockPos, q: BlockPos, n: int)
    requires
        forall|h: int| 0 <= h < 6 ==> #[trigger] neighbor(p, h) != q,
        0 <= n <= 6,
    ensures
        missing_upto(l.insert(q), p, n) == missing_upto(l, p, n),
    decreases n,
{
    if n > 0 {
        lemma_missing_insert_other(l, p, q, n - 1);
        assert(neighbor(p, n - 1) != q);
    }
}

/// If `q` is a neighbour of `p`, then `p` is a neighbour of `q`.
proof fn lemma_neighbor_symmetric(p: BlockPos, q: BlockPos, h: int)
    requires
        is_interior(q),
        0 <= h < 6,
        neighbor(q, h) == p,
    ensures
        neighbor(p, opposite(h)) == q,
        0 <= opposite(h) < 6,
{
    lemma_neighbor_back(q, h);
}

/// Under well-formed bookkeeping, a neighbour key of `pos` that no earlier
/// step touched counts as loaded exactly when the block is loaded.
proof fn lemma_present(d0: Map<u64, DeferredBlock>, b0: Set<u64>, pos: BlockPos, i: int)
    requires
        is_interior(pos),
        0 <= i <= 6,
        forall|k: u64| #[trigger] d0.contains_key(k) ==> b0.contains(k),
    ensures
        present_upto(d0, b0.insert(pos_key(pos)), pos, i) == i - missing_upto(keyed_set(b0), pos, i),
        forall|g: int| 0 <= g < 6 ==> #[trigger] present_c(defer_upto(d0, pos, g), b0.insert(pos_key(pos)), pos, g)
            == keyed_set(b0).contains(neighbor(pos, g)),
    decreases i,
{
    lemma_nkeys_distinct(pos);
    assert forall|g: int| 0 <= g < 6 implies #[trigger] present_c(defer_upto(d0, pos, g), b0.insert(pos_key(pos)), pos, g)
        == keyed_set(b0).contains(neighbor(pos, g)) by {
        let k = nkey(pos, g);
        assert forall|h: int| 0 <= h < g implies k != #[trigger] nkey(pos, h) by {
            assert(nkey(pos, g) != nkey(pos, h));
        }
        lemma_defer_upto_untouched(d0, pos, g, k);
    }
    if i > 0 {
        lemma_present(d0, b0, pos, i - 1);
    }
}

/// Every step leaves the key it touches as the first step on it left it.
proof fn lemma_defer_upto_touched(d: Map<u64, DeferredBlock>, pos: BlockPos, g: int, i: int)
    requires
        is_interior(pos),
        0 <= g < i <= 6,
    ensures
        defer_upto(d, pos, i).contains_key(nkey(pos, g)) == step_defer(d, pos, g).contains_key(nkey(pos, g)),
        step_defer(d, pos, g).contains_key(nkey(pos, g)) ==> defer_upto(d, pos, i)[nkey(pos, g)] == step_defer(d, pos, g)[nkey(pos, g)],
    decreases i,
{
    lemma_nkeys_distinct(pos);
    let k = nkey(pos, g);
    if i == g + 1 {
        assert forall|h: int| 0 <= h < g implies k != #[trigger] nkey(pos, h) by {
            assert(nkey(pos, g) != nkey(pos, h));
        }
        lemma_defer_upto_untouched(d, pos, g, k);
    } else {
        lemma_defer_upto_touched(d, pos, g, i - 1);
        assert(nkey(pos, g) != nkey(pos, i - 1));
    }
}

/// Under well-formed bookkeeping, a neighbour is handed over when the
/// abstract rule `face_sent` says so.
proof fn lemma_sent(d0: Map<u64, DeferredBlock>, b0: Set<u64>, pos: BlockPos, i: int)
    requires
        bookkeeping_ok(d0, b0),
        is_interior(pos),
        0 <= i <= 6,
    ensures
        sends_upto(d0, b0.insert(pos_key(pos)), pos, i) == sent_neighbors(
            SchedulerView { loaded: keyed_set(b0), deferred: keyed_times(d0) },
            pos,
            i,
        ),
    decreases i,
{
    if i > 0 {
        lemma_sent(d0, b0, pos, i - 1);
        let f = i - 1;
        let v = SchedulerView { loaded: keyed_set(b0), deferred: keyed_times(d0) };
        let b1 = b0.insert(pos_key(pos));
        let l = keyed_set(b0);
        let k = nkey(pos, f);
        let n = neighbor(pos, f);
        lemma_nkeys_distinct(pos);
        assert forall|h: int| 0 <= h < f implies k != #[trigger] nkey(pos, h) by {
            assert(nkey(pos, f) != nkey(pos, h));
        }
        lemma_defer_upto_untouched(d0, pos, f, k);
        if d0.contains_key(k) {
            let e = d0[k];
            lemma_key_roundtrip(n);
            assert(entry_ok(b0, n, e));
            let rf = opposite(f);
            lemma_opposite_face(f);
            lemma_neighbor_back(pos, f);
            assert(e.mask@[rf] == b0.contains(pos_key(neighbor(n, rf))));
            lemma_missing_insert_face(l, n, rf, 6);
            lemma_missing_zero(l.insert(pos), n, 6);
            lemma_missing_zero(l, n, 6);
            assert(sent_c(defer_upto(d0, pos, f), b1, pos, f) == face_sent(v, pos, f));
        } else {
            assert(sent_c(defer_upto(d0, pos, f), b1, pos, f) == face_sent(v, pos, f));
        }
    }
}

/// The bookkeeping after a step on the key of the neighbour through face `g`
/// agrees with the loaded keys once `pos` is loaded, and matches the abstract
/// rule for that neighbour.
proof fn lemma_neighbor_entry(d0: Map<u64, DeferredBlock>, b0: Set<u64>, pos: BlockPos, g: int, now: u64)
    requires
        bookkeeping_ok(d0, b0),
        is_interior(pos),
        0 <= g < 6,
    ensures
        ({
            let k = nkey(pos, g);
            let d1 = step_defer(d0, pos, g);
            let b1 = b0.insert(pos_key(pos));
            let v = SchedulerView { loaded: keyed_set(b0), deferred: keyed_times(d0) };
            let q = neighbor(pos, g);
            &&& d1.contains_key(k) ==> entry_ok(b1, key_pos(k), d1[k]) && pos_key(key_pos(k)) == k
            &&& d1.contains_key(k) == deferred_after_add(v, pos, now).contains_key(q)
            &&& d1.contains_key(k) ==> d1[k].time == deferred_after_add(v, pos, now)[q]
        }),
{
    let k = nkey(pos, g);
    let n = neighbor(pos, g);
    let b1 = b0.insert(pos_key(pos));
    let l = keyed_set(b0);
    let v = SchedulerView { loaded: keyed_set(b0), deferred: keyed_times(d0) };
    lemma_keyed_set_insert(b0, pos);
    lemma_neighbors_distinct(pos, g, g);
    if d0.contains_key(k) {
        let e = d0[k];
        lemma_key_roundtrip(n);
        assert(entry_ok(b0, n, e));
        let rf = opposite(g);
        lemma_opposite_face(g);
        lemma_neighbor_back(pos, g);
        assert(e.mask@[rf] == b0.contains(pos_key(neighbor(n, rf))));
        lemma_missing_insert_face(l, n, rf, 6);
        lemma_missing_zero(l.insert(pos), n, 6);
        lemma_missing_zero(l, n, 6);
        if !e.mask@[rf] {
            if e.count != 1 {
                let e2 = step_defer(d0, pos, g)[k];
                assert(e2.mask@ == e.mask@.update(rf, true));
                assert forall|h: int| 0 <= h < 6 implies e2.mask@[h] == #[trigger] b1.contains(pos_key(neighbor(n, h))) by {
                    if h != rf {
                        lemma_neighbors_distinct(n, h, rf);
                        lemma_key_injective(neighbor(n, h), pos);
                    }
                }
                assert(entry_ok(b1, n, e2));
            }
        } else {
            assert(b1 =~= b0);
        }
    }
}

/// A waiting block that is no neighbour of `pos` keeps its bookkeeping, and
/// that bookkeeping agrees with the loaded keys once `pos` is loaded.
proof fn lemma_other_entry(d0: Map<u64, DeferredBlock>, b0: Set<u64>, pos: BlockPos, k: u64)
    requires
        bookkeeping_ok(d0, b0),
        is_interior(pos),
        d0.contains_key(k),
        k != pos_key(pos),
        forall|g: int| 0 <= g < 6 ==> k != #[trigger] nkey(pos, g),
    ensures
        entry_ok(b0.insert(pos_key(pos)), key_pos(k), d0[k]),
        !all_neighbors_loaded(keyed_set(b0).insert(pos), key_pos(k)),
{
    let p = key_pos(k);
    let e = d0[k];
    let b1 = b0.insert(pos_key(pos));
    let l = keyed_set(b0);
    assert(entry_ok(b0, p, e));
    assert forall|h: int| 0 <= h < 6 implies #[trigger] neighbor(p, h) != pos by {
        if neighbor(p, h) == pos {
            lemma_neighbor_symmetric(pos, p, h);
            assert(k == nkey(pos, opposite(h)));
        }
    }
    assert forall|h: int| 0 <= h < 6 implies e.mask@[h] == #[trigger] b1.contains(pos_key(neighbor(p, h))) by {
        lemma_key_injective(neighbor(p, h), pos);
    }
    lemma_keyed_set_insert(b0, pos);
    lemma_missing_insert_other(l, p, pos, 6);
    lemma_missing_zero(l.insert(pos), p, 6);
}

/// After the six steps, the bookkeeping of `add_block` agrees with the
/// loaded keys, and stands for the abstract waiting blocks.
proof fn lemma_add_block_final(
    d0: Map<u64, DeferredBlock>,
    b0: Set<u64>,
    pos: BlockPos,
    now: u64,
    mask: [bool; 6],
    count: u8,
    dfinal: Map<u64, DeferredBlock>,
)
    requires
        bookkeeping_ok(d0, b0),
        is_interior(pos),
        forall|g: int| 0 <= g < 6 ==> #[trigger] mask@[g] == present_c(defer_upto(d0, pos, g), b0.insert(pos_key(pos)), pos, g),
        count == 6 - present_upto(d0, b0.insert(pos_key(pos)), pos, 6),
        dfinal == if count == 0 {
            defer_upto(d0, pos, 6)
        } else {
            defer_upto(d0, pos, 6).insert(
                pos_key(pos),
                DeferredBlock {
                    count,
                    mask,
                    time: if defer_upto(d0, pos, 6).contains_key(pos_key(pos)) {
                        defer_upto(d0, pos, 6)[pos_key(pos)].time
                    } else {
                        now
                    },
                },
            )
        },
    ensures
        bookkeeping_ok(dfinal, b0.insert(pos_key(pos))),
        keyed_times(dfinal) == deferred_after_add(
            SchedulerView { loaded: keyed_set(b0), deferred: keyed_times(d0) },
            pos,
            now,
        ),
        (count == 0) == all_neighbors_loaded(keyed_set(b0), pos),
{
    let kp = pos_key(pos);
    let b1 = b0.insert(kp);
    let l = keyed_set(b0);
    let d6 = defer_upto(d0, pos, 6);
    let v = SchedulerView { loaded: keyed_set(b0), deferred: keyed_times(d0) };
    lemma_nkeys_distinct(pos);
    lemma_present(d0, b0, pos, 6);
    lemma_missing_zero(l, pos, 6);
    lemma_key_roundtrip(pos);
    lemma_keyed_set_insert(b0, pos);
    assert forall|g: int| 0 <= g < 6 implies kp != #[trigger] nkey(pos, g) by {}
    lemma_defer_upto_untouched(d0, pos, 6, kp);
    if d0.contains_key(kp) {
        assert(entry_ok(b0, pos, d0[kp]));
    }
    assert forall|h: int| 0 <= h < 6 implies #[trigger] neighbor(pos, h) != pos by {
        lemma_neighbors_distinct(pos, h, h);
    }
    lemma_missing_insert_other(l, pos, pos, 6);
    lemma_missing_zero(l.insert(pos), pos, 6);
    assert forall|k: u64| #[trigger] dfinal.contains_key(k) implies pos_key(key_pos(k)) == k && entry_ok(b1, key_pos(k), dfinal[k]) by {
        if k == kp {
            let e = dfinal[k];
            assert forall|g: int| 0 <= g < 6 implies e.mask@[g] == #[trigger] b1.contains(pos_key(neighbor(pos, g))) by {
                assert(mask@[g] == present_c(defer_upto(d0, pos, g), b1, pos, g));
                assert(nkey(pos, g) != kp);
            }
        } else if exists|g: int| 0 <= g < 6 && k == #[trigger] nkey(pos, g) {
            let g = choose|g: int| 0 <= g < 6 && k == #[trigger] nkey(pos, g);
            lemma_defer_upto_touched(d0, pos, g, 6);
            lemma_neighbor_entry(d0, b0, pos, g, now);
        } else {
            lemma_defer_upto_untouched(d0, pos, 6, k);
            lemma_other_entry(d0, b0, pos, k);
        }
    }
    let target = deferred_after_add(v, pos, now);
    assert forall|q: BlockPos| #[trigger] keyed_times(dfinal).contains_key(q) == target.contains_key(q)
        && (target.contains_key(q) ==> keyed_times(dfinal)[q] == target[q]) by {
        let k = pos_key(q);
        if q == pos {
        } else if exists|g: int| 0 <= g < 6 && q == #[trigger] neighbor(pos, g) {
            let g = choose|g: int| 0 <= g < 6 && q == #[trigger] neighbor(pos, g);
            assert(k == nkey(pos, g));
            lemma_defer_upto_touched(d0, pos, g, 6);
            lemma_neighbor_entry(d0, b0, pos, g, now);
        } else {
            lemma_key_injective(q, pos);
            assert forall|g: int| 0 <= g < 6 implies k != #[trigger] nkey(pos, g) by {
                lemma_key_injective(q, neighbor(pos, g));
            }
            lemma_defer_upto_untouched(d0, pos, 6, k);
            if d0.contains_key(k) {
                lemma_key_roundtrip(q);
                lemma_other_entry(d0, b0, pos, k);
            }
        }
    }
    assert(keyed_times(dfinal) =~= target);
}

/// The blocks that waited too long, in the order of `keys`, among the first
/// `i` keys.
pub open spec fn expired_upto(keys: Seq<u64>, d: Map<u64, DeferredBlock>, now: u64, i: int) -> Seq<BlockPos>
    decreases i,
{
    if i <= 0 {
        Seq::empty()
    } else {
        expired_upto(keys, d, now, i - 1) + if d.contains_key(keys[i - 1]) && is_expired(d[keys[i - 1]].time, now) {
            seq![key_pos(keys[i - 1])]
        } else {
            Seq::empty()
        }
    }
}

/// The waiting blocks that remain once those that waited too long at `now`
/// are handed over.
pub open spec fn deferred_after_update(v: SchedulerView, now: u64) -> Map<BlockPos, u64> {
    Map::new(
        |p: BlockPos| v.deferred.contains_key(p) && !is_expired(v.deferred[p], now),
        |p: BlockPos| v.deferred[p],
    )
}

/// The waiting blocks that waited too long at `now`.
pub open spec fn expired_blocks(v: SchedulerView, now: u64) -> Set<BlockPos> {
    Set::new(|p: BlockPos| v.deferred.contains_key(p) && is_expired(v.deferred[p], now))
}

/// The blocks that `expired_upto` lists are distinct, and are the positions of
/// the keys of `d` among the first `i` that waited too long.
proof fn lemma_expired_upto(keys: Seq<u64>, d: Map<u64, DeferredBlock>, now: u64, i: int)
    requires
        0 <= i <= keys.len(),
        keys.no_duplicates(),
        forall|k: u64| #[trigger] d.contains_key(k) ==> pos_key(key_pos(k)) == k,
    ensures
        expired_upto(keys, d, now, i).no_duplicates(),
        forall|p: BlockPos| #[trigger] expired_upto(keys, d, now, i).contains(p) <==> (keys.take(i).contains(pos_key(p))
            && d.contains_key(pos_key(p)) && is_expired(d[pos_key(p)].time, now)),
    decreases i,
{
    if i > 0 {
        lemma_expired_upto(keys, d, now, i - 1);
        let prev = expired_upto(keys, d, now, i - 1);
        let k = keys[i - 1];
        assert(keys.take(i) =~= keys.take(i - 1).push(k));
        if d.contains_key(k) && is_expired(d[k].time, now) {
            let p = key_pos(k);
            if prev.contains(p) {
                assert(keys.take(i - 1).contains(pos_key(p)));
                let j = choose|j: int| 0 <= j < i - 1 && #[trigger] keys.take(i - 1)[j] == pos_key(p);
                assert(keys[j] == keys[i - 1]);
            }
            assert forall|q: BlockPos| #[trigger] expired_upto(keys, d, now, i).contains(q) <==> (keys.take(i).contains(pos_key(q))
                && d.contains_key(pos_key(q)) && is_expired(d[pos_key(q)].time, now)) by {
                lemma_key_roundtrip(q);
                if q != p {
                    lemma_key_injective(q, p);
                    assert(expired_upto(keys, d, now, i).contains(q) == prev.contains(q));
                }
            }
        } else {
            assert(expired_upto(keys, d, now, i) == prev);
            assert forall|q: BlockPos| #[trigger] expired_upto(keys, d, now, i).contains(q) <==> (keys.take(i).contains(pos_key(q))
                && d.contains_key(pos_key(q)) && is_expired(d[pos_key(q)].time, now)) by {
                if pos_key(q) == k {
                } else {
                    assert(keys.take(i).contains(pos_key(q)) == keys.take(i - 1).contains(pos_key(q)));
                }
            }
        }
    }
}

impl MeshScheduler {
    /// The bookkeeping agrees with the loaded blocks: every waiting block is
    /// loaded, interior, misses at least one neighbour, and its mask and
    /// count say which.
    pub closed spec fn well_formed(&self) -> bool {
        bookkeeping_ok(self.blocks_defer@, self.blocks@)
    }

    /// No block is loaded and none waits.
    pub fn new() -> (s: Self)
        ensures
            s.well_formed(),
            s@.loaded == Set::<BlockPos>::empty(),
            s@.deferred == Map::<BlockPos, u64>::empty(),
    {
        let s = MeshScheduler { blocks: HashSet::new(), blocks_defer: HashMap::new() };
        assert(s@.loaded =~= Set::<BlockPos>::empty());
        assert(s@.deferred =~= Map::<BlockPos, u64>::empty());
        s
    }
    /// Loads the block at `pos` at time `now` (in milliseconds), and returns
    /// the blocks to hand to the mesh generator, in the order in which they
    /// are to be handed over.
    pub fn add_block(&mut self, pos: BlockPos, now: u64) -> (sends: Vec<BlockPos>)
        requires
            old(self).well_formed(),
            is_interior(pos),
        ensures
            final(self).well_formed(),
            final(self)@.loaded == old(self)@.loaded.insert(pos),
            final(self)@.deferred == deferred_after_add(old(self)@, pos, now),
            sends@ == sent_after_add(old(self)@, pos),
    {
        let ghost d0 = self.blocks_defer@;
        let ghost b0 = self.blocks@;
        let kp = pos.key();
        self.blocks.insert(kp);
        let ghost b1 = self.blocks@;
        proof {
            lemma_nkeys_distinct(pos);
        }
        let mut count: u8 = 6;
        let mut mask: [bool; 6] = [false, false, false, false, false, false];
        let mut sends: Vec<BlockPos> = Vec::new();
        let mut f: usize = 0;
        while f < 6
            invariant
                0 <= f <= 6,
                is_interior(pos),
                kp == pos_key(pos),
                b1 == b0.insert(kp),
                self.blocks@ == b1,
                forall|k: u64| #[trigger] d0.contains_key(k) ==> d0[k].count >= 1,
                forall|f: int| 0 <= f < 6 ==> #[trigger] nkey(pos, f) != pos_key(pos),
                forall|f: int, g: int| 0 <= f < 6 && 0 <= g < 6 && f != g ==> #[trigger] nkey(pos, f) != #[trigger] nkey(pos, g),
                self.blocks_defer@ == defer_upto(d0, pos, f as int),
                sends@ == sends_upto(d0, b1, pos, f as int),
                forall|g: int| 0 <= g < 6 ==> #[trigger] mask@[g] == (g < f && present_c(defer_upto(d0, pos, g), b1, pos, g)),
                count == 6 - present_upto(d0, b1, pos, f as int),
                present_upto(d0, b1, pos, f as int) <= f,
            decreases 6 - f,
        {
            let npos = pos.neighbor(f);
            let nk = npos.key();
            proof {
                assert(nk == nkey(pos, f as int));
                assert forall|g: int| 0 <= g < f implies nk != #[trigger] nkey(pos, g) by {
                    assert(nkey(pos, f as int) != nkey(pos, g));
                }
                lemma_defer_upto_untouched(d0, pos, f as int, nk);
            }
            let cur: Option<DeferredBlock> = match self.blocks_defer.get(&nk) {
                Some(e) => Some(*e),
                None => None,
            };
            let mut present = false;
            match cur {
                Some(e) => {
                    let rf = opposite_face(f);
                    if !e.mask[rf] {
                        let mut inner = e;
                        inner.mask[rf] = true;
                        inner.count = inner.count - 1;
                        if inner.count == 0 {
                            sends.push(npos);
                            self.blocks_defer.remove(&nk);
                        } else {
                            self.blocks_defer.insert(nk, inner);
                        }
                    }
                    present = true;
                },
                None => {
                    if self.blocks.contains(&nk) {
                        sends.push(npos);
                        present = true;
                    }
                },
            }
            if present {
                mask[f] = true;
                count = count - 1;
            }
            f = f + 1;
        }
        proof {
            lemma_sent(d0, b0, pos, 6);
            lemma_keyed_set_insert(b0, pos);
        }
        let ghost d6 = self.blocks_defer@;
        if count == 0 {
            sends.push(pos);
        } else {
            let time = match self.blocks_defer.get(&kp) {
                Some(e) => e.time,
                None => now,
            };
            self.blocks_defer.insert(kp, DeferredBlock { count, mask, time });
        }
        proof {
            lemma_add_block_final(d0, b0, pos, now, mask, count, self.blocks_defer@);
        }
        sends
    }
    /// Hands over the blocks that have waited too long at time `now` (in
    /// milliseconds), in no particular order, and stops their waiting.
    pub fn update(&mut self, now: u64) -> (expired: Vec<BlockPos>)
        requires
            old(self).well_formed(),
        ensures
            final(self).well_formed(),
            final(self)@.loaded == old(self)@.loaded,
            final(self)@.deferred == deferred_after_update(old(self)@, now),
            expired@.no_duplicates(),
            expired@.to_set() == expired_blocks(old(self)@, now),
    {
        let ghost d0 = self.blocks_defer@;
        let ghost b0 = self.blocks@;
        let mut keys: Vec<u64> = Vec::new();
        for k in it: self.blocks_defer.keys()
            invariant
                keys@.len() == it.index(),
                forall|j: int| 0 <= j < it.index() ==> keys@[j] == *it.seq()[j],
        {
            keys.push(*k);
        }
        assert(keys@ =~= spec_keys_iter(&self.blocks_defer).remaining().unref());
        let mut expired: Vec<BlockPos> = Vec::new();
        let mut i: usize = 0;
        while i < keys.len()
            invariant
                0 <= i <= keys.len(),
                keys@.no_duplicates(),
                keys@.to_set() == d0.dom(),
                self.blocks@ == b0,
                bookkeeping_ok(d0, b0),
                forall|k: u64| #[trigger] self.blocks_defer@.contains_key(k) == (d0.contains_key(k) && !(keys@.take(i as int).contains(k)
                    && is_expired(d0[k].time, now))),
                forall|k: u64| #[trigger] self.blocks_defer@.contains_key(k) ==> self.blocks_defer@[k] == d0[k],
                expired@ == expired_upto(keys@, d0, now, i as int),
            decreases keys.len() - i,
        {
            let k = keys[i];
            proof {
                assert(keys@.take(i + 1) =~= keys@.take(i as int).push(k));
                if keys@.take(i as int).contains(k) {
                    let j = choose|j: int| 0 <= j < i && #[trigger] keys@.take(i as int)[j] == k;
                    assert(keys@[j] == keys@[i as int]);
                }
            }
            let t: Option<u64> = match self.blocks_defer.get(&k) {
                Some(e) => Some(e.time),
                None => None,
            };
            match t {
                Some(t) => {
                    if now > t && now - t >= DEFER_TIMEOUT_MS {
                        self.blocks_defer.remove(&k);
                        expired.push(BlockPos::from_key(k));
                    }
                },
                None => {},
            }
            i = i + 1;
        }
        proof {
            assert(keys@.take(keys@.len() as int) =~= keys@);
            lemma_expired_upto(keys@, d0, now, keys@.len() as int);
            assert forall|k: u64| #[trigger] self.blocks_defer@.contains_key(k) implies pos_key(key_pos(k)) == k && entry_ok(
                self.blocks@,
                key_pos(k),
                self.blocks_defer@[k],
            ) by {
                assert(d0.contains_key(k));
            }
            assert forall|k: u64| d0.contains_key(k) implies #[trigger] keys@.contains(k) by {
                assert(keys@.to_set().contains(k));
            }
            assert(self@.deferred =~= deferred_after_update(old(self)@, now));
            assert(expired@.to_set() =~= expired_blocks(old(self)@, now));
        }
        expired
    }
}

/// A block waits only while it is loaded and misses a neighbour: no block
/// whose six neighbours are all loaded is left waiting.
pub proof fn lemma_waiting_blocks_miss_a_neighbor(s: &MeshScheduler)
    requires
        s.well_formed(),
    ensures
        forall|p: BlockPos| #[trigger] s@.deferred.contains_key(p) ==> s@.loaded.contains(p) && !all_neighbors_loaded(s@.loaded, p),
{
    assert forall|p: BlockPos| #[trigger] s@.deferred.contains_key(p) implies s@.loaded.contains(p) && !all_neighbors_loaded(s@.loaded, p) by {
        let k = pos_key(p);
        lemma_key_roundtrip(p);
        assert(entry_ok(s.blocks@, p, s.blocks_defer@[k]));
        lemma_missing_zero(s@.loaded, p, 6);
    }
}

/// Every block that loading `pos` hands to the mesh generator is loaded once
/// `pos` is.
pub proof fn lemma_sent_blocks_are_loaded(v: SchedulerView, pos: BlockPos)
    ensures
        forall|i: int| 0 <= i < sent_after_add(v, pos).len() ==> v.loaded.insert(pos).contains(#[trigger] sent_after_add(v, pos)[i]),
{
    lemma_sent_neighbors_loaded(v, pos, 6);
}

proof fn lemma_sent_neighbors_loaded(v: SchedulerView, pos: BlockPos, n: int)
    ensures
        forall|i: int| 0 <= i < sent_neighbors(v, pos, n).len() ==> v.loaded.contains(#[trigger] sent_neighbors(v, pos, n)[i]),
    decreases n,
{
    if n > 0 {
        lemma_sent_neighbors_loaded(v, pos, n - 1);
        let prev = sent_neighbors(v, pos, n - 1);
        assert forall|i: int| 0 <= i < sent_neighbors(v, pos, n).len() implies v.loaded.contains(#[trigger] sent_neighbors(v, pos, n)[i]) by {
            if i < prev.len() {
                assert(sent_neighbors(v, pos, n)[i] == prev[i]);
            }
        }
    }
}

/// Loading a block whose six neighbours are all loaded hands it to the mesh
/// generator at once, as the last block, and does not leave it waiting.
pub proof fn lemma_complete_block_sent_at_once(v: SchedulerView, pos: BlockPos, now: u64)
    requires
        all_neighbors_loaded(v.loaded, pos),
        is_interior(pos),
    ensures
        sent_after_add(v, pos).last() == pos,
        !deferred_after_add(v, pos, now).contains_key(pos),
{
    assert forall|f: int| 0 <= f < 6 implies #[trigger] v.loaded.insert(pos).contains(neighbor(pos, f)) by {
        assert(v.loaded.contains(neighbor(pos, f)));
    }
}

/// The waiting blocks of `v` are loaded, not at the end of the coordinate
/// range, and miss at least one neighbour.
pub open spec fn waiting_ok(v: SchedulerView) -> bool {
    forall|p: BlockPos| #[trigger] v.deferred.contains_key(p) ==> v.loaded.contains(p) && is_interior(p) && !all_neighbors_loaded(v.loaded, p)
}

/// The scheduler after loading `pos` at `now`.
pub open spec fn after_add(v: SchedulerView, pos: BlockPos, now: u64) -> SchedulerView {
    SchedulerView { loaded: v.loaded.insert(pos), deferred: deferred_after_add(v, pos, now) }
}

/// The scheduler after handing over at `now` the blocks that waited too long.
pub open spec fn after_update(v: SchedulerView, now: u64) -> SchedulerView {
    SchedulerView { loaded: v.loaded, deferred: deferred_after_update(v, now) }
}

/// Loading a block that is not at the end of the coordinate range, and
/// handing over the blocks that waited too long, keep the waiting blocks
/// loaded and each missing a neighbour; no loaded block is ever dropped.
pub proof fn lemma_bookkeeping_kept(v: SchedulerView, pos: BlockPos, now: u64)
    requires
        waiting_ok(v),
        is_interior(pos),
    ensures
        waiting_ok(after_add(v, pos, now)),
        waiting_ok(after_update(v, now)),
        v.loaded.subset_of(after_add(v, pos, now).loaded),
        after_update(v, now).loaded == v.loaded,
{
    let a = after_add(v, pos, now);
    assert forall|p: BlockPos| #[trigger] a.deferred.contains_key(p) implies a.loaded.contains(p) && is_interior(p) && !all_neighbors_loaded(a.loaded, p) by {
        if v.deferred.contains_key(p) {
            assert(v.loaded.contains(p));
        }
    }
    let u = after_update(v, now);
    assert forall|p: BlockPos| #[trigger] u.deferred.contains_key(p) implies u.loaded.contains(p) && is_interior(p) && !all_neighbors_loaded(u.loaded, p) by {
        assert(v.deferred.contains_key(p));
    }
}

/// A well-formed scheduler's waiting blocks are as `waiting_ok` says.
pub proof fn lemma_well_formed_waiting_ok(s: &MeshScheduler)
    requires
        s.well_formed(),
    ensures
        waiting_ok(s@),
{
    assert forall|p: BlockPos| #[trigger] s@.deferred.contains_key(p) implies s@.loaded.contains(p) && is_interior(p) && !all_neighbors_loaded(s@.loaded, p) by {
        lemma_waiting_blocks_miss_a_neighbor(s);
        lemma_key_roundtrip(p);
        assert(entry_ok(s.blocks@, p, s.blocks_defer@[pos_key(p)]));
    }
}

/// Once `update` ran at `now`, no block that started waiting the timeout or
/// longer before `now` still waits.
pub proof fn lemma_no_block_waits_past_timeout(v: SchedulerView, now: u64)
    ensures
        forall|p: BlockPos| #[trigger] deferred_after_update(v, now).contains_key(p) ==> !is_expired(deferred_after_update(v, now)[p], now),
{
}

} // verus!
