//! What the push search finds: solutions by walks and pushes worth trying, the states it
//! meets depth by depth, and the facts that make it miss no such solution and keep the
//! shortest.
use vstd::prelude::*;
use crate::level::{LevelView, SpLevel, bitmap_bit, lemma_bitmaps_equal};
use crate::vector::{Move, PathTrait};
use crate::pathnodemap::{PathMap, PathNodeMap, PathNode, KeyMove, human_cell, walk_end, solve_key, pushed, plays,
    flooded, made_all, fitting, trace, keys_upto, node_keys, lemma_flood_complete, lemma_ways_shortest,
    is_base_level, fits_base, push_made, lemma_keys_valid};
use crate::solve::{starts, solve_base, same_st, pushes_of, shorter, seen_moves, unseen, beats_seen, covered, st_sorted,
    st_less, reached, all_reached, solvable_input};
use crate::pathnodemap::{plays_pushing, push_flags, count_true, moved_human, play_step, push_ok, lemma_walk_plays,
    lemma_plays_none, lemma_plays_push, lemma_plays_concat};
use crate::solve::solves;
use crate::level::{in_bounds, cell_index};

verus! {

/// One step of a solution by key moves: from `s` the human walks `w`, then makes a push
/// worth trying in direction `m`, which leads to `r`.
pub open spec fn key_step(s: SpLevel, b: LevelView, w: Seq<Move>, m: Move, r: SpLevel) -> bool {
    let p = walk_end(s, b, human_cell(s), w);
    &&& p is Some
    &&& solve_key(s, b, p->0, m)
    &&& pushed(s, p->0, m, r)
}

/// The moves of the walks `ws` and pushes `ds`, step after step.
pub open spec fn key_moves(ws: Seq<Seq<Move>>, ds: Seq<Move>) -> Seq<Move>
    decreases ws.len(),
{
    if ws.len() == 0 || ds.len() == 0 {
        Seq::empty()
    } else {
        key_moves(ws.drop_last(), ds.drop_last()) + ws.last().push(ds.last())
    }
}

/// `sts` are the states met by the walks `ws` and pushes `ds`, each pair a key step.
pub open spec fn key_chain(sts: Seq<SpLevel>, b: LevelView, ws: Seq<Seq<Move>>, ds: Seq<Move>) -> bool {
    &&& sts.len() == ws.len() + 1
    &&& ds.len() == ws.len()
    &&& forall|i: int| 0 <= i < ws.len() ==> key_step(#[trigger] sts[i], b, ws[i], ds[i], sts[i + 1])
}

/// The moves `ms` solve the level `v` by key moves: walks of the human, each followed by a
/// push worth trying (none onto a cell where no box may stand, none jamming two boxes),
/// ending with the boxes exactly on the holes.
pub open spec fn key_solves(v: LevelView, ms: Seq<Move>) -> bool {
    exists|sts: Seq<SpLevel>, ws: Seq<Seq<Move>>, ds: Seq<Move>| #[trigger] key_chain(sts, solve_base(v), ws, ds)
        && starts(v, sts[0]) && sts.last().blocks() == v.win_data && ms == key_moves(ws, ds)
}

/// `s` is reached from the start of `v` by at most `n` moves of the game.
pub open spec fn reachable_within(v: LevelView, s: SpLevel, n: int) -> bool {
    exists|s0: SpLevel, ms: Seq<Move>| starts(v, s0) && #[trigger] plays(s0, solve_base(v), ms, s) && ms.len() <= n
}

/// More than `k` different states (human and boxes) are reached from the start of `v` by
/// at most `n` moves.
pub open spec fn many_states(v: LevelView, n: int, k: int) -> bool {
    exists|sts: Seq<SpLevel>| #[trigger] distinct_reached(v, sts, n, k)
}

/// `sts` are more than `k` different states (human and boxes), each reached from the start
/// of `v` by at most `n` moves.
pub open spec fn distinct_reached(v: LevelView, sts: Seq<SpLevel>, n: int, k: int) -> bool {
    &&& k < sts.len()
    &&& forall|i: int, j: int| 0 <= i < j < sts.len() ==> !same_st(#[trigger] sts[i], #[trigger] sts[j])
    &&& forall|i: int| 0 <= i < sts.len() ==> reachable_within(v, #[trigger] sts[i], n)
}

/// A search of `v` for at most `n` moves never holds more than `max_maps` states at a
/// depth: at least 2^20 are allowed (the first two depths, which are not sorted out, hold
/// no more), and at most `max_maps` different states are reached by `n` moves.
pub open spec fn within_limit(v: LevelView, n: int, max_maps: int) -> bool {
    0x100000 <= max_maps && !many_states(v, n, max_maps)
}

/// The map's path store holds its moves and has room for as many more as make 256.
pub open spec fn room_ok(m: PathMap) -> bool {
    &&& m.path.path().len() <= 256
    &&& forall|k: int| k >= 0 ==> (#[trigger] m.path.fits(k) <==> m.path.path().len() + k <= 256)
}

/// Every map of the list has the room of `room_ok`.
pub open spec fn all_room(maps: Seq<PathMap>) -> bool {
    forall|t: int| 0 <= t < maps.len() ==> room_ok(#[trigger] maps[t])
}

/// Some map of the list has the state `r` (human and boxes), reached in at most `c` moves.
pub open spec fn covers_state(maps: Seq<PathMap>, r: SpLevel, c: int) -> bool {
    exists|k: int| 0 <= k < maps.len() && same_st(#[trigger] maps[k].level, r) && maps[k].path.path().len() <= c
}

/// The moves of the map followed by the walk `w` and a push.
pub open spec fn step_cost(m: PathMap, w: Seq<Move>) -> int {
    m.path.path().len() + w.len() + 1int
}

/// Every key step from a map of `src` that ends in fewer than `mm` moves (and at most 256)
/// leads to a state that `maps` hold in at most as many moves.
pub open spec fn succ_covered(src: Seq<PathMap>, b: LevelView, maps: Seq<PathMap>, mm: int) -> bool {
    forall|j: int, w: Seq<Move>, d: Move, r: SpLevel| 0 <= j < src.len() && #[trigger] key_step(src[j].level, b, w, d, r)
        && step_cost(src[j], w) < mm && step_cost(src[j], w) <= 256
        ==> covers_state(maps, r, step_cost(src[j], w))
}

/// Some layer up to `k` holds the state `s` reached in at most `c` moves.
pub open spec fn in_layers(layers: Seq<Seq<PathMap>>, k: int, s: SpLevel, c: int) -> bool {
    exists|d: int, t: int| 0 <= d <= k && d < layers.len() && 0 <= t < layers[d].len()
        && same_st(#[trigger] layers[d][t].level, s) && layers[d][t].path.path().len() <= c
}

/// Every key step from a map of a layer below `n` that ends in fewer than `mm` moves (and
/// at most 256) leads to a state held by the next layer or an earlier one in at most as
/// many moves.
#[verifier::opaque]
pub open spec fn closed_below(layers: Seq<Seq<PathMap>>, n: int, b: LevelView, mm: int) -> bool {
    forall|d: int, t: int, w: Seq<Move>, m: Move, r: SpLevel|
        0 <= d < n && d < layers.len() && 0 <= t < layers[d].len()
        && #[trigger] key_step(layers[d][t].level, b, w, m, r)
        && step_cost(layers[d][t], w) < mm && step_cost(layers[d][t], w) <= 256
        ==> in_layers(layers, d + 1, r, step_cost(layers[d][t], w))
}

/// No map of the layers below `n` has the boxes on the holes in fewer than `mm` moves.
#[verifier::opaque]
pub open spec fn wins_counted(layers: Seq<Seq<PathMap>>, n: int, b: LevelView, mm: int) -> bool {
    forall|d: int, t: int| 0 <= d < n && d < layers.len() && 0 <= t < layers[d].len()
        && (#[trigger] layers[d][t]).level.blocks() == b.win_data ==> mm <= layers[d][t].path.path().len()
}

/// Every map of layer `d` fits the base level and has at least `d` moves.
#[verifier::opaque]
pub open spec fn layers_fit(layers: Seq<Seq<PathMap>>, b: LevelView) -> bool {
    forall|d: int, t: int| 0 <= d < layers.len() && 0 <= t < layers[d].len()
        ==> d <= (#[trigger] layers[d][t]).path.path().len() && fits_base(layers[d][t].level, b)
}

/// Two states of the same size with the same human and boxes are the same state.
pub proof fn lemma_level_eq(a: SpLevel, c: SpLevel)
    requires
        a.w == c.w,
        a.h == c.h,
        same_st(a, c),
    ensures
        a == c,
{
    broadcast use vstd::array::group_array_axioms;
    assert(a.cmp_data.blocks =~= c.cmp_data.blocks) by {
        assert forall|i: int| 0 <= i < 4 implies a.cmp_data.blocks[i] == c.cmp_data.blocks[i] by {
            assert(a.blocks()[i] == c.blocks()[i]);
        }
    }
}

/// Two states pushed the same way from one state have the same human and boxes.
proof fn lemma_pushed_same(s: SpLevel, p: crate::vector::Vector, m: Move, r1: SpLevel, r2: SpLevel)
    requires
        pushed(s, p, m, r1),
        pushed(s, p, m, r2),
    ensures
        same_st(r1, r2),
        r1.w == r2.w,
        r1.h == r2.h,
{
    assert forall|i: int| 0 <= i < 256 implies #[trigger] bitmap_bit(r1.blocks(), i) == bitmap_bit(r2.blocks(), i) by {}
    lemma_bitmaps_equal(r1.blocks(), r2.blocks());
}

/// A key move whose new path fits is one of the fitting key moves.
proof fn lemma_fitting_has(pm: PathMap, nodes: Seq<PathNode>, keys: Seq<KeyMove>, t: int)
    requires
        0 <= t < keys.len(),
        pm.path.fits(trace(nodes, keys[t].pni as int).len() + 1int),
    ensures
        exists|u: int| 0 <= u < fitting(pm, nodes, keys).len() && #[trigger] fitting(pm, nodes, keys)[u] == keys[t],
    decreases keys.len(),
{
    let rest = fitting(pm, nodes, keys.drop_last());
    if t == keys.len() - 1 {
        assert(fitting(pm, nodes, keys) == rest.push(keys.last()));
        assert(fitting(pm, nodes, keys)[rest.len() as int] == keys[t]);
    } else {
        lemma_fitting_has(pm, nodes, keys.drop_last(), t);
        let u = choose|u: int| 0 <= u < rest.len() && #[trigger] rest[u] == keys.drop_last()[t];
        assert(fitting(pm, nodes, keys)[u] == rest[u]);
    }
}

/// The new path of every fitting key move fits.
proof fn lemma_fitting_fits(pm: PathMap, nodes: Seq<PathNode>, keys: Seq<KeyMove>, u: int)
    requires
        0 <= u < fitting(pm, nodes, keys).len(),
    ensures
        pm.path.fits(trace(nodes, fitting(pm, nodes, keys)[u].pni as int).len() + 1int),
        fitting(pm, nodes, keys).len() <= keys.len(),
    decreases keys.len(),
{
    let rest = fitting(pm, nodes, keys.drop_last());
    if u < rest.len() {
        lemma_fitting_fits(pm, nodes, keys.drop_last(), u);
        assert(fitting(pm, nodes, keys)[u] == rest[u]);
    } else if rest.len() > 0 {
        lemma_fitting_fits(pm, nodes, keys.drop_last(), 0);
    } else {
        lemma_fitting_len(pm, nodes, keys.drop_last());
    }
}

/// No more fitting key moves than key moves.
proof fn lemma_fitting_len(pm: PathMap, nodes: Seq<PathNode>, keys: Seq<KeyMove>)
    ensures
        fitting(pm, nodes, keys).len() <= keys.len(),
    decreases keys.len(),
{
    if keys.len() > 0 {
        lemma_fitting_len(pm, nodes, keys.drop_last());
    }
}

/// At most one key move a direction tried.
proof fn lemma_node_keys_len(s: SpLevel, b: LevelView, p: crate::vector::Vector, j: int, pulls: bool, k: int)
    requires
        k >= 0,
    ensures
        node_keys(s, b, p, j, pulls, k).len() <= k,
    decreases k,
{
    if k > 0 {
        lemma_node_keys_len(s, b, p, j, pulls, k - 1);
    }
}

/// At most four key moves a node.
proof fn lemma_keys_upto_len(s: SpLevel, b: LevelView, nodes: Seq<PathNode>, n: int, pulls: bool)
    requires
        n >= 0,
    ensures
        keys_upto(s, b, nodes, n, pulls).len() <= 4 * n,
    decreases n,
{
    if n > 0 {
        lemma_keys_upto_len(s, b, nodes, n - 1, pulls);
        lemma_node_keys_len(s, b, nodes[n - 1].pt, n - 1, pulls, 4);
    }
}

/// What the pushes of a map give: at most 1024 new maps, each with its room, and for every
/// key step from the map whose moves fit, a new map of its state in at most as many moves.
pub proof fn lemma_chunk_facts(b: LevelView, m: PathMap, chunk: Seq<PathMap>)
    requires
        is_base_level(b),
        fits_base(m.level, b),
        room_ok(m),
        pushes_of(b, m, chunk),
    ensures
        chunk.len() <= 1024,
        all_room(chunk),
        forall|w: Seq<Move>, d: Move, r: SpLevel| #[trigger] key_step(m.level, b, w, d, r) && step_cost(m, w) <= 256
            ==> covers_state(chunk, r, step_cost(m, w)),
{
    reveal(pushes_of);
    let pnm = choose|pnm: PathNodeMap| flooded(m.level, b, pnm, false) && #[trigger] made_all(m, pnm, chunk, false, m.depth);
    let nodes = pnm.nodes@;
    let keys = pnm.key_moves@;
    let fit = fitting(m, nodes, keys);
    lemma_keys_upto_len(m.level, b, nodes, nodes.len() as int, false);
    lemma_fitting_len(m, nodes, keys);
    assert forall|u: int| 0 <= u < chunk.len() implies room_ok(#[trigger] chunk[u]) by {
        lemma_fitting_fits(m, nodes, keys, u);
        let tr: int = trace(nodes, fit[u].pni as int).len() as int;
        assert(push_made(m, nodes, fit[u], chunk[u]));
        assert(m.path.fits(tr + 1));
        assert forall|k: int| k >= 0 implies (#[trigger] chunk[u].path.fits(k) <==> chunk[u].path.path().len() + k <= 256) by {
            assert(chunk[u].path.fits(k) <==> m.path.fits(k + tr + 1));
            assert(m.path.fits(k + tr + 1) <==> m.path.path().len() + (k + tr + 1) <= 256);
        }
    }
    assert forall|w: Seq<Move>, d: Move, r: SpLevel| #[trigger] key_step(m.level, b, w, d, r) && step_cost(m, w) <= 256
        implies covers_state(chunk, r, step_cost(m, w)) by {
        let s = m.level;
        let p = walk_end(s, b, human_cell(s), w)->0;
        lemma_flood_complete(s, b, pnm, false, w, d);
        let t = choose|t: int| 0 <= t < keys.len()
            && nodes[(#[trigger] keys[t]).pni as int].pt == p && keys[t].move_dir == d;
        lemma_keys_valid(s, b, nodes, nodes.len() as int, false, t);
        let j = keys[t].pni as int;
        lemma_ways_shortest(s, b, pnm, false, w, j);
        let tr: int = trace(nodes, j).len() as int;
        assert(m.path.fits(tr + 1));
        lemma_fitting_has(m, nodes, keys, t);
        let u = choose|u: int| 0 <= u < fit.len() && #[trigger] fit[u] == keys[t];
        assert(push_made(m, nodes, fit[u], chunk[u]));
        lemma_pushed_same(s, p, d, chunk[u].level, r);
        assert(same_st(chunk[u].level, r));
        assert(chunk[u].path.path().len() <= step_cost(m, w));
    }
}

/// A map of the chunk made in fewer than `max` moves is kept by `shorter`.
pub proof fn lemma_shorter_has(c: Seq<PathMap>, max: int, u: int)
    requires
        0 <= u < c.len(),
        c[u].path.path().len() < max,
    ensures
        exists|k: int| 0 <= k < shorter(c, max).len() && #[trigger] shorter(c, max)[k] == c[u],
    decreases c.len(),
{
    let rest = shorter(c.drop_last(), max);
    if u == c.len() - 1 {
        assert(shorter(c, max)[rest.len() as int] == c[u]);
    } else {
        lemma_shorter_has(c.drop_last(), max, u);
        let k = choose|k: int| 0 <= k < rest.len() && #[trigger] rest[k] == c.drop_last()[u];
        assert(shorter(c, max)[k] == rest[k]);
    }
}

/// `shorter` keeps no more maps than it is given.
pub proof fn lemma_shorter_len(c: Seq<PathMap>, max: int)
    ensures
        shorter(c, max).len() <= c.len(),
    decreases c.len(),
{
    if c.len() > 0 {
        lemma_shorter_len(c.drop_last(), max);
    }
}

/// Appending the maps of a chunk made from `m` in fewer than `mm` moves: the successors of
/// `m` are covered too, every map keeps its room, and at most 1024 maps were added.
pub proof fn lemma_append_covered(b: LevelView, src: Seq<PathMap>, m: PathMap, before: Seq<PathMap>, chunk: Seq<PathMap>,
    maps: Seq<PathMap>, mm: int, i: int)
    requires
        succ_covered(src, b, before, mm),
        maps == before + shorter(chunk, mm),
        forall|w: Seq<Move>, d: Move, r: SpLevel| #[trigger] key_step(m.level, b, w, d, r) && step_cost(m, w) <= 256
            ==> covers_state(chunk, r, step_cost(m, w)),
        all_room(before),
        all_room(chunk),
        chunk.len() <= 1024,
        before.len() <= 1024 * i,
        forall|t: int| 0 <= t < shorter(chunk, mm).len() ==> chunk.contains(#[trigger] shorter(chunk, mm)[t]),
    ensures
        succ_covered(src.push(m), b, maps, mm),
        all_room(maps),
        maps.len() <= 1024 * (i + 1),
{
    let sh = shorter(chunk, mm);
    lemma_shorter_len(chunk, mm);
    assert(maps.len() <= 1024 * (i + 1)) by (nonlinear_arith)
        requires maps.len() == before.len() + sh.len(), before.len() <= 1024 * i, sh.len() <= chunk.len(), chunk.len() <= 1024;
    assert forall|t: int| 0 <= t < maps.len() implies room_ok(#[trigger] maps[t]) by {
        if t < before.len() {
            assert(maps[t] == before[t]);
        } else {
            assert(maps[t] == sh[t - before.len()]);
            assert(chunk.contains(sh[t - before.len()]));
            let u = choose|u: int| 0 <= u < chunk.len() && chunk[u] == sh[t - before.len()];
            assert(room_ok(chunk[u]));
        }
    }
    let nsrc = src.push(m);
    assert forall|j: int, w: Seq<Move>, dd: Move, r: SpLevel| 0 <= j < nsrc.len() && #[trigger] key_step(nsrc[j].level, b, w, dd, r)
        && step_cost(nsrc[j], w) < mm && step_cost(nsrc[j], w) <= 256
        implies covers_state(maps, r, step_cost(nsrc[j], w)) by {
        if j < src.len() {
            assert(nsrc[j] == src[j]);
            assert(key_step(src[j].level, b, w, dd, r));
            assert(covers_state(before, r, step_cost(src[j], w)));
            let k = choose|k: int| 0 <= k < before.len() && same_st(#[trigger] before[k].level, r)
                && before[k].path.path().len() <= step_cost(src[j], w);
            assert(maps[k] == before[k]);
        } else {
            assert(nsrc[j] == m);
            assert(covers_state(chunk, r, step_cost(m, w)));
            let u = choose|u: int| 0 <= u < chunk.len() && same_st(#[trigger] chunk[u].level, r)
                && chunk[u].path.path().len() <= step_cost(m, w);
            lemma_shorter_has(chunk, mm, u);
            let k = choose|k: int| 0 <= k < sh.len() && #[trigger] sh[k] == chunk[u];
            assert(maps[before.len() + k] == sh[k]);
        }
    }
}

/// The states met in the layers keep their place when a layer is added.
pub proof fn lemma_in_layers_ext(layers: Seq<Seq<PathMap>>, x: Seq<PathMap>, k: int, k2: int, s: SpLevel, c: int, c2: int)
    requires
        in_layers(layers, k, s, c),
        k <= k2,
        c <= c2,
    ensures
        in_layers(layers.push(x), k2, s, c2),
        in_layers(layers, k2, s, c2),
{
    let (d, t) = choose|d: int, t: int| 0 <= d <= k && d < layers.len() && 0 <= t < layers[d].len()
        && same_st(#[trigger] layers[d][t].level, s) && layers[d][t].path.path().len() <= c;
    assert(layers.push(x)[d] == layers[d]);
    assert(same_st(layers.push(x)[d][t].level, s));
}

/// A map of the list either stays in `unseen` or its state was seen in at most as many moves.
proof fn lemma_unseen_split(maps: Seq<PathMap>, seen: Seq<(SpLevel, u16)>, i: int)
    requires
        0 <= i < maps.len(),
    ensures
        (exists|k: int| 0 <= k < unseen(maps, seen).len() && #[trigger] unseen(maps, seen)[k] == maps[i])
            || !beats_seen(seen, maps[i]),
    decreases maps.len(),
{
    let rest = unseen(maps.drop_last(), seen);
    if i == maps.len() - 1 {
        if beats_seen(seen, maps.last()) {
            assert(unseen(maps, seen)[rest.len() as int] == maps[i]);
        }
    } else {
        lemma_unseen_split(maps.drop_last(), seen, i);
        if beats_seen(seen, maps[i]) {
            let k = choose|k: int| 0 <= k < rest.len() && #[trigger] rest[k] == maps.drop_last()[i];
            assert(unseen(maps, seen)[k] == rest[k]);
        }
    }
}

/// `unseen` keeps no more maps than it is given, and keeps the order of sorted maps.
pub proof fn lemma_unseen_sorted(maps: Seq<PathMap>, seen: Seq<(SpLevel, u16)>)
    ensures
        unseen(maps, seen).len() <= maps.len(),
        forall|k: int| 0 <= k < unseen(maps, seen).len() ==>
            exists|j: int| 0 <= j < maps.len() && #[trigger] unseen(maps, seen)[k] == maps[j],
        st_sorted(maps) ==> st_sorted(unseen(maps, seen)),
    decreases maps.len(),
{
    if maps.len() > 0 {
        let rest = unseen(maps.drop_last(), seen);
        lemma_unseen_sorted(maps.drop_last(), seen);
        let u = unseen(maps, seen);
        assert forall|k: int| 0 <= k < u.len() implies exists|j: int| 0 <= j < maps.len() && #[trigger] u[k] == maps[j] by {
            if k < rest.len() {
                let j = choose|j: int| 0 <= j < maps.drop_last().len() && #[trigger] rest[k] == maps.drop_last()[j];
                assert(u[k] == maps[j]);
            } else {
                assert(u[k] == maps[maps.len() - 1]);
            }
        }
        if st_sorted(maps) {
            assert(st_sorted(maps.drop_last()));
            assert forall|k: int, l: int| 0 <= k < l < u.len() implies st_less((#[trigger] u[k]).level, (#[trigger] u[l]).level) by {
                if l < rest.len() {
                    assert(u[k] == rest[k] && u[l] == rest[l]);
                } else {
                    assert(u[k] == rest[k]);
                    let j = choose|j: int| 0 <= j < maps.drop_last().len() && #[trigger] rest[k] == maps.drop_last()[j];
                    assert(u[l] == maps[maps.len() - 1]);
                    assert(st_less(maps[j].level, maps[maps.len() - 1].level));
                }
            }
        }
    }
}

/// What the seen states stand for: each was met in a layer up to `k` in as many moves.
#[verifier::opaque]
pub open spec fn seen_ok(seen: Seq<(SpLevel, u16)>, layers: Seq<Seq<PathMap>>, k: int) -> bool {
    forall|s: SpLevel| #[trigger] seen_moves(seen, s) matches Some(v) ==> in_layers(layers, k, s, v as int)
}

/// The new layer `kept`, made from the last layer by its successors (`maps`), sorted out
/// to `mid` and rid of states seen in as few moves, holds (with the layers before it)
/// every key step from the last layer.
pub proof fn lemma_new_layer(layers: Seq<Seq<PathMap>>, b: LevelView, maps: Seq<PathMap>, mid: Seq<PathMap>,
    kept: Seq<PathMap>, seen: Seq<(SpLevel, u16)>, mm: int, depth: int)
    requires
        layers.len() == depth + 1,
        succ_covered(layers[depth], b, maps, mm),
        forall|i: int| 0 <= i < maps.len() ==> covered(mid, #[trigger] maps[i]),
        kept == unseen(mid, seen),
        seen_ok(seen, layers, depth),
    ensures
        forall|t: int, w: Seq<Move>, m: Move, r: SpLevel| 0 <= t < layers[depth].len()
            && #[trigger] key_step(layers[depth][t].level, b, w, m, r)
            && step_cost(layers[depth][t], w) < mm && step_cost(layers[depth][t], w) <= 256
            ==> in_layers(layers.push(kept), depth + 1, r, step_cost(layers[depth][t], w)),
{
    reveal(seen_ok);
    let nl = layers.push(kept);
    assert forall|t: int, w: Seq<Move>, m: Move, r: SpLevel| 0 <= t < layers[depth].len()
        && #[trigger] key_step(layers[depth][t].level, b, w, m, r)
        && step_cost(layers[depth][t], w) < mm && step_cost(layers[depth][t], w) <= 256
        implies in_layers(nl, depth + 1, r, step_cost(layers[depth][t], w)) by {
        let c = step_cost(layers[depth][t], w);
        assert(covers_state(maps, r, c));
        let k = choose|k: int| 0 <= k < maps.len() && same_st(#[trigger] maps[k].level, r) && maps[k].path.path().len() <= c;
        assert(covered(mid, maps[k]));
        let k2 = choose|k2: int| 0 <= k2 < mid.len() && same_st(maps[k].level, #[trigger] mid[k2].level)
            && mid[k2].path.path().len() <= maps[k].path.path().len();
        lemma_unseen_split(mid, seen, k2);
        if exists|k3: int| 0 <= k3 < kept.len() && #[trigger] kept[k3] == mid[k2] {
            let k3 = choose|k3: int| 0 <= k3 < kept.len() && #[trigger] kept[k3] == mid[k2];
            assert(nl[depth + 1] == kept);
            assert(same_st(nl[depth + 1][k3].level, r));
        } else {
            let v = seen_moves(seen, mid[k2].level)->0;
            assert(seen_moves(seen, mid[k2].level) matches Some(v));
            assert(in_layers(layers, depth, mid[k2].level, v as int));
            let (d, t2) = choose|d: int, t2: int| 0 <= d <= depth && d < layers.len() && 0 <= t2 < layers[d].len()
                && same_st(#[trigger] layers[d][t2].level, mid[k2].level) && layers[d][t2].path.path().len() <= v;
            assert(nl[d] == layers[d]);
            assert(same_st(nl[d][t2].level, r));
        }
    }
}

/// Adding the new layer keeps every layer closed, the last one too.
pub proof fn lemma_close_layer(layers: Seq<Seq<PathMap>>, b: LevelView, kept: Seq<PathMap>, mm: int, depth: int)
    requires
        layers.len() == depth + 1,
        closed_below(layers, depth, b, mm),
        forall|t: int, w: Seq<Move>, m: Move, r: SpLevel| 0 <= t < layers[depth].len()
            && #[trigger] key_step(layers[depth][t].level, b, w, m, r)
            && step_cost(layers[depth][t], w) < mm && step_cost(layers[depth][t], w) <= 256
            ==> in_layers(layers.push(kept), depth + 1, r, step_cost(layers[depth][t], w)),
    ensures
        closed_below(layers.push(kept), depth + 1, b, mm),
{
    reveal(closed_below);
    let nl = layers.push(kept);
    assert forall|d: int, t: int, w: Seq<Move>, m: Move, r: SpLevel|
        0 <= d < depth + 1 && d < nl.len() && 0 <= t < nl[d].len()
        && #[trigger] key_step(nl[d][t].level, b, w, m, r)
        && step_cost(nl[d][t], w) < mm && step_cost(nl[d][t], w) <= 256
        implies in_layers(nl, d + 1, r, step_cost(nl[d][t], w)) by {
        assert(nl[d] == layers[d]);
        if d < depth {
            assert(key_step(layers[d][t].level, b, w, m, r));
            lemma_in_layers_ext(layers, kept, d + 1, d + 1, r, step_cost(layers[d][t], w), step_cost(layers[d][t], w));
        }
    }
}

/// No more pushes than moves.
proof fn lemma_count_true_le(f: Seq<bool>)
    ensures
        count_true(f) <= f.len(),
    decreases f.len(),
{
    if f.len() > 0 {
        lemma_count_true_le(f.drop_last());
    }
}

/// A play that pushes `n` times has at least `n` moves.
pub proof fn lemma_pushes_le_moves(s: SpLevel, b: LevelView, ms: Seq<Move>, r: SpLevel, n: nat)
    requires
        plays_pushing(s, b, ms, r, n),
    ensures
        n <= ms.len(),
{
    let states = choose|states: Seq<SpLevel>| #[trigger] crate::pathnodemap::play_chain(states, s, b, ms, r)
        && count_true(push_flags(states, ms)) == n;
    lemma_count_true_le(push_flags(states, ms));
}

/// More than `max_maps` different states of a sorted layer, each reached in at most `n`
/// moves, are many states.
pub proof fn lemma_many(v: LevelView, start: SpLevel, kept: Seq<PathMap>, n: int, max_maps: int)
    requires
        starts(v, start),
        all_reached(start, solve_base(v), kept),
        st_sorted(kept),
        forall|t: int| 0 <= t < kept.len() ==> (#[trigger] kept[t]).path.path().len() <= n,
        kept.len() > max_maps,
    ensures
        many_states(v, n, max_maps),
{
    let sts = Seq::new(kept.len(), |i: int| kept[i].level);
    assert forall|i: int, j: int| 0 <= i < j < sts.len() implies !same_st(#[trigger] sts[i], #[trigger] sts[j]) by {
        assert(st_less(kept[i].level, kept[j].level));
        if same_st(kept[i].level, kept[j].level) {
            crate::solve::lemma_st_same_not_less(kept[i].level, kept[j].level);
        }
    }
    assert forall|i: int| 0 <= i < sts.len() implies reachable_within(v, #[trigger] sts[i], n) by {
        assert(reached(start, solve_base(v), kept[i]));
        assert(plays(start, solve_base(v), kept[i].path.path(), sts[i]));
    }
    assert(distinct_reached(v, sts, n, max_maps));
}

/// Two start states of a level have the same size, human and boxes.
proof fn lemma_starts_same(v: LevelView, a: SpLevel, c: SpLevel)
    requires
        starts(v, a),
        starts(v, c),
    ensures
        a == c,
{
    assert forall|i: int| 0 <= i < 256 implies #[trigger] bitmap_bit(a.blocks(), i) == bitmap_bit(c.blocks(), i) by {}
    lemma_bitmaps_equal(a.blocks(), c.blocks());
    lemma_level_eq(a, c);
}

/// The moves of the first `i + 1` key steps: those of the first `i`, the walk and the push.
proof fn lemma_key_cost_step(ws: Seq<Seq<Move>>, ds: Seq<Move>, i: int)
    requires
        0 <= i < ws.len(),
        ds.len() == ws.len(),
    ensures
        key_moves(ws.take(i + 1), ds.take(i + 1)).len() == key_moves(ws.take(i), ds.take(i)).len() + ws[i].len() + 1,
{
    assert(ws.take(i + 1).drop_last() =~= ws.take(i));
    assert(ds.take(i + 1).drop_last() =~= ds.take(i));
}

/// The moves of the first key steps are no more than those of all of them.
proof fn lemma_key_cost_le(ws: Seq<Seq<Move>>, ds: Seq<Move>, i: int)
    requires
        0 <= i <= ws.len(),
        ds.len() == ws.len(),
    ensures
        key_moves(ws.take(i), ds.take(i)).len() <= key_moves(ws, ds).len(),
    decreases ws.len() - i,
{
    if i == ws.len() {
        assert(ws.take(i) =~= ws);
        assert(ds.take(i) =~= ds);
    } else {
        lemma_key_cost_step(ws, ds, i);
        lemma_key_cost_le(ws, ds, i + 1);
    }
}

/// The state after the first `i` key steps, reached in their moves, is held by a layer up
/// to `i`, when those moves are fewer than `mm`.
proof fn lemma_prefix_in_layers(layers: Seq<Seq<PathMap>>, b: LevelView, nc: int, mm: int,
    sts: Seq<SpLevel>, ws: Seq<Seq<Move>>, ds: Seq<Move>, i: int)
    requires
        layers.len() >= 1,
        layers[0].len() >= 1,
        layers[0][0].path.path().len() == 0,
        layers[0][0].level == sts[0],
        layers_fit(layers, b),
        closed_below(layers, nc, b, mm),
        nc >= layers.len() || nc >= mm,
        key_chain(sts, b, ws, ds),
        forall|j: int| 0 <= j < sts.len() ==> (#[trigger] sts[j]).w == b.w && sts[j].h == b.h,
        key_moves(ws, ds).len() < mm,
        key_moves(ws, ds).len() <= 256,
        0 <= i <= ws.len(),
    ensures
        in_layers(layers, i, sts[i], key_moves(ws.take(i), ds.take(i)).len() as int),
    decreases i,
{
    reveal(closed_below);
    reveal(layers_fit);
    if i == 0 {
        assert(ws.take(0) =~= Seq::<Seq<Move>>::empty());
        assert(same_st(layers[0][0].level, sts[0]));
    } else {
        let j = i - 1;
        lemma_prefix_in_layers(layers, b, nc, mm, sts, ws, ds, j);
        lemma_key_cost_step(ws, ds, j);
        lemma_key_cost_le(ws, ds, i);
        let cj = key_moves(ws.take(j), ds.take(j)).len() as int;
        let (d, t) = choose|d: int, t: int| 0 <= d <= j && d < layers.len() && 0 <= t < layers[d].len()
            && same_st(#[trigger] layers[d][t].level, sts[j]) && layers[d][t].path.path().len() <= cj;
        let lm = layers[d][t];
        assert(d <= lm.path.path().len() && fits_base(lm.level, b));
        assert(sts[j].w == b.w && sts[j].h == b.h);
        lemma_level_eq(lm.level, sts[j]);
        assert(key_step(sts[j], b, ws[j], ds[j], sts[j + 1]));
        assert(key_step(lm.level, b, ws[j], ds[j], sts[i]));
        assert(step_cost(lm, ws[j]) <= key_moves(ws.take(i), ds.take(i)).len());
        assert(d < nc);
        assert(in_layers(layers, d + 1, sts[i], step_cost(lm, ws[j])));
        lemma_in_layers_ext(layers, Seq::empty(), d + 1, i, sts[i], step_cost(lm, ws[j]),
            key_moves(ws.take(i), ds.take(i)).len() as int);
    }
}

/// The states of a key chain from a start state have the size of the base level.
proof fn lemma_chain_sizes(v: LevelView, sts: Seq<SpLevel>, ws: Seq<Seq<Move>>, ds: Seq<Move>, i: int)
    requires
        solvable_input(v),
        key_chain(sts, solve_base(v), ws, ds),
        starts(v, sts[0]),
        0 <= i < sts.len(),
    ensures
        sts[i].w == solve_base(v).w,
        sts[i].h == solve_base(v).h,
    decreases i,
{
    if i > 0 {
        lemma_chain_sizes(v, sts, ws, ds, i - 1);
        assert(key_step(sts[i - 1], solve_base(v), ws[i - 1], ds[i - 1], sts[i]));
    }
}

/// The search misses no solution by key moves: when every layer is closed (up to where the
/// moves run out) and no winning map of the layers has fewer than `mm` moves, every such
/// solution of at most 256 moves has at least `mm` moves.
pub proof fn lemma_search_complete(v: LevelView, layers: Seq<Seq<PathMap>>, nc: int, nw: int, mm: int, ms: Seq<Move>)
    requires
        solvable_input(v),
        layers.len() >= 1,
        layers[0].len() >= 1,
        layers[0][0].path.path().len() == 0,
        starts(v, layers[0][0].level),
        layers_fit(layers, solve_base(v)),
        closed_below(layers, nc, solve_base(v), mm),
        nc >= layers.len() || nc >= mm,
        wins_counted(layers, nw, solve_base(v), mm),
        nw >= layers.len() || nw >= mm,
        solve_base(v).win_data == v.win_data,
        key_solves(v, ms),
        ms.len() <= 256,
    ensures
        mm <= ms.len(),
{
    reveal(layers_fit);
    reveal(wins_counted);
    let b = solve_base(v);
    let (sts, ws, ds) = choose|sts: Seq<SpLevel>, ws: Seq<Seq<Move>>, ds: Seq<Move>| #[trigger] key_chain(sts, solve_base(v), ws, ds)
        && starts(v, sts[0]) && sts.last().blocks() == v.win_data && ms == key_moves(ws, ds);
    if ms.len() < mm {
        lemma_starts_same(v, layers[0][0].level, sts[0]);
        assert forall|j: int| 0 <= j < sts.len() implies (#[trigger] sts[j]).w == b.w && sts[j].h == b.h by {
            lemma_chain_sizes(v, sts, ws, ds, j);
        }
        let n = ws.len() as int;
        lemma_prefix_in_layers(layers, b, nc, mm, sts, ws, ds, n);
        assert(ws.take(n) =~= ws);
        assert(ds.take(n) =~= ds);
        let (d, t) = choose|d: int, t: int| 0 <= d <= n && d < layers.len() && 0 <= t < layers[d].len()
            && same_st(#[trigger] layers[d][t].level, sts[n]) && layers[d][t].path.path().len() <= ms.len();
        assert(sts.last() == sts[n]);
        assert(layers[d][t].level.blocks() == b.win_data);
    }
}

/// Maps drawn from a list keep what every map of the list has: room, and fewer than `mm`
/// moves.
pub proof fn lemma_sub_kept(from: Seq<PathMap>, maps: Seq<PathMap>, mm: int)
    requires
        forall|k: int| 0 <= k < maps.len() ==> from.contains(#[trigger] maps[k]),
    ensures
        all_room(from) ==> all_room(maps),
        (forall|t: int| 0 <= t < from.len() ==> (#[trigger] from[t]).path.path().len() < mm)
            ==> (forall|t: int| 0 <= t < maps.len() ==> (#[trigger] maps[t]).path.path().len() < mm),
{
    assert forall|t: int| 0 <= t < maps.len() implies exists|u: int| 0 <= u < from.len() && from[u] == #[trigger] maps[t] by {
        assert(from.contains(maps[t]));
    }
}

/// A new layer of maps reached from the start with `d` pushes fits the base level, each map
/// with at least `d` moves.
pub proof fn lemma_layer_fit(layers: Seq<Seq<PathMap>>, b: LevelView, start: SpLevel, kept: Seq<PathMap>, d: int)
    requires
        layers_fit(layers, b),
        layers.len() == d,
        d >= 0,
        all_reached(start, b, kept),
        crate::solve::all_pushing(start, b, kept, d as nat),
    ensures
        layers_fit(layers.push(kept), b),
{
    reveal(layers_fit);
    let nl = layers.push(kept);
    assert forall|e: int, t: int| 0 <= e < nl.len() && 0 <= t < nl[e].len()
        implies e <= (#[trigger] nl[e][t]).path.path().len() && fits_base(nl[e][t].level, b) by {
        if e < d {
            assert(nl[e] == layers[e]);
        } else {
            assert(nl[e] == kept);
            assert(reached(start, b, kept[t]));
            assert(plays_pushing(start, b, kept[t].path.path(), kept[t].level, d as nat));
            lemma_pushes_le_moves(start, b, kept[t].path.path(), kept[t].level, d as nat);
        }
    }
}

/// Adding a layer keeps the counted wins below `n`; an empty last layer has none to count.
pub proof fn lemma_wins_ext(layers: Seq<Seq<PathMap>>, b: LevelView, x: Seq<PathMap>, n: int, mm: int)
    requires
        wins_counted(layers, n, b, mm),
        n == layers.len(),
    ensures
        wins_counted(layers.push(x), n, b, mm),
        x.len() == 0 ==> wins_counted(layers.push(x), n + 1, b, mm),
{
    reveal(wins_counted);
    let nl = layers.push(x);
    assert forall|d: int, t: int| 0 <= d < n + 1 && d < nl.len() && 0 <= t < nl[d].len()
        && (#[trigger] nl[d][t]).level.blocks() == b.win_data && (d < n || x.len() == 0)
        implies mm <= nl[d][t].path.path().len() by {
        if d < n {
            assert(nl[d] == layers[d]);
        }
    }
}

/// Fewer moves allowed keep the layers closed and the wins counted.
pub proof fn lemma_search_mono(layers: Seq<Seq<PathMap>>, n: int, nw: int, b: LevelView, mm1: int, mm2: int)
    requires
        closed_below(layers, n, b, mm1),
        wins_counted(layers, nw, b, mm1),
        mm2 <= mm1,
    ensures
        closed_below(layers, n, b, mm2),
        wins_counted(layers, nw, b, mm2),
{
    reveal(closed_below);
    reveal(wins_counted);
}

/// The first layer of the search: its start map alone, fitting the base level; nothing below
/// it to close or count, and no state seen.
pub proof fn lemma_search_start(m: PathMap, b: LevelView, mm: int)
    requires
        fits_base(m.level, b),
    ensures
        layers_fit(seq![seq![m]], b),
        closed_below(seq![seq![m]], 0, b, mm),
        wins_counted(seq![seq![m]], 0, b, mm),
        seen_ok(Seq::empty(), seq![seq![m]], 0),
{
    reveal(closed_below);
    reveal(wins_counted);
    reveal(layers_fit);
    reveal(seen_ok);
    let l = seq![seq![m]];
    assert forall|d: int, t: int| 0 <= d < l.len() && 0 <= t < l[d].len()
        implies d <= (#[trigger] l[d][t]).path.path().len() && fits_base(l[d][t].level, b) by {
        assert(l[d][t] == m);
    }
}

/// A layer whose winning maps have at least `mm` moves counts its wins: the wins below
/// `n + 1` are counted.
pub proof fn lemma_wins_next(layers: Seq<Seq<PathMap>>, n: int, b: LevelView, mm: int)
    requires
        wins_counted(layers, n, b, mm),
        0 <= n < layers.len(),
        forall|t: int| 0 <= t < layers[n].len() && (#[trigger] layers[n][t]).level.blocks() == b.win_data
            ==> mm <= layers[n][t].path.path().len(),
    ensures
        wins_counted(layers, n + 1, b, mm),
{
    reveal(wins_counted);
}

/// An empty last layer is closed: nothing is made from it.
pub proof fn lemma_closed_empty_last(layers: Seq<Seq<PathMap>>, n: int, b: LevelView, mm: int)
    requires
        closed_below(layers, n, b, mm),
        n + 1 == layers.len(),
        layers[n].len() == 0,
    ensures
        closed_below(layers, n + 1, b, mm),
{
    reveal(closed_below);
}

/// The first state of a level fits its base level.
pub proof fn lemma_start_fits(v: LevelView, s: SpLevel)
    requires
        solvable_input(v),
        starts(v, s),
    ensures
        fits_base(s, solve_base(v)),
{
    let w = v.w as int;
    let hp = v.human_pos;
    assert(in_bounds(w, v.h as int, hp));
    assert(human_cell(s) == hp);
    let c = cell_index(w, hp);
    assert(0 <= c < w * v.h) by (nonlinear_arith)
        requires c == hp.0 + hp.1 * w, 0 <= hp.0 < w, 0 <= hp.1 < v.h;
    assert(s.bit_index(hp) == c);
    assert(bitmap_bit(s.blocks(), c) == (c < v.data.len() && crate::level::pack_pred(false, v.data[c])));
}

/// The first `i` key steps of a key chain are moves of the game, from its first state to
/// its `i`th, which fits the base level.
proof fn lemma_chain_plays(b: LevelView, sts: Seq<SpLevel>, ws: Seq<Seq<Move>>, ds: Seq<Move>, i: int)
    requires
        is_base_level(b),
        key_chain(sts, b, ws, ds),
        fits_base(sts[0], b),
        0 <= i <= ws.len(),
    ensures
        plays(sts[0], b, key_moves(ws.take(i), ds.take(i)), sts[i]),
        fits_base(sts[i], b),
    decreases i,
{
    if i == 0 {
        lemma_plays_none(sts[0], b);
        assert(ws.take(0) =~= Seq::<Seq<Move>>::empty());
    } else {
        let j = i - 1;
        lemma_chain_plays(b, sts, ws, ds, j);
        let q = sts[j];
        let r = sts[i];
        assert(key_step(q, b, ws[j], ds[j], r));
        lemma_key_step_plays(q, b, ws[j], ds[j], r);
        lemma_key_step_fits(q, b, ws[j], ds[j], r);
        lemma_plays_concat(sts[0], b, key_moves(ws.take(j), ds.take(j)), q, ws[j].push(ds[j]), r);
        assert(ws.take(i).drop_last() =~= ws.take(j));
        assert(ds.take(i).drop_last() =~= ds.take(j));
        assert(key_moves(ws.take(i), ds.take(i)) == key_moves(ws.take(j), ds.take(j)) + ws[j].push(ds[j]));
    }
}

/// A key step is a walk and a push of the game.
#[verifier::spinoff_prover]
proof fn lemma_key_step_plays(q: SpLevel, b: LevelView, w: Seq<Move>, m: Move, r: SpLevel)
    requires
        is_base_level(b),
        fits_base(q, b),
        key_step(q, b, w, m, r),
    ensures
        plays(q, b, w.push(m), r),
{
    let p = walk_end(q, b, human_cell(q), w)->0;
    lemma_walk_plays(q, b, w, p);
    let t = moved_human(q, p.0 as i8, p.1 as i8);
    assert(human_cell(t) == p);
    assert(push_ok(t, b, p, m));
    assert(pushed(t, p, m, r));
    lemma_plays_push(q, b, w, t, m, r);
}

/// A key step leads to a state fitting the base level.
#[verifier::spinoff_prover]
proof fn lemma_key_step_fits(q: SpLevel, b: LevelView, w: Seq<Move>, m: Move, r: SpLevel)
    requires
        is_base_level(b),
        fits_base(q, b),
        key_step(q, b, w, m, r),
    ensures
        fits_base(r, b),
{
    let p = walk_end(q, b, human_cell(q), w)->0;
    lemma_walk_plays(q, b, w, p);
    let np = crate::game::step(p, m);
    let wd = b.w as int;
    assert(in_bounds(wd, b.h as int, np));
    assert(b.data.len() == wd * b.h);
    let a = q.bit_index(np);
    assert(0 <= a < 256) by (nonlinear_arith)
        requires a == np.0 + np.1 * wd, 0 <= np.0 < wd, 0 <= np.1 < b.h, wd * b.h <= 256;
    assert(bitmap_bit(r.blocks(), a) == (a != q.bit_index(np) && (a == q.bit_index(crate::game::step2(p, m)) || bitmap_bit(q.blocks(), a))));
    assert(r.bit_index(np) == a);
    assert(human_cell(r) == np);
}

/// A solution by key moves is a solution: its walks and pushes are moves of the game that
/// end with the boxes exactly on the holes.
pub proof fn lemma_key_solution_solves(v: LevelView, ms: Seq<Move>)
    requires
        solvable_input(v),
        key_solves(v, ms),
    ensures
        solves(v, ms),
{
    let (sts, ws, ds) = choose|sts: Seq<SpLevel>, ws: Seq<Seq<Move>>, ds: Seq<Move>| #[trigger] key_chain(sts, solve_base(v), ws, ds)
        && starts(v, sts[0]) && sts.last().blocks() == v.win_data && ms == key_moves(ws, ds);
    let n = ws.len() as int;
    lemma_start_fits(v, sts[0]);
    crate::solve::lemma_base_ok(v);
    lemma_chain_plays(solve_base(v), sts, ws, ds, n);
    assert(ws.take(n) =~= ws);
    assert(ds.take(n) =~= ds);
    assert(sts.last() == sts[n]);
    assert(plays(sts[0], solve_base(v), ms, sts[n]));
}

} // verus!
