//! Counting boxes: the moves of the game keep the number of boxes, and a state rebuilt on
//! its base level has as many boxes as it has bits set.
use vstd::prelude::*;
use crate::obj::Obj;
use crate::level::{LevelView, SpLevel, bitmap_bit, cell_index, in_bounds, count_boxes, is_box_obj, is_hole_obj, packs,
    sp_obj};
use crate::vector::{Move, Vector};
use crate::pathnodemap::{is_base_level, fits_base, human_cell, play_chain, play_step, plays, pushed, push_ok, moved_human,
    pulled, pull_ok, PathMap, PathNodeMap, flooded, made_all, fitting, push_made, pull_made, nodes_ok, key_ok,
    lemma_keys_valid};
use crate::solve::{starts, solve_base, solvable_input, pushes_of, lemma_fitting_sub};
use crate::unsolve::{finish_layer, pulls_of, joined, none_home};
use crate::readback::count_holes;
use crate::game::{step, step2};

verus! {

/// The number of bits set among the first `n` of a bitmap.
pub open spec fn bits_upto(bl: Seq<u64>, n: int) -> nat
    decreases n,
{
    if n <= 0 {
        0
    } else {
        bits_upto(bl, n - 1) + (if bitmap_bit(bl, n - 1) { 1nat } else { 0nat })
    }
}

/// Moving one bit from `a` to `c` keeps the count.
proof fn lemma_bits_moved(x: Seq<u64>, y: Seq<u64>, a: int, c: int, n: int)
    requires
        0 <= n,
        a != c,
        bitmap_bit(x, a),
        !bitmap_bit(x, c),
        forall|i: int| 0 <= i < 256 ==> #[trigger] bitmap_bit(y, i) == (i != a && (i == c || bitmap_bit(x, i))),
        0 <= a < 256,
        0 <= c < 256,
        n <= 256,
    ensures
        bits_upto(y, n) + (if a < n { 1int } else { 0int }) == bits_upto(x, n) + (if c < n { 1int } else { 0int }),
    decreases n,
{
    if n > 0 {
        lemma_bits_moved(x, y, a, c, n - 1);
        assert(bitmap_bit(y, n - 1) == (n - 1 != a && (n - 1 == c || bitmap_bit(x, n - 1))));
    }
}

/// A move of the game keeps the number of boxes (and the size).
proof fn lemma_step_bits(q: SpLevel, b: LevelView, m: Move, r: SpLevel)
    requires
        is_base_level(b),
        q.w == b.w,
        q.h == b.h,
        b.w >= 1,
        play_step(q, b, m, r),
    ensures
        bits_upto(r.blocks(), 256) == bits_upto(q.blocks(), 256),
        r.w == q.w,
        r.h == q.h,
{
    let p = human_cell(q);
    let np = step(p, m);
    if !(crate::pathnodemap::walkable(q, b, np) && r == moved_human(q, np.0 as i8, np.1 as i8)) {
        assert(push_ok(q, b, p, m) && pushed(q, p, m, r));
        let bp = step2(p, m);
        let w = b.w as int;
        let h = b.h as int;
        let a = q.bit_index(np);
        let c = q.bit_index(bp);
        assert(in_bounds(w, h, np) && in_bounds(w, h, bp));
        assert(b.data.len() == w * h);
        assert(0 <= a < w * h) by (nonlinear_arith)
            requires a == np.0 + np.1 * w, 0 <= np.0 < w, 0 <= np.1 < h;
        assert(0 <= c < w * h) by (nonlinear_arith)
            requires c == bp.0 + bp.1 * w, 0 <= bp.0 < w, 0 <= bp.1 < h;
        assert(a != c) by {
            assert(c - a == (bp.0 - np.0) + (bp.1 - np.1) * w) by (nonlinear_arith)
                requires a == np.0 + np.1 * w, c == bp.0 + bp.1 * w;
        }
        lemma_bits_moved(q.blocks(), r.blocks(), a, c, 256);
    }
}

/// Playing moves of the game keeps the number of boxes.
pub proof fn lemma_plays_bits(s: SpLevel, b: LevelView, ms: Seq<Move>, r: SpLevel)
    requires
        is_base_level(b),
        s.w == b.w,
        s.h == b.h,
        b.w >= 1,
        plays(s, b, ms, r),
    ensures
        bits_upto(r.blocks(), 256) == bits_upto(s.blocks(), 256),
{
    let states = choose|states: Seq<SpLevel>| #[trigger] play_chain(states, s, b, ms, r);
    lemma_chain_bits(states, s, b, ms, r, ms.len() as int);
}

/// The states of a play up to the `k`th keep the number of boxes and the size.
proof fn lemma_chain_bits(states: Seq<SpLevel>, s: SpLevel, b: LevelView, ms: Seq<Move>, r: SpLevel, k: int)
    requires
        is_base_level(b),
        s.w == b.w,
        s.h == b.h,
        b.w >= 1,
        play_chain(states, s, b, ms, r),
        0 <= k <= ms.len(),
    ensures
        bits_upto(states[k].blocks(), 256) == bits_upto(s.blocks(), 256),
        states[k].w == s.w,
        states[k].h == s.h,
    decreases k,
{
    if k > 0 {
        lemma_chain_bits(states, s, b, ms, r, k - 1);
        assert(play_step(states[k - 1], b, ms[k - 1], states[k]));
        lemma_step_bits(states[k - 1], b, ms[k - 1], states[k]);
    }
}

/// The boxes of the first `k` cells of a grid whose boxes are the bits of a bitmap.
proof fn lemma_boxes_prefix(data: Seq<Obj>, bl: Seq<u64>, k: int)
    requires
        0 <= k <= data.len(),
        forall|i: int| 0 <= i < data.len() ==> #[trigger] is_box_obj(data[i]) == bitmap_bit(bl, i),
    ensures
        count_boxes(data.take(k)) == bits_upto(bl, k),
    decreases k,
{
    if k > 0 {
        lemma_boxes_prefix(data, bl, k - 1);
        assert(data.take(k).drop_last() =~= data.take(k - 1));
        assert(data.take(k).last() == data[k - 1]);
    }
}

/// A grid whose boxes are the bits of a bitmap (and no bit is set past it) has as many
/// boxes as bits set.
pub proof fn lemma_boxes_are_bits(data: Seq<Obj>, bl: Seq<u64>)
    requires
        data.len() <= 256,
        forall|i: int| 0 <= i < data.len() ==> #[trigger] is_box_obj(data[i]) == bitmap_bit(bl, i),
        forall|i: int| data.len() <= i < 256 ==> !#[trigger] bitmap_bit(bl, i),
    ensures
        count_boxes(data) == bits_upto(bl, 256),
{
    lemma_boxes_prefix(data, bl, data.len() as int);
    lemma_bits_beyond(bl, data.len() as int, 256);
    assert(data.take(data.len() as int) =~= data);
}

/// No bit set past `n`: the count up to `m` is the count up to `n`.
proof fn lemma_bits_beyond(bl: Seq<u64>, n: int, m: int)
    requires
        0 <= n <= m <= 256,
        forall|i: int| n <= i < 256 ==> !#[trigger] bitmap_bit(bl, i),
    ensures
        bits_upto(bl, m) == bits_upto(bl, n),
    decreases m,
{
    if m > n {
        lemma_bits_beyond(bl, n, m - 1);
    }
}

/// The holes of the first `k` cells of a grid packed in a bitmap.
proof fn lemma_holes_prefix(data: Seq<Obj>, bl: Seq<u64>, k: int)
    requires
        0 <= k <= data.len(),
        packs(bl, data, true),
        data.len() <= 256,
    ensures
        count_holes(data.take(k)) == bits_upto(bl, k),
    decreases k,
{
    if k > 0 {
        lemma_holes_prefix(data, bl, k - 1);
        assert(data.take(k).drop_last() =~= data.take(k - 1));
        assert(data.take(k).last() == data[k - 1]);
        assert(bitmap_bit(bl, k - 1) == (k - 1 < data.len() && crate::level::pack_pred(true, data[k - 1])));
    }
}

/// The holes of a grid packed in a bitmap: as many bits set as holes.
pub proof fn lemma_holes_are_bits(data: Seq<Obj>, bl: Seq<u64>)
    requires
        data.len() <= 256,
        packs(bl, data, true),
    ensures
        count_holes(data) == bits_upto(bl, 256),
{
    lemma_holes_prefix(data, bl, data.len() as int);
    assert forall|i: int| data.len() <= i < 256 implies !#[trigger] bitmap_bit(bl, i) by {}
    lemma_bits_beyond(bl, data.len() as int, 256);
    assert(data.take(data.len() as int) =~= data);
}

/// The index of a cell inside the grid is one of the 256 bits.
proof fn lemma_bit_in_range(s: SpLevel, b: LevelView, p: Vector)
    requires
        is_base_level(b),
        s.w == b.w,
        in_bounds(b.w as int, b.h as int, p),
    ensures
        0 <= s.bit_index(p) < b.data.len(),
        b.data.len() <= 256,
{
    let w = b.w as int;
    assert(b.data.len() == w * b.h);
    assert(0 <= p.0 + p.1 * w < w * b.h) by (nonlinear_arith)
        requires 0 <= p.0 < w, 0 <= p.1 < b.h;
}

/// Two cells inside the grid one step apart have different bits.
proof fn lemma_bits_apart(s: SpLevel, b: LevelView, p: Vector, m: Move)
    requires
        is_base_level(b),
        s.w == b.w,
        b.w >= 1,
        in_bounds(b.w as int, b.h as int, p),
        in_bounds(b.w as int, b.h as int, step(p, m)),
    ensures
        s.bit_index(step(p, m)) != s.bit_index(p),
{
    let w = b.w as int;
    let q = step(p, m);
    let dx: int = q.0 - p.0;
    let dy: int = q.1 - p.1;
    assert((dx == 0 && (dy == 1 || dy == -1)) || (dy == 0 && (dx == 1 || dx == -1)));
    assert(s.bit_index(q) - s.bit_index(p) == dx + dy * w) by (nonlinear_arith)
        requires s.bit_index(q) == q.0 + q.1 * w, s.bit_index(p) == p.0 + p.1 * w, dx == q.0 - p.0, dy == q.1 - p.1;
    assert(dy * w == w || dy * w == -w || dy * w == 0) by (nonlinear_arith)
        requires dy == 1 || dy == -1 || dy == 0;
    if dy == 0 {
        assert(dy * w == 0) by (nonlinear_arith) requires dy == 0;
    } else if dy == 1 {
        assert(dy * w == w) by (nonlinear_arith) requires dy == 1;
    } else {
        assert(dy * w == -w) by (nonlinear_arith) requires dy == -1;
    }
    assert(dx + dy * w != 0);
}

/// A push or a pull of a key move keeps the number of boxes, and its new state fits the
/// base level.
proof fn lemma_key_move_bits(s: SpLevel, b: LevelView, p: Vector, m: Move, pulls: bool, r: SpLevel)
    requires
        is_base_level(b),
        fits_base(s, b),
        in_bounds(b.w as int, b.h as int, p),
        !s.box_at(p),
        key_ok(s, b, p, pulls, m),
        pulls ==> pulled(s, p, m, r),
        !pulls ==> pushed(s, p, m, r),
    ensures
        bits_upto(r.blocks(), 256) == bits_upto(s.blocks(), 256),
        fits_base(r, b),
{
    assert(b.w >= 1);
    let np = step(p, m);
    if pulls {
        let from = step(p, crate::vector::move_rev(m));
        lemma_bit_in_range(s, b, p);
        lemma_bit_in_range(s, b, from);
        lemma_bit_in_range(s, b, np);
        lemma_bits_apart(s, b, p, m);
        lemma_bits_apart(s, b, p, crate::vector::move_rev(m));
        let a = s.bit_index(from);
        let c = s.bit_index(p);
        assert forall|i: int| 0 <= i < 256 implies #[trigger] bitmap_bit(r.blocks(), i) == (i != a && (i == c || bitmap_bit(s.blocks(), i))) by {}
        lemma_bits_moved(s.blocks(), r.blocks(), a, c, 256);
        assert(bitmap_bit(r.blocks(), s.bit_index(np)) == (s.bit_index(np) == c || (s.bit_index(np) != a && bitmap_bit(s.blocks(), s.bit_index(np)))));
        assert(r.bit_index(np) == s.bit_index(np));
        assert(human_cell(r) == np);
    } else {
        let bp = step2(p, m);
        lemma_bit_in_range(s, b, np);
        lemma_bit_in_range(s, b, bp);
        lemma_bits_apart(s, b, np, m);
        let a = s.bit_index(np);
        let c = s.bit_index(bp);
        lemma_bits_moved(s.blocks(), r.blocks(), a, c, 256);
        assert(bitmap_bit(r.blocks(), a) == (a != a && (a == c || bitmap_bit(s.blocks(), a))));
        assert(r.bit_index(np) == a);
        assert(human_cell(r) == np);
    }
}

/// The new states of the key moves of a walk map keep the number of boxes, and fit the base
/// level.
proof fn lemma_made_bits(b: LevelView, m: PathMap, pnm: PathNodeMap, maps: Seq<PathMap>, pulls: bool, depth: u16, t: int)
    requires
        is_base_level(b),
        fits_base(m.level, b),
        flooded(m.level, b, pnm, pulls),
        made_all(m, pnm, maps, pulls, depth),
        0 <= t < maps.len(),
    ensures
        bits_upto(maps[t].level.blocks(), 256) == bits_upto(m.level.blocks(), 256),
        fits_base(maps[t].level, b),
{
    let nodes = pnm.nodes@;
    let keys = fitting(m, nodes, pnm.key_moves@);
    lemma_fitting_sub(m, nodes, pnm.key_moves@, t);
    let u = choose|u: int| 0 <= u < pnm.key_moves@.len() && pnm.key_moves@[u] == #[trigger] fitting(m, nodes, pnm.key_moves@)[t];
    lemma_keys_valid(m.level, b, nodes, nodes.len() as int, pulls, u);
    let km = keys[t];
    let j = km.pni as int;
    let p = nodes[j].pt;
    assert(nodes_ok(m.level, b, nodes));
    assert(in_bounds(b.w as int, b.h as int, p));
    if j == 0 {
        assert(p == human_cell(m.level));
    } else {
        assert(crate::pathnodemap::walkable(m.level, b, p));
    }
    if pulls {
        assert(pull_made(m, nodes, km, depth, maps[t]));
    } else {
        assert(push_made(m, nodes, km, maps[t]));
    }
    lemma_key_move_bits(m.level, b, p, km.move_dir, pulls, maps[t].level);
}

/// A map of the chunks joined is a map of one of the chunks.
proof fn lemma_joined_from(cs: Seq<Seq<PathMap>>, k: int)
    requires
        0 <= k < joined(cs).len(),
    ensures
        exists|j: int, u: int| 0 <= j < cs.len() && 0 <= u < cs[j].len() && #[trigger] cs[j][u] == joined(cs)[k],
    decreases cs.len(),
{
    let rest = joined(cs.drop_last());
    if k < rest.len() {
        lemma_joined_from(cs.drop_last(), k);
        let (j, u) = choose|j: int, u: int| 0 <= j < cs.drop_last().len() && 0 <= u < cs.drop_last()[j].len()
            && #[trigger] cs.drop_last()[j][u] == rest[k];
        assert(cs[j] == cs.drop_last()[j]);
        assert(joined(cs)[k] == rest[k]);
    } else {
        let j = cs.len() - 1;
        let u = k - rest.len();
        assert(joined(cs)[k] == cs[j][u]);
    }
}

/// The start of a level has as many bits set as the level has boxes.
proof fn lemma_start_bits(v: LevelView, s: SpLevel)
    requires
        solvable_input(v),
        starts(v, s),
    ensures
        bits_upto(s.blocks(), 256) == count_boxes(v.data),
{
    assert forall|i: int| 0 <= i < v.data.len() implies #[trigger] is_box_obj(v.data[i]) == bitmap_bit(s.blocks(), i) by {
        assert(bitmap_bit(s.blocks(), i) == (i < v.data.len() && crate::level::pack_pred(false, v.data[i])));
    }
    assert forall|i: int| v.data.len() <= i < 256 implies !#[trigger] bitmap_bit(s.blocks(), i) by {
        assert(bitmap_bit(s.blocks(), i) == (i < v.data.len() && crate::level::pack_pred(false, v.data[i])));
    }
    lemma_boxes_are_bits(v.data, s.blocks());
}

/// When a position with every box on a hole is reached from the start of a level by a pull
/// and then a push, the level has as many boxes as holes.
pub proof fn lemma_home_counts(v: LevelView, m0: PathMap, cs1: Seq<Seq<PathMap>>, cs2: Seq<Seq<PathMap>>)
    requires
        solvable_input(v),
        starts(v, m0.level),
        finish_layer(solve_base(v), m0, cs1, cs2),
        !none_home(solve_base(v), joined(cs2)),
    ensures
        count_boxes(v.data) == count_holes(v.data),
{
    let b = solve_base(v);
    crate::solve::lemma_base_ok(v);
    crate::keysearch::lemma_start_fits(v, m0.level);
    let k = choose|k: int| 0 <= k < joined(cs2).len() && !((#[trigger] joined(cs2)[k]).level.blocks() != b.win_data);
    lemma_joined_from(cs2, k);
    let (j, u) = choose|j: int, u: int| 0 <= j < cs2.len() && 0 <= u < cs2[j].len() && #[trigger] cs2[j][u] == joined(cs2)[k];
    let mid = cs1[0][j];
    assert(pulls_of(b, m0, 0, cs1[0]));
    reveal(pulls_of);
    let pnm1 = choose|pnm: PathNodeMap| flooded(m0.level, b, pnm, true) && #[trigger] made_all(m0, pnm, cs1[0], true, 0u16);
    lemma_made_bits(b, m0, pnm1, cs1[0], true, 0u16, j);
    assert(pushes_of(b, mid, cs2[j]));
    reveal(pushes_of);
    let pnm2 = choose|pnm: PathNodeMap| flooded(mid.level, b, pnm, false) && #[trigger] made_all(mid, pnm, cs2[j], false, mid.depth);
    lemma_made_bits(b, mid, pnm2, cs2[j], false, mid.depth, u);
    lemma_start_bits(v, m0.level);
    lemma_holes_are_bits(v.data, v.win_data);
}

} // verus!
