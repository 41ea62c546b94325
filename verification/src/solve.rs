//! Solving a level: a breadth-first search over box pushes, keeping for every state the
//! shortest way found to it.
use vstd::prelude::*;
use crate::obj::Obj;
use crate::level::{Level, LevelView, SpLevel, human_cleared, packs, cell_index, in_bounds, is_base_obj, bitmap_bit, is_box_obj, is_hole_obj, cmp_less};
use crate::vector::{Move, PathTrait, moves_text, Vector};
use crate::pathnodemap::{PathMap, PathNode, KeyMove, PathNodeMap, fits_base, is_base_level, plays, flooded,
    made_all, fitting, push_made, keys_upto, key_ok, solve_key, push_ok, nodes_ok, trace, human_cell, pushed,
    lemma_push_made_plays, lemma_plays_concat, lemma_plays_none, plays_pushing, lemma_push_made_pushing,
    lemma_pushing_concat, lemma_pushing_none};
use crate::game::step;
use crate::replay::{game_wins, replay_pushes, fresh_game};
use crate::readback::count_holes;
use crate::level::count_boxes;
use crate::keysearch::{room_ok, all_room, succ_covered, covers_state, step_cost, key_step, lemma_chunk_facts,
    lemma_append_covered, key_solves, within_limit, layers_fit, closed_below, wins_counted, seen_ok, in_layers,
    lemma_in_layers_ext, lemma_unseen_sorted, lemma_new_layer, lemma_close_layer, lemma_many, lemma_search_complete,
    lemma_sub_kept, lemma_layer_fit, lemma_wins_ext, lemma_search_mono, lemma_search_start, lemma_wins_next, lemma_closed_empty_last};

verus! {

/// A solution: the number of moves, the search depth (the number of pushes made) at which
/// it was found, and the moves as text.
pub struct Solution {
    pub moves: u16,
    pub depth: u16,
    pub path: String,
}

/// The base level of the search: the level without its human and its boxes.
pub open spec fn solve_base(v: LevelView) -> LevelView {
    human_cleared(v).with_data(human_cleared(v).boxes_cleared())
}

/// `s` is the search state of the level `v`: its size, its human and its boxes.
pub open spec fn starts(v: LevelView, s: SpLevel) -> bool {
    &&& s.w == v.w as i8
    &&& s.h == v.h as i8
    &&& s.hx() == v.human_pos.0 as i8
    &&& s.hy() == v.human_pos.1 as i8
    &&& packs(s.blocks(), v.data, false)
}

/// A search state reached from `start`: its moves, played from the start over the base
/// level, lead to it.
pub open spec fn reached(start: SpLevel, b: LevelView, m: PathMap) -> bool {
    &&& m.path.consistent()
    &&& fits_base(m.level, b)
    &&& plays(start, b, m.path.path(), m.level)
}

/// The moves `ms` solve the level `v`: played from its start they are all moves of the game
/// and end with the boxes exactly on the holes.
pub open spec fn solves(v: LevelView, ms: Seq<Move>) -> bool {
    exists|s: SpLevel, fin: SpLevel| starts(v, s) && #[trigger] plays(s, solve_base(v), ms, fin)
        && fin.blocks() == v.win_data
}

/// A level the search works on: built, at most 127 by 127 and 256 cells.
pub open spec fn solvable_input(v: LevelView) -> bool {
    &&& v.is_built()
    &&& v.w <= 127
    &&& v.h <= 127
    &&& v.data.len() <= 256
}

/// The fitting key moves are key moves of the list.
pub proof fn lemma_fitting_sub(pm: PathMap, nodes: Seq<PathNode>, keys: Seq<KeyMove>, t: int)
    requires
        0 <= t < fitting(pm, nodes, keys).len(),
    ensures
        exists|u: int| 0 <= u < keys.len() && keys[u] == #[trigger] fitting(pm, nodes, keys)[t],
    decreases keys.len(),
{
    let rest = fitting(pm, nodes, keys.drop_last());
    if t < rest.len() {
        lemma_fitting_sub(pm, nodes, keys.drop_last(), t);
        let u = choose|u: int| 0 <= u < keys.drop_last().len() && keys.drop_last()[u] == #[trigger] fitting(pm, nodes, keys.drop_last())[t];
        assert(keys[u] == keys.drop_last()[u]);
    } else {
        assert(keys[keys.len() - 1] == fitting(pm, nodes, keys)[t]);
    }
}

/// A new state made from a reached state by a push of its walk map is reached too.
proof fn lemma_successor_reached(start: SpLevel, b: LevelView, m: PathMap, pnm: PathNodeMap, maps: Seq<PathMap>, t: int)
    requires
        is_base_level(b),
        reached(start, b, m),
        flooded(m.level, b, pnm, false),
        made_all(m, pnm, maps, false, m.depth),
        0 <= t < maps.len(),
    ensures
        reached(start, b, maps[t]),
{
    let nodes = pnm.nodes@;
    let keys = fitting(m, nodes, pnm.key_moves@);
    let km = keys[t];
    let r = maps[t];
    lemma_fitting_sub(m, nodes, pnm.key_moves@, t);
    let u = choose|u: int| 0 <= u < pnm.key_moves@.len() && pnm.key_moves@[u] == #[trigger] fitting(m, nodes, pnm.key_moves@)[t];
    crate::pathnodemap::lemma_keys_valid(m.level, b, nodes, nodes.len() as int, false, u);
    assert(push_made(m, nodes, km, r));
    let p = nodes[km.pni as int].pt;
    lemma_push_made_plays(m, b, nodes, km, r);
    lemma_plays_concat(start, b, m.path.path(), m.level, trace(nodes, km.pni as int).push(km.move_dir), r.level);
    assert(r.path.path() == m.path.path() + trace(nodes, km.pni as int).push(km.move_dir));
    let np = step(p, km.move_dir);
    crate::pathnodemap::lemma_cell_ok(m.level, b, np);
    assert(human_cell(r.level) == np);
    assert(!bitmap_bit(r.level.blocks(), m.level.bit_index(np)));
}


/// A new state made by a push of the walk map of a state reached with `d` pushes is
/// reached with `d + 1` pushes.
proof fn lemma_successor_pushing(start: SpLevel, b: LevelView, m: PathMap, pnm: PathNodeMap, maps: Seq<PathMap>, t: int, d: nat)
    requires
        is_base_level(b),
        reached(start, b, m),
        plays_pushing(start, b, m.path.path(), m.level, d),
        flooded(m.level, b, pnm, false),
        made_all(m, pnm, maps, false, m.depth),
        0 <= t < maps.len(),
    ensures
        plays_pushing(start, b, maps[t].path.path(), maps[t].level, d + 1),
{
    let nodes = pnm.nodes@;
    let keys = fitting(m, nodes, pnm.key_moves@);
    let km = keys[t];
    let r = maps[t];
    lemma_fitting_sub(m, nodes, pnm.key_moves@, t);
    let u = choose|u: int| 0 <= u < pnm.key_moves@.len() && pnm.key_moves@[u] == #[trigger] fitting(m, nodes, pnm.key_moves@)[t];
    crate::pathnodemap::lemma_keys_valid(m.level, b, nodes, nodes.len() as int, false, u);
    assert(push_made(m, nodes, km, r));
    lemma_push_made_pushing(m, b, nodes, km, r);
    lemma_pushing_concat(start, b, m.path.path(), m.level, d, trace(nodes, km.pni as int).push(km.move_dir), r.level, 1);
    assert(r.path.path() == m.path.path() + trace(nodes, km.pni as int).push(km.move_dir));
}

/// Every map of the list is reached from `start` with `d` pushes.
pub open spec fn all_pushing(start: SpLevel, b: LevelView, maps: Seq<PathMap>, d: nat) -> bool {
    forall|t: int| 0 <= t < maps.len() ==> plays_pushing(start, b, (#[trigger] maps[t]).path.path(), maps[t].level, d)
}

/// Maps drawn from a list of maps reached with `d` pushes are reached with `d` pushes.
proof fn lemma_sub_pushing(start: SpLevel, b: LevelView, from: Seq<PathMap>, maps: Seq<PathMap>, d: nat)
    requires
        all_pushing(start, b, from, d),
        forall|k: int| 0 <= k < maps.len() ==> from.contains(#[trigger] maps[k]),
    ensures
        all_pushing(start, b, maps, d),
{
    assert forall|t: int| 0 <= t < maps.len() implies plays_pushing(start, b, (#[trigger] maps[t]).path.path(), maps[t].level, d) by {
        assert(from.contains(maps[t]));
        let u = choose|u: int| 0 <= u < from.len() && from[u] == maps[t];
        assert(plays_pushing(start, b, from[u].path.path(), from[u].level, d));
    }
}

/// The two states have the human at the same place and the same boxes.
pub open spec fn same_st(a: SpLevel, b: SpLevel) -> bool {
    a.hx() == b.hx() && a.hy() == b.hy() && a.blocks() == b.blocks()
}

/// The number of moves stored for a state in a list of states seen: the first entry of
/// that state.
pub open spec fn seen_moves(seen: Seq<(SpLevel, u16)>, s: SpLevel) -> Option<u16>
    decreases seen.len(),
{
    if seen.len() == 0 {
        None
    } else if same_st(seen[0].0, s) {
        Some(seen[0].1)
    } else {
        seen_moves(seen.drop_first(), s)
    }
}

/// The number of moves stored for state `s`, if it was seen.
pub(crate) fn seen_lookup(seen: &Vec<(SpLevel, u16)>, s: &SpLevel) -> (r: Option<u16>)
    ensures
        r == seen_moves(seen@, *s),
{
    let mut i: usize = 0;
    assert(seen@.skip(0) =~= seen@);
    while i < seen.len()
        invariant
            i <= seen@.len(),
            seen_moves(seen@, *s) == seen_moves(seen@.skip(i as int), *s),
        decreases seen@.len() - i,
    {
        assert(seen@.skip(i as int).drop_first() =~= seen@.skip(i as int + 1));
        if seen[i].0.same_state(s) {
            return Some(seen[i].1);
        }
        i = i + 1;
    }
    None
}

/// Stores `moves` for the state `s`: replacing the stored number if `s` was seen, adding
/// it otherwise.
pub(crate) fn seen_insert(seen: &mut Vec<(SpLevel, u16)>, s: SpLevel, moves: u16)
    ensures
        seen_moves(final(seen)@, s) == Some(moves),
        forall|t: SpLevel| #[trigger] seen_moves(final(seen)@, t)
            == if same_st(t, s) { Some(moves) } else { seen_moves(old(seen)@, t) },
{
    let ghost old_seen = seen@;
    let mut i: usize = 0;
    let mut found = false;
    while i < seen.len()
        invariant_except_break
            !found,
        invariant
            i <= seen@.len(),
            seen@ == old_seen,
            forall|k: int| 0 <= k < i ==> !same_st((#[trigger] seen@[k]).0, s),
        ensures
            seen@ == old_seen,
            found ==> i < seen@.len() && same_st(seen@[i as int].0, s),
            !found ==> i == seen@.len(),
            forall|k: int| 0 <= k < i ==> !same_st((#[trigger] seen@[k]).0, s),
        decreases seen@.len() - i,
    {
        if seen[i].0.same_state(&s) {
            found = true;
            break;
        }
        i = i + 1;
    }
    if found {
        seen.set(i, (s, moves));
        proof {
            lemma_seen_set(old_seen, s, moves, i as int);
            lemma_seen_at(seen@, s, i as int);
        }
    } else {
        seen.push((s, moves));
        proof {
            lemma_seen_at(seen@, s, seen@.len() - 1);
            assert forall|t: SpLevel| #[trigger] seen_moves(seen@, t)
                == if same_st(t, s) { Some(moves) } else { seen_moves(old_seen, t) } by {
                lemma_seen_push(old_seen, (s, moves), t);
                if same_st(t, s) {
                    assert forall|k: int| 0 <= k < old_seen.len() implies !same_st((#[trigger] old_seen[k]).0, t) by {}
                    lemma_seen_none(old_seen, t);
                }
            }
        }
    }
}

/// Writing `s` over its first entry: `s` and the states like it get the new number, and
/// the other states keep theirs.
proof fn lemma_seen_set(a: Seq<(SpLevel, u16)>, s: SpLevel, moves: u16, i: int)
    requires
        0 <= i < a.len(),
        same_st(a[i].0, s),
        forall|k: int| 0 <= k < i ==> !same_st((#[trigger] a[k]).0, s),
    ensures
        forall|t: SpLevel| #[trigger] seen_moves(a.update(i, (s, moves)), t)
            == if same_st(t, s) { Some(moves) } else { seen_moves(a, t) },
{
    let c = a.update(i, (s, moves));
    assert forall|t: SpLevel| #[trigger] seen_moves(c, t)
        == if same_st(t, s) { Some(moves) } else { seen_moves(a, t) } by {
        if same_st(t, s) {
            assert forall|k: int| 0 <= k < i implies !same_st((#[trigger] c[k]).0, t) by {
                assert(c[k] == a[k]);
            }
            lemma_seen_at(c, t, i);
        } else {
            assert forall|k: int| 0 <= k < c.len() implies same_st((#[trigger] c[k]).0, t)
                == same_st(a[k].0, t) by {
                if k != i {
                    assert(c[k] == a[k]);
                }
            }
            assert forall|k: int| 0 <= k < c.len() && same_st((#[trigger] c[k]).0, t)
                implies c[k].1 == a[k].1 by {
                if k != i {
                    assert(c[k] == a[k]);
                }
            }
            lemma_seen_same(c, a, t);
        }
    }
}

/// Two lists whose entries match `t` at the same places, with the same numbers there,
/// store the same number for `t`.
proof fn lemma_seen_same(a: Seq<(SpLevel, u16)>, c: Seq<(SpLevel, u16)>, t: SpLevel)
    requires
        a.len() == c.len(),
        forall|k: int| 0 <= k < a.len() ==> same_st((#[trigger] a[k]).0, t) == same_st(c[k].0, t),
        forall|k: int| 0 <= k < a.len() && same_st((#[trigger] a[k]).0, t) ==> a[k].1 == c[k].1,
    ensures
        seen_moves(a, t) == seen_moves(c, t),
    decreases a.len(),
{
    if a.len() > 0 {
        assert(same_st(a[0].0, t) == same_st(c[0].0, t));
        assert forall|k: int| 0 <= k < a.drop_first().len() implies same_st((#[trigger] a.drop_first()[k]).0, t)
            == same_st(c.drop_first()[k].0, t) by {
            assert(a.drop_first()[k] == a[k + 1] && c.drop_first()[k] == c[k + 1]);
        }
        assert forall|k: int| 0 <= k < a.drop_first().len() && same_st((#[trigger] a.drop_first()[k]).0, t)
            implies a.drop_first()[k].1 == c.drop_first()[k].1 by {
            assert(a.drop_first()[k] == a[k + 1] && c.drop_first()[k] == c[k + 1]);
        }
        lemma_seen_same(a.drop_first(), c.drop_first(), t);
    }
}

/// A list with no entry for `t` stores nothing for it.
proof fn lemma_seen_none(a: Seq<(SpLevel, u16)>, t: SpLevel)
    requires
        forall|k: int| 0 <= k < a.len() ==> !same_st((#[trigger] a[k]).0, t),
    ensures
        seen_moves(a, t) == None::<u16>,
    decreases a.len(),
{
    if a.len() > 0 {
        assert(!same_st(a[0].0, t));
        assert forall|k: int| 0 <= k < a.drop_first().len() implies !same_st((#[trigger] a.drop_first()[k]).0, t) by {
            assert(a.drop_first()[k] == a[k + 1]);
        }
        lemma_seen_none(a.drop_first(), t);
    }
}

/// An entry added at the end counts only for a state stored nowhere before.
proof fn lemma_seen_push(a: Seq<(SpLevel, u16)>, x: (SpLevel, u16), t: SpLevel)
    ensures
        seen_moves(a.push(x), t) == (match seen_moves(a, t) {
            Some(v) => Some(v),
            None => if same_st(x.0, t) { Some(x.1) } else { None },
        }),
    decreases a.len(),
{
    if a.len() == 0 {
        assert(a.push(x).drop_first() =~= Seq::<(SpLevel, u16)>::empty());
        assert(a.push(x)[0] == x);
        assert(seen_moves(a, t) == None::<u16>);
        assert(seen_moves(Seq::<(SpLevel, u16)>::empty(), t) == None::<u16>);
    } else {
        assert(a.push(x).drop_first() =~= a.drop_first().push(x));
        assert(a.push(x)[0] == a[0]);
        lemma_seen_push(a.drop_first(), x, t);
    }
}

/// The first entry of a state is where it is found.
proof fn lemma_seen_at(seen: Seq<(SpLevel, u16)>, s: SpLevel, i: int)
    requires
        0 <= i < seen.len(),
        same_st(seen[i].0, s),
        forall|k: int| 0 <= k < i ==> !same_st((#[trigger] seen[k]).0, s),
    ensures
        seen_moves(seen, s) == Some(seen[i].1),
    decreases i,
{
    if i > 0 {
        assert forall|k: int| 0 <= k < i - 1 implies !same_st((#[trigger] seen.drop_first()[k]).0, s) by {
            assert(seen.drop_first()[k] == seen[k + 1]);
        }
        lemma_seen_at(seen.drop_first(), s, i - 1);
    }
}

/// Some map of `out` has the state of `m`, reached in at most as many moves.
pub open spec fn covered(out: Seq<PathMap>, m: PathMap) -> bool {
    exists|k: int| 0 <= k < out.len() && same_st(m.level, #[trigger] out[k].level)
        && out[k].path.path().len() <= m.path.path().len()
}

/// The states of two maps in the order of packed states (human x, human y, boxes).
pub open spec fn st_less(a: SpLevel, b: SpLevel) -> bool {
    cmp_less(a.cmp_data, b.cmp_data)
}

/// Whether state `a` comes before state `b`.
fn state_before(a: &SpLevel, b: &SpLevel) -> (r: bool)
    ensures
        r == st_less(*a, *b),
{
    a.cmp_data.less(&b.cmp_data)
}

/// No state comes before itself.
proof fn lemma_st_irrefl(a: SpLevel)
    ensures
        !st_less(a, a),
{
}

/// The order of states is transitive.
proof fn lemma_st_trans(a: SpLevel, b: SpLevel, c: SpLevel)
    requires
        st_less(a, b),
        st_less(b, c),
    ensures
        st_less(a, c),
{
    let x = a.cmp_data;
    let y = b.cmp_data;
    let z = c.cmp_data;
    if x.human_x == y.human_x && y.human_x == z.human_x && x.human_y == y.human_y && y.human_y == z.human_y {
        let i = choose|i: int| 0 <= i < 4 && x.blocks@[i] < y.blocks@[i] && forall|j: int| 0 <= j < i ==> x.blocks@[j] == y.blocks@[j];
        let k = choose|k: int| 0 <= k < 4 && y.blocks@[k] < z.blocks@[k] && forall|j: int| 0 <= j < k ==> y.blocks@[j] == z.blocks@[j];
        let m = if i < k { i } else { k };
        assert(x.blocks@[m] < z.blocks@[m]);
        assert(forall|j: int| 0 <= j < m ==> x.blocks@[j] == z.blocks@[j]);
    }
}

/// Two states of which neither comes first are the same state.
proof fn lemma_st_total(a: SpLevel, b: SpLevel)
    requires
        !st_less(a, b),
        !st_less(b, a),
    ensures
        same_st(a, b),
{
    let x = a.cmp_data;
    let y = b.cmp_data;
    assert(x.human_x == y.human_x && x.human_y == y.human_y);
    assert forall|i: int| 0 <= i < 4 implies x.blocks@[i] == y.blocks@[i] by {
        if x.blocks@[i] != y.blocks@[i] {
            let f = choose|f: int| 0 <= f <= i && x.blocks@[f] != y.blocks@[f]
                && forall|j: int| 0 <= j < f ==> x.blocks@[j] == y.blocks@[j];
            assert(x.blocks@[0] != y.blocks@[0] || x.blocks@[0] == y.blocks@[0]);
        }
    }
    assert(x.blocks@ =~= y.blocks@);
}

/// Of two states one comes first only if they differ.
pub(crate) proof fn lemma_st_same_not_less(a: SpLevel, b: SpLevel)
    requires
        same_st(a, b),
    ensures
        !st_less(a, b),
        !st_less(b, a),
{
}

/// The maps are in strictly increasing order of their states.
pub open spec fn st_sorted(maps: Seq<PathMap>) -> bool {
    forall|k: int, l: int| 0 <= k < l < maps.len() ==> st_less((#[trigger] maps[k]).level, (#[trigger] maps[l]).level)
}

/// What the sorting of states keeps of the maps before `maps[i]`: each state covered by a
/// shortest map of it.
pub open spec fn dedup_ok(maps: Seq<PathMap>, out: Seq<PathMap>, i: int) -> bool {
    &&& forall|j: int| 0 <= j < i ==> covered(out, #[trigger] maps[j])
    &&& forall|k: int, j: int| 0 <= k < out.len() && 0 <= j < i && same_st((#[trigger] out[k]).level, (#[trigger] maps[j]).level)
        ==> out[k].path.path().len() <= maps[j].path.path().len()
}

/// Sorted maps hold each state once.
proof fn lemma_sorted_unique(out: Seq<PathMap>, k: int, l: int)
    requires
        st_sorted(out),
        0 <= k < out.len(),
        0 <= l < out.len(),
        same_st(out[k].level, out[l].level),
    ensures
        k == l,
{
    if k < l {
        assert(st_less(out[k].level, out[l].level));
        lemma_st_same_not_less(out[k].level, out[l].level);
    } else if l < k {
        assert(st_less(out[l].level, out[k].level));
        lemma_st_same_not_less(out[l].level, out[k].level);
    }
}

/// A map whose state is already kept at place `p`: the shorter of the two stays.
proof fn lemma_dedup_same(maps: Seq<PathMap>, before: Seq<PathMap>, out: Seq<PathMap>, m: PathMap, i: int, p: int)
    requires
        0 <= i < maps.len(),
        maps[i] == m,
        st_sorted(before),
        dedup_ok(maps, before, i),
        0 <= p < before.len(),
        same_st(before[p].level, m.level),
        out == (if m.path.path().len() < before[p].path.path().len() { before.update(p, m) } else { before }),
    ensures
        dedup_ok(maps, out, i + 1),
{
    assert forall|j: int| 0 <= j < i + 1 implies covered(out, #[trigger] maps[j]) by {
        if j < i {
            let k = choose|k: int| 0 <= k < before.len() && same_st(maps[j].level, #[trigger] before[k].level)
                && before[k].path.path().len() <= maps[j].path.path().len();
            if k != p {
                assert(out[k] == before[k]);
            } else {
                assert(same_st(maps[j].level, out[p].level));
            }
        } else {
            assert(same_st(maps[j].level, out[p].level));
        }
    }
    assert forall|k: int, j: int| 0 <= k < out.len() && 0 <= j < i + 1 && same_st((#[trigger] out[k]).level, (#[trigger] maps[j]).level)
        implies out[k].path.path().len() <= maps[j].path.path().len() by {
        if k == p {
            if j < i {
                assert(same_st(before[p].level, maps[j].level));
                assert(before[p].path.path().len() <= maps[j].path.path().len());
            }
        } else {
            assert(out[k] == before[k]);
            if j == i {
                assert(same_st(before[k].level, before[p].level));
                lemma_sorted_unique(before, k, p);
            }
        }
    }
}

/// A map whose state is not kept yet, put in its place `p` in the order.
proof fn lemma_dedup_new(maps: Seq<PathMap>, before: Seq<PathMap>, out: Seq<PathMap>, m: PathMap, i: int, p: int)
    requires
        0 <= i < maps.len(),
        maps[i] == m,
        st_sorted(before),
        dedup_ok(maps, before, i),
        0 <= p <= before.len(),
        forall|q: int| 0 <= q < p ==> st_less((#[trigger] before[q]).level, m.level),
        p < before.len() ==> !st_less(before[p].level, m.level) && !same_st(before[p].level, m.level),
        out == before.insert(p, m),
    ensures
        dedup_ok(maps, out, i + 1),
{
    assert forall|q: int| 0 <= q < before.len() implies !same_st(#[trigger] before[q].level, m.level) by {
        if q < p {
            if same_st(before[q].level, m.level) {
                lemma_st_same_not_less(before[q].level, m.level);
            }
        } else if q > p {
            if !st_less(m.level, before[p].level) {
                lemma_st_total(before[p].level, m.level);
            }
            assert(st_less(before[p].level, before[q].level));
            lemma_st_trans(m.level, before[p].level, before[q].level);
            if same_st(before[q].level, m.level) {
                lemma_st_same_not_less(before[q].level, m.level);
            }
        }
    }
    assert forall|j: int| 0 <= j < i + 1 implies covered(out, #[trigger] maps[j]) by {
        if j < i {
            let k = choose|k: int| 0 <= k < before.len() && same_st(maps[j].level, #[trigger] before[k].level)
                && before[k].path.path().len() <= maps[j].path.path().len();
            if k < p {
                assert(out[k] == before[k]);
            } else {
                assert(out[k + 1] == before[k]);
            }
        } else {
            assert(out[p] == m);
        }
    }
    assert forall|k: int, j: int| 0 <= k < out.len() && 0 <= j < i + 1 && same_st((#[trigger] out[k]).level, (#[trigger] maps[j]).level)
        implies out[k].path.path().len() <= maps[j].path.path().len() by {
        if k == p {
            if j < i {
                let q = choose|q: int| 0 <= q < before.len() && same_st(maps[j].level, #[trigger] before[q].level)
                    && before[q].path.path().len() <= maps[j].path.path().len();
                assert(same_st(before[q].level, m.level));
            }
        } else {
            let bk = if k < p { k } else { k - 1 };
            assert(out[k] == before[bk]);
            if j == i {
                assert(!same_st(before[bk].level, m.level));
            }
        }
    }
}

/// One map for each state of `maps`, a shortest one (the first-come among equally short
/// ones), in the order of the states.
pub(crate) fn dedup_states(maps: &Vec<PathMap>) -> (r: Vec<PathMap>)
    ensures
        forall|k: int| 0 <= k < r@.len() ==> maps@.contains(#[trigger] r@[k]),
        forall|k: int, l: int| 0 <= k < l < r@.len() ==> !same_st((#[trigger] r@[k]).level, (#[trigger] r@[l]).level),
        st_sorted(r@),
        forall|i: int| 0 <= i < maps@.len() ==> covered(r@, #[trigger] maps@[i]),
        forall|k: int, i: int| 0 <= k < r@.len() && 0 <= i < maps@.len() && same_st((#[trigger] r@[k]).level, (#[trigger] maps@[i]).level)
            ==> r@[k].path.path().len() <= maps@[i].path.path().len(),
{
    let mut out: Vec<PathMap> = Vec::new();
    let mut i: usize = 0;
    while i < maps.len()
        invariant
            i <= maps@.len(),
            forall|k: int| 0 <= k < out@.len() ==> maps@.contains(#[trigger] out@[k]),
            st_sorted(out@),
            dedup_ok(maps@, out@, i as int),
        decreases maps@.len() - i,
    {
        let m = maps[i];
        let mut p: usize = 0;
        while p < out.len() && state_before(&out[p].level, &m.level)
            invariant
                p <= out@.len(),
                forall|q: int| 0 <= q < p ==> st_less((#[trigger] out@[q]).level, m.level),
            decreases out@.len() - p,
        {
            p = p + 1;
        }
        let ghost before = out@;
        if p < out.len() && out[p].level.same_state(&m.level) {
            if m.path.len() < out[p].path.len() {
                out.set(p, m);
            }
            proof {
                lemma_dedup_same(maps@, before, out@, m, i as int, p as int);
                assert forall|k: int, l: int| 0 <= k < l < out@.len() implies st_less((#[trigger] out@[k]).level, (#[trigger] out@[l]).level) by {
                    assert(st_less(before[k].level, before[l].level));
                }
            }
        } else {
            out.insert(p, m);
            proof {
                lemma_dedup_new(maps@, before, out@, m, i as int, p as int);
                assert forall|k: int, l: int| 0 <= k < l < out@.len() implies st_less((#[trigger] out@[k]).level, (#[trigger] out@[l]).level) by {
                    if p < before.len() {
                        assert(!st_less(before[p as int].level, m.level));
                        if !st_less(m.level, before[p as int].level) {
                            lemma_st_total(before[p as int].level, m.level);
                        }
                    }
                    if l < p {
                        assert(out@[k] == before[k] && out@[l] == before[l]);
                    } else if l == p {
                        assert(out@[k] == before[k]);
                    } else if k == p {
                        assert(out@[l] == before[l - 1]);
                        if l - 1 > p {
                            assert(st_less(before[p as int].level, before[l - 1].level));
                            lemma_st_trans(m.level, before[p as int].level, before[l - 1].level);
                        }
                    } else if k < p {
                        assert(out@[k] == before[k] && out@[l] == before[l - 1]);
                        if p < before.len() {
                            assert(st_less(before[k].level, m.level));
                            if l - 1 > p {
                                assert(st_less(before[p as int].level, before[l - 1].level));
                                lemma_st_trans(m.level, before[p as int].level, before[l - 1].level);
                            }
                            lemma_st_trans(before[k].level, m.level, before[l - 1].level);
                        }
                    } else {
                        assert(out@[k] == before[k - 1] && out@[l] == before[l - 1]);
                    }
                }
            }
        }
        proof {
            assert forall|k: int| 0 <= k < out@.len() implies maps@.contains(#[trigger] out@[k]) by {
                if out@[k] != m {
                    assert(before.contains(out@[k]));
                } else {
                    assert(maps@[i as int] == m);
                }
            }
        }
        i = i + 1;
    }
    proof {
        assert forall|k: int, l: int| 0 <= k < l < out@.len() implies !same_st((#[trigger] out@[k]).level, (#[trigger] out@[l]).level) by {
            assert(st_less(out@[k].level, out@[l].level));
            if same_st(out@[k].level, out@[l].level) {
                lemma_st_same_not_less(out@[k].level, out@[l].level);
            }
        }
    }
    out
}

/// The moves `ms` solve the level `v`, pushing a box `d` times.
pub open spec fn solves_pushing(v: LevelView, ms: Seq<Move>, d: nat) -> bool {
    exists|s: SpLevel, fin: SpLevel| starts(v, s) && #[trigger] plays_pushing(s, solve_base(v), ms, fin, d)
        && fin.blocks() == v.win_data
}

/// `text` is the text of moves, `n` of them, that solve the level `v`, pushing a box `d`
/// times.
pub open spec fn found_solution(v: LevelView, text: Seq<char>, n: int, d: int) -> bool {
    exists|ms: Seq<Move>| #[trigger] solves(v, ms) && solves_pushing(v, ms, d as nat) && ms.len() == n && text == moves_text(ms)
}

/// Every map of the list is reached from `start`.
pub open spec fn all_reached(start: SpLevel, b: LevelView, maps: Seq<PathMap>) -> bool {
    forall|t: int| 0 <= t < maps.len() ==> reached(start, b, #[trigger] maps[t])
}

/// `chunk` is what `complete_solve_2` gives from `m`: the new states of the pushes worth
/// trying of a walk map of `m`, in order.
#[verifier::opaque]
pub open spec fn pushes_of(b: LevelView, m: PathMap, chunk: Seq<PathMap>) -> bool {
    exists|pnm: PathNodeMap| flooded(m.level, b, pnm, false) && #[trigger] made_all(m, pnm, chunk, false, m.depth)
}

/// The maps of `c`, in order, made in fewer than `max` moves.
pub open spec fn shorter(c: Seq<PathMap>, max: int) -> Seq<PathMap>
    decreases c.len(),
{
    if c.len() == 0 {
        Seq::empty()
    } else if c.last().path.path().len() < max {
        shorter(c.drop_last(), max).push(c.last())
    } else {
        shorter(c.drop_last(), max)
    }
}

/// The maps of the chunks made in fewer than `max` moves, chunk after chunk.
pub open spec fn joined_shorter(cs: Seq<Seq<PathMap>>, max: int) -> Seq<PathMap>
    decreases cs.len(),
{
    if cs.len() == 0 {
        Seq::empty()
    } else {
        joined_shorter(cs.drop_last(), max) + shorter(cs.last(), max)
    }
}

/// Appends the maps of `chunk` made in fewer than `max_moves` moves, in order.
fn append_shorter(maps: &mut Vec<PathMap>, chunk: &Vec<PathMap>, max_moves: u16)
    ensures
        final(maps)@ == old(maps)@ + shorter(chunk@, max_moves as int),
        forall|t: int| 0 <= t < shorter(chunk@, max_moves as int).len() ==>
            chunk@.contains(#[trigger] shorter(chunk@, max_moves as int)[t])
            && shorter(chunk@, max_moves as int)[t].path.path().len() < max_moves,
{
    let ghost before = maps@;
    let mut k: usize = 0;
    assert(chunk@.take(0) =~= Seq::<PathMap>::empty());
    assert(before + shorter(chunk@.take(0), max_moves as int) =~= before);
    while k < chunk.len()
        invariant
            k <= chunk@.len(),
            maps@ == before + shorter(chunk@.take(k as int), max_moves as int),
            forall|t: int| 0 <= t < shorter(chunk@.take(k as int), max_moves as int).len() ==>
                chunk@.contains(#[trigger] shorter(chunk@.take(k as int), max_moves as int)[t])
                && shorter(chunk@.take(k as int), max_moves as int)[t].path.path().len() < max_moves,
        decreases chunk@.len() - k,
    {
        let c = chunk[k];
        let ghost prev = shorter(chunk@.take(k as int), max_moves as int);
        assert(chunk@.take(k + 1).drop_last() =~= chunk@.take(k as int));
        assert(chunk@.take(k + 1).last() == c);
        if c.path.len() < max_moves {
            maps.push(c);
        }
        proof {
            let nxt = shorter(chunk@.take(k + 1), max_moves as int);
            assert(maps@ =~= before + nxt);
            assert forall|t: int| 0 <= t < nxt.len() implies chunk@.contains(#[trigger] nxt[t])
                && nxt[t].path.path().len() < max_moves by {
                if t < prev.len() {
                    assert(nxt[t] == prev[t]);
                } else {
                    assert(nxt[t] == chunk@[k as int]);
                }
            }
        }
        k = k + 1;
    }
    assert(chunk@.take(chunk@.len() as int) =~= chunk@);
}

/// The new states of every push worth trying from the maps of `mapsr`, made in fewer than
/// `max_moves` moves: for each map in turn, those of its walk map, in order.
#[verifier::spinoff_prover]
#[verifier::rlimit(80)]
fn next_maps(mapsr: &Vec<PathMap>, base_level: &Level, max_moves: u16, Ghost(start): Ghost<SpLevel>, Ghost(d): Ghost<nat>) -> (maps: Vec<PathMap>)
    requires
        is_base_level(base_level@),
        all_reached(start, base_level@, mapsr@),
        all_pushing(start, base_level@, mapsr@, d),
        all_room(mapsr@),
    ensures
        all_reached(start, base_level@, maps@),
        all_pushing(start, base_level@, maps@, d + 1),
        all_room(maps@),
        maps@.len() <= 1024 * mapsr@.len(),
        succ_covered(mapsr@, base_level@, maps@, max_moves as int),
        forall|t: int| 0 <= t < maps@.len() ==> (#[trigger] maps@[t]).path.path().len() < max_moves,
        exists|cs: Seq<Seq<PathMap>>| cs.len() == mapsr@.len()
            && (forall|j: int| 0 <= j < cs.len() ==> pushes_of(base_level@, mapsr@[j], #[trigger] cs[j]))
            && maps@ == joined_shorter(cs, max_moves as int),
{
    let ghost b = base_level@;
    let mut maps: Vec<PathMap> = Vec::new();
    let ghost mut cs: Seq<Seq<PathMap>> = Seq::empty();
    let mut i: usize = 0;
    while i < mapsr.len()
        invariant
            is_base_level(b),
            b == base_level@,
            all_reached(start, b, mapsr@),
            all_pushing(start, b, mapsr@, d),
            all_room(mapsr@),
            i <= mapsr@.len(),
            all_reached(start, b, maps@),
            all_pushing(start, b, maps@, d + 1),
            all_room(maps@),
            maps@.len() <= 1024 * i,
            succ_covered(mapsr@.take(i as int), b, maps@, max_moves as int),
            forall|t: int| 0 <= t < maps@.len() ==> (#[trigger] maps@[t]).path.path().len() < max_moves,
            cs.len() == i,
            forall|j: int| 0 <= j < cs.len() ==> pushes_of(b, mapsr@[j], #[trigger] cs[j]),
            maps@ == joined_shorter(cs, max_moves as int),
        decreases mapsr@.len() - i,
    {
        let m = mapsr[i];
        assert(reached(start, b, mapsr@[i as int]));
        let mut chunk: Vec<PathMap> = Vec::new();
        m.complete_solve_2(base_level, &mut chunk);
        proof {
            let pnm = choose|pnm: PathNodeMap| flooded(m.level, b, pnm, false)
                && #[trigger] made_all(m, pnm, chunk@.subrange(0, chunk@.len() as int), false, m.depth);
            assert(chunk@.subrange(0, chunk@.len() as int) =~= chunk@);
            assert(pushes_of(b, m, chunk@)) by { reveal(pushes_of); }
            assert forall|t: int| 0 <= t < chunk@.len() implies reached(start, b, #[trigger] chunk@[t]) by {
                lemma_successor_reached(start, b, m, pnm, chunk@, t);
            }
            assert(plays_pushing(start, b, mapsr@[i as int].path.path(), mapsr@[i as int].level, d));
            assert forall|t: int| 0 <= t < chunk@.len() implies plays_pushing(start, b, (#[trigger] chunk@[t]).path.path(), chunk@[t].level, d + 1) by {
                lemma_successor_pushing(start, b, m, pnm, chunk@, t, d);
            }
        }
        proof {
            assert(room_ok(mapsr@[i as int]));
            lemma_chunk_facts(b, m, chunk@);
        }
        let ghost before = maps@;
        append_shorter(&mut maps, &chunk, max_moves);
        proof {
            let sh = shorter(chunk@, max_moves as int);
            lemma_append_covered(b, mapsr@.take(i as int), m, before, chunk@, maps@, max_moves as int, i as int);
            assert(mapsr@.take(i + 1) =~= mapsr@.take(i as int).push(m));
            assert forall|t: int| 0 <= t < maps@.len() implies reached(start, b, #[trigger] maps@[t])
                && maps@[t].path.path().len() < max_moves
                && plays_pushing(start, b, maps@[t].path.path(), maps@[t].level, d + 1) by {
                if t < before.len() {
                    assert(maps@[t] == before[t]);
                } else {
                    assert(maps@[t] == sh[t - before.len()]);
                    assert(chunk@.contains(sh[t - before.len()]));
                    let u = choose|u: int| 0 <= u < chunk@.len() && chunk@[u] == sh[t - before.len()];
                    assert(reached(start, b, chunk@[u]));
                    assert(plays_pushing(start, b, chunk@[u].path.path(), chunk@[u].level, d + 1));
                }
            }
        }
        proof {
            let ncs = cs.push(chunk@);
            assert(ncs.drop_last() =~= cs);
            assert forall|j: int| 0 <= j < ncs.len() implies pushes_of(b, mapsr@[j], #[trigger] ncs[j]) by {
                if j < cs.len() {
                    assert(ncs[j] == cs[j]);
                }
            }
            cs = ncs;
        }
        i = i + 1;
    }
    assert(mapsr@.take(mapsr@.len() as int) =~= mapsr@);
    maps
}

/// The map's state was not seen before in as few moves.
pub open spec fn beats_seen(seen: Seq<(SpLevel, u16)>, m: PathMap) -> bool {
    match seen_moves(seen, m.level) {
        Some(v) => v > m.path.path().len(),
        None => true,
    }
}

/// The maps of `maps`, in order, whose state was not seen before in as few moves.
pub open spec fn unseen(maps: Seq<PathMap>, seen: Seq<(SpLevel, u16)>) -> Seq<PathMap>
    decreases maps.len(),
{
    if maps.len() == 0 {
        Seq::empty()
    } else if beats_seen(seen, maps.last()) {
        unseen(maps.drop_last(), seen).push(maps.last())
    } else {
        unseen(maps.drop_last(), seen)
    }
}

/// The maps whose state was not seen before in as few moves.
pub(crate) fn drop_seen(maps: &Vec<PathMap>, seen: &Vec<(SpLevel, u16)>) -> (r: Vec<PathMap>)
    ensures
        r@ == unseen(maps@, seen@),
        forall|k: int| 0 <= k < r@.len() ==> maps@.contains(#[trigger] r@[k]),
        forall|k: int| 0 <= k < r@.len() ==> (seen_moves(seen@, (#[trigger] r@[k]).level) matches Some(v)
            ==> v > r@[k].path.path().len()),
{
    let mut out: Vec<PathMap> = Vec::new();
    let mut i: usize = 0;
    while i < maps.len()
        invariant
            i <= maps@.len(),
            out@ == unseen(maps@.take(i as int), seen@),
            forall|k: int| 0 <= k < out@.len() ==> maps@.contains(#[trigger] out@[k]),
            forall|k: int| 0 <= k < out@.len() ==> (seen_moves(seen@, (#[trigger] out@[k]).level) matches Some(v)
                ==> v > out@[k].path.path().len()),
        decreases maps@.len() - i,
    {
        let m = maps[i];
        assert(maps@.take(i + 1).drop_last() =~= maps@.take(i as int));
        assert(maps@.take(i + 1).last() == m);
        let keep = match seen_lookup(seen, &m.level) {
            Some(v) => !(v <= m.path.len()),
            None => true,
        };
        if keep {
            let ghost before = out@;
            out.push(m);
            proof {
                assert forall|k: int| 0 <= k < out@.len() implies maps@.contains(#[trigger] out@[k]) by {
                    if k < before.len() {
                        assert(out@[k] == before[k]);
                    } else {
                        assert(maps@[i as int] == out@[k]);
                    }
                }
            }
        }
        i = i + 1;
    }
    assert(maps@.take(maps@.len() as int) =~= maps@);
    out
}

/// Maps drawn from a list of reached maps are reached.
pub proof fn lemma_sub_reached(start: SpLevel, b: LevelView, from: Seq<PathMap>, maps: Seq<PathMap>)
    requires
        all_reached(start, b, from),
        forall|k: int| 0 <= k < maps.len() ==> from.contains(#[trigger] maps[k]),
    ensures
        all_reached(start, b, maps),
{
    assert forall|t: int| 0 <= t < maps.len() implies reached(start, b, #[trigger] maps[t]) by {
        assert(from.contains(maps[t]));
        let u = choose|u: int| 0 <= u < from.len() && from[u] == maps[t];
        assert(reached(start, b, from[u]));
    }
}

/// The search starts well: its base level holds only spaces, holes and walls, and its
/// first state is the level's start, reached by no move.
pub proof fn lemma_start(v: LevelView, l1: LevelView, b: LevelView, m: PathMap)
    requires
        solvable_input(v),
        l1 == human_cleared(v),
        b == l1.with_data(l1.boxes_cleared()),
        m.level.w == l1.w as i8,
        m.level.h == l1.h as i8,
        m.level.hx() == l1.human_pos.0 as i8,
        m.level.hy() == l1.human_pos.1 as i8,
        packs(m.level.blocks(), l1.data, false),
        m.path.path() == Seq::<Move>::empty(),
        m.path.consistent(),
    ensures
        b == solve_base(v),
        is_base_level(b),
        b.win_data == v.win_data,
        starts(v, m.level),
        reached(m.level, b, m),
{
    let w = v.w as int;
    let h = v.h as int;
    let hp = v.human_pos;
    let c = cell_index(w, hp);
    assert(0 <= c < w * h) by (nonlinear_arith)
        requires 0 <= hp.0 < w, 0 <= hp.1 < h, c == hp.0 + hp.1 * w;
    assert forall|i: int| 0 <= i < b.data.len() implies is_base_obj(#[trigger] b.data[i]) by {
        if i != c {
            assert(v.data[i] != Obj::Human && v.data[i] != Obj::HumanInHole);
        }
    }
    assert forall|i: int| 0 <= i < 256 implies #[trigger] bitmap_bit(m.level.blocks(), i)
        == (i < v.data.len() && crate::level::pack_pred(false, v.data[i])) by {
        if 0 <= i < v.data.len() && i != c {
            assert(l1.data[i] == v.data[i]);
        }
    }
    assert(m.level.bit_index(human_cell(m.level)) == c);
    lemma_plays_none(m.level, b);
}

/// The base level of a level the search works on holds only spaces, holes and walls.
pub proof fn lemma_base_ok(v: LevelView)
    requires
        solvable_input(v),
    ensures
        is_base_level(solve_base(v)),
{
    let b = solve_base(v);
    let w = v.w as int;
    let h = v.h as int;
    let hp = v.human_pos;
    let c = cell_index(w, hp);
    assert(0 <= c < w * h) by (nonlinear_arith)
        requires 0 <= hp.0 < w, 0 <= hp.1 < h, c == hp.0 + hp.1 * w;
    assert forall|i: int| 0 <= i < b.data.len() implies is_base_obj(#[trigger] b.data[i]) by {
        if i != c {
            assert(v.data[i] != Obj::Human && v.data[i] != Obj::HumanInHole);
        }
    }
}

/// Every box of the level stands in a hole and every hole holds a box: the level is won
/// as it stands.
pub open spec fn boxes_home(v: LevelView) -> bool {
    forall|i: int| 0 <= i < v.data.len() ==> #[trigger] is_box_obj(v.data[i]) == is_hole_obj(v.data[i])
}

/// When the level is won as it stands, its first search state has the boxes on the holes.
proof fn lemma_start_won(v: LevelView, l1: LevelView, start: SpLevel)
    requires
        solvable_input(v),
        boxes_home(v),
        l1 == human_cleared(v),
        packs(start.blocks(), l1.data, false),
    ensures
        start.blocks() == v.win_data,
{
    let c = cell_index(v.w as int, v.human_pos);
    assert(0 <= c < v.w * v.h) by (nonlinear_arith)
        requires 0 <= v.human_pos.0 < v.w, 0 <= v.human_pos.1 < v.h, c == v.human_pos.0 + v.human_pos.1 * v.w;
    assert forall|i: int| 0 <= i < 256 implies #[trigger] bitmap_bit(start.blocks(), i) == bitmap_bit(v.win_data, i) by {
        if 0 <= i < v.data.len() {
            assert(is_box_obj(v.data[i]) == is_hole_obj(v.data[i]));
            if i != c {
                assert(l1.data[i] == v.data[i]);
            }
        }
    }
    crate::level::lemma_bitmaps_equal(start.blocks(), v.win_data);
}

/// The next layer of the search: the states met so far are noted (while there are fewer
/// than `4 * max_maps` of them), then the new states of every push worth trying from the
/// layer, made in fewer than `max_moves` moves, sorted out from the third layer on, rid of
/// the states met before in as few moves.
#[verifier::spinoff_prover]
#[verifier::rlimit(60)]
fn next_layer(mapsr: &Vec<PathMap>, base_level: &Level, max_moves: u16, non_contenders: &mut Vec<(SpLevel, u16)>,
    max_maps: usize, depth: u16, Ghost(start): Ghost<SpLevel>, Ghost(layers): Ghost<Seq<Seq<PathMap>>>) -> (kept: Vec<PathMap>)
    requires
        is_base_level(base_level@),
        all_reached(start, base_level@, mapsr@),
        all_pushing(start, base_level@, mapsr@, depth as nat),
        all_room(mapsr@),
        max_maps <= usize::MAX / 4,
        layers.len() == depth + 1,
        layers[depth as int] == mapsr@,
        layers_fit(layers, base_level@),
        closed_below(layers, depth as int, base_level@, max_moves as int),
        wins_counted(layers, depth + 1, base_level@, max_moves as int),
        seen_ok(old(non_contenders)@, layers, depth as int),
    ensures
        all_reached(start, base_level@, kept@),
        all_pushing(start, base_level@, kept@, depth as nat + 1),
        all_room(kept@),
        forall|t: int| 0 <= t < kept@.len() ==> (#[trigger] kept@[t]).path.path().len() < max_moves,
        seen_ok(final(non_contenders)@, layers.push(kept@), depth + 1),
        closed_below(layers.push(kept@), depth + 1, base_level@, max_moves as int),
        layers_fit(layers.push(kept@), base_level@),
        wins_counted(layers.push(kept@), depth + 1, base_level@, max_moves as int),
        kept@.len() == 0 ==> wins_counted(layers.push(kept@), depth + 2, base_level@, max_moves as int),
        depth < 2 ==> kept@.len() <= 1024 * mapsr@.len(),
        depth >= 2 ==> st_sorted(kept@),
{
    let ghost b = base_level@;
    // states met so far
    if non_contenders.len() < max_maps * 4 {
        let mut i: usize = 0;
        while i < mapsr.len()
            invariant
                i <= mapsr@.len(),
                layers.len() == depth + 1,
                layers[depth as int] == mapsr@,
                seen_ok(non_contenders@, layers, depth as int),
            decreases mapsr@.len() - i,
        {
            let m = mapsr[i];
            let ghost before = non_contenders@;
            seen_insert(non_contenders, m.level, m.path.len());
            proof {
                reveal(seen_ok);
                assert forall|s: SpLevel| (#[trigger] seen_moves(non_contenders@, s)) is Some
                    implies in_layers(layers, depth as int, s, seen_moves(non_contenders@, s)->0 as int) by {
                    if same_st(s, m.level) {
                        assert(layers[depth as int][i as int] == m);
                        assert(same_st(layers[depth as int][i as int].level, s));
                    } else {
                        assert(seen_moves(before, s) == seen_moves(non_contenders@, s));
                    }
                }
            }
            i = i + 1;
        }
    }
    // next key moves
    let mut maps = next_maps(mapsr, base_level, max_moves, Ghost(start), Ghost(depth as nat));
    let ghost raw = maps@;
    if depth >= 2 {
        let deduped = dedup_states(&maps);
        proof {
            lemma_sub_reached(start, b, maps@, deduped@);
            lemma_sub_pushing(start, b, maps@, deduped@, depth as nat + 1);
            lemma_sub_kept(maps@, deduped@, max_moves as int);
        }
        maps = deduped;
    } else {
        assert forall|k: int| 0 <= k < raw.len() implies covered(raw, #[trigger] raw[k]) by {
            assert(same_st(raw[k].level, raw[k].level));
        }
    }
    let kept = drop_seen(&maps, &non_contenders);
    proof {
        lemma_sub_reached(start, b, maps@, kept@);
        lemma_sub_pushing(start, b, maps@, kept@, depth as nat + 1);
        lemma_sub_kept(maps@, kept@, max_moves as int);
        lemma_unseen_sorted(maps@, non_contenders@);
        lemma_new_layer(layers, b, raw, maps@, kept@, non_contenders@, max_moves as int, depth as int);
        lemma_close_layer(layers, b, kept@, max_moves as int, depth as int);
        lemma_layer_fit(layers, b, start, kept@, depth as int + 1);
        lemma_wins_ext(layers, b, kept@, depth as int + 1, max_moves as int);
    }
    proof {
        reveal(seen_ok);
        assert forall|s: SpLevel| (#[trigger] seen_moves(non_contenders@, s)) is Some
            implies in_layers(layers.push(kept@), depth + 1, s, seen_moves(non_contenders@, s)->0 as int) by {
            let vv = seen_moves(non_contenders@, s)->0;
            lemma_in_layers_ext(layers, kept@, depth as int, depth + 1, s, vv as int, vv as int);
        }
    }
    kept
}

/// Solves a level by a breadth-first search over pushes, depth by depth, for a solution of
/// at most `max_moves_requested` moves; the search also stops when a depth has more than
/// `max_maps` states. A state already met in as few moves is not searched again. Every
/// solution returned solves the level in the number of moves it gives. When the search
/// stays within `max_maps` states a depth, it misses no solution by key moves (walks, each
/// followed by a push worth trying) of at most `max_moves_requested` moves and at most 256
/// (what a path holds), and the solution it returns is a shortest such solution. As every
/// solution begins with one by key moves (see `deadlock`), the same holds of all solutions,
/// and of all ways to win a game of a level with as many boxes as holes (see `replay`);
/// a solution returned, replayed in a game, is accepted move by move and wins.
#[verifier::spinoff_prover]
#[verifier::rlimit(100)]
pub fn solve_level(base_level_in: &Level, max_moves_requested: u16, max_maps: usize) -> (r: Option<Solution>)
    requires
        solvable_input(base_level_in@),
        max_moves_requested < u16::MAX,
        max_maps <= usize::MAX / 4,
    ensures
        r matches Some(sol) ==> sol.moves <= max_moves_requested
            && found_solution(base_level_in@, sol.path@, sol.moves as int, sol.depth as int),
        boxes_home(base_level_in@) ==> (r matches Some(sol) && sol.moves == 0 && sol.depth == 0
            && sol.path@ == Seq::<char>::empty()),
        within_limit(base_level_in@, max_moves_requested as int, max_maps as int) ==> (
            (exists|ms: Seq<Move>| #[trigger] key_solves(base_level_in@, ms) && ms.len() <= max_moves_requested
                && ms.len() <= 256) ==> r is Some),
        within_limit(base_level_in@, max_moves_requested as int, max_maps as int) ==> (
            r matches Some(sol) ==> forall|ms: Seq<Move>| #[trigger] key_solves(base_level_in@, ms) ==> sol.moves <= ms.len()),
        within_limit(base_level_in@, max_moves_requested as int, max_maps as int) ==> (
            (exists|ms: Seq<Move>| #[trigger] solves(base_level_in@, ms) && ms.len() <= max_moves_requested
                && ms.len() <= 256) ==> r is Some),
        within_limit(base_level_in@, max_moves_requested as int, max_maps as int) ==> (
            r matches Some(sol) ==> forall|ms: Seq<Move>| #[trigger] solves(base_level_in@, ms) ==> sol.moves <= ms.len()),
        within_limit(base_level_in@, max_moves_requested as int, max_maps as int)
            && count_boxes(base_level_in@.data) == count_holes(base_level_in@.data) ==> (
            (exists|ms: Seq<Move>| #[trigger] game_wins(base_level_in@, ms) && ms.len() <= max_moves_requested
                && ms.len() <= 256) ==> r is Some),
        within_limit(base_level_in@, max_moves_requested as int, max_maps as int)
            && count_boxes(base_level_in@.data) == count_holes(base_level_in@.data) ==> (
            r matches Some(sol) ==> forall|ms: Seq<Move>| #[trigger] game_wins(base_level_in@, ms) ==> sol.moves <= ms.len()),
        r matches Some(sol) ==> exists|ms: Seq<Move>| #[trigger] game_wins(base_level_in@, ms) && ms.len() == sol.moves
            && moves_text(ms) == sol.path@ && replay_pushes(fresh_game(base_level_in@), ms) == sol.depth,
{
    let ghost v = base_level_in@;
    let ghost mr = max_moves_requested as int;
    let mut max_moves: u16 = max_moves_requested + 1;
    let base_level1 = base_level_in.clear_human_cloned();
    assert(base_level1@.data.len() == v.data.len()) by {
        let hp = v.human_pos;
        assert(cell_index(v.w as int, hp) < v.w * v.h) by (nonlinear_arith)
            requires 0 <= hp.0 < v.w, 0 <= hp.1 < v.h;
    }
    let base_map = PathMap::new_from_level(&base_level1);
    let base_level = base_level1.clear_boxxes_cloned();
    let ghost b = base_level@;
    let ghost start = base_map.level;
    proof {
        lemma_start(v, base_level1@, b, base_map);
        if boxes_home(v) {
            lemma_start_won(v, base_level1@, base_map.level);
        }
    }
    let ghost won0 = boxes_home(v);
    let mut non_contenders: Vec<(SpLevel, u16)> = Vec::new();
    let mut mapsr: Vec<PathMap> = Vec::new();
    mapsr.push(base_map);
    assert(mapsr@[0] == base_map);
    let ghost mut layers: Seq<Seq<PathMap>> = seq![mapsr@];
    let ghost mut cut = false;
    let ghost mut nc: int = 0;
    let ghost mut nw: int = 0;
    proof {
        lemma_pushing_none(start, b);
        assert(all_pushing(start, b, mapsr@, 0));
        assert(mapsr@ =~= seq![base_map]);
        assert(room_ok(base_map));
        assert(layers =~= seq![seq![base_map]]);
        assert(non_contenders@ =~= Seq::<(SpLevel, u16)>::empty());
        lemma_search_start(base_map, b, max_moves as int);
    }
    let mut have_solution = false;
    let mut best_path = String::new();
    let mut best_depth: u16 = 0;
    let mut depth: u16 = 0;
    while depth < max_moves
        invariant_except_break
            layers.len() == depth + 1,
            layers[depth as int] == mapsr@,
            !cut,
            nc == depth,
            nw == depth,
            seen_ok(non_contenders@, layers, depth as int),
            wins_counted(layers, depth as int, b, max_moves as int),
            closed_below(layers, depth as int, b, max_moves as int),
        invariant
            v == base_level_in@,
            mr == max_moves_requested,
            b == base_level@,
            b == solve_base(v),
            is_base_level(b),
            b.win_data == v.win_data,
            solvable_input(v),
            starts(v, start),
            base_map.level == start,
            base_map.path.path().len() == 0,
            all_reached(start, b, mapsr@),
            all_pushing(start, b, mapsr@, depth as nat),
            all_room(mapsr@),
            max_moves <= max_moves_requested + 1,
            max_maps <= usize::MAX / 4,
            have_solution ==> max_moves <= max_moves_requested && found_solution(v, best_path@, max_moves as int, best_depth as int),
            won0 ==> start.blocks() == b.win_data,
            won0 ==> (depth == 0 && !have_solution && mapsr@ == seq![base_map] && max_moves == max_moves_requested + 1)
                || (have_solution && max_moves == 0 && best_depth == 0 && best_path@ == Seq::<char>::empty()),
            layers[0] == seq![base_map],
            layers_fit(layers, b),
            !have_solution ==> max_moves == max_moves_requested + 1,
            have_solution ==> max_moves <= 256,
            depth == 0 ==> mapsr@.len() == 1,
            depth == 1 ==> mapsr@.len() <= 1024,
        ensures
            have_solution ==> max_moves <= max_moves_requested && found_solution(v, best_path@, max_moves as int, best_depth as int),
            won0 ==> have_solution && max_moves == 0 && best_depth == 0 && best_path@ == Seq::<char>::empty(),
            layers.len() >= 1,
            layers[0] == seq![base_map],
            layers_fit(layers, b),
            wins_counted(layers, nw, b, max_moves as int),
            !cut ==> (nw >= layers.len() || nw >= max_moves),
            cut ==> !within_limit(v, mr, max_maps as int),
            !cut ==> closed_below(layers, nc, b, max_moves as int) && (nc >= layers.len() || nc >= max_moves),
            !have_solution ==> max_moves == max_moves_requested + 1,
            have_solution ==> max_moves <= 256,
        decreases max_moves - depth,
    {
        // solution check
        let ghost m0 = max_moves;
        let mut i: usize = 0;
        while i < mapsr.len()
            invariant
                max_moves <= m0,
                v == base_level_in@,
                b == base_level@,
                b == solve_base(v),
                b.win_data == v.win_data,
                starts(v, start),
                all_reached(start, b, mapsr@),
                all_pushing(start, b, mapsr@, depth as nat),
                all_room(mapsr@),
                i <= mapsr@.len(),
                max_moves <= max_moves_requested + 1,
                have_solution ==> max_moves <= max_moves_requested && found_solution(v, best_path@, max_moves as int, best_depth as int),
                won0 ==> start.blocks() == b.win_data && base_map.level == start && base_map.path.path().len() == 0,
                won0 ==> (depth == 0 && i == 0 && !have_solution && mapsr@ == seq![base_map] && max_moves == max_moves_requested + 1)
                    || (have_solution && max_moves == 0 && best_depth == 0 && best_path@ == Seq::<char>::empty()),
                !have_solution ==> max_moves == max_moves_requested + 1,
                have_solution ==> max_moves <= 256,
                closed_below(layers, depth as int, b, max_moves as int),
                wins_counted(layers, depth as int, b, max_moves as int),
                forall|k: int| 0 <= k < i && (#[trigger] mapsr@[k]).level.blocks() == b.win_data
                    ==> max_moves <= mapsr@[k].path.path().len(),
            decreases mapsr@.len() - i,
        {
            let m = mapsr[i];
            assert(reached(start, b, mapsr@[i as int]));
            assert(room_ok(mapsr@[i as int]));
            if m.level.have_win_condition(&base_level) && m.path.len() < max_moves {
                proof {
                    lemma_search_mono(layers, depth as int, depth as int, b, max_moves as int, m.path.path().len() as int);
                }
                have_solution = true;
                max_moves = m.path.len();
                best_depth = depth;
                best_path = m.path.to_string();
                proof {
                    if won0 && max_moves == 0 {
                        assert(moves_text(m.path.path()) =~= Seq::<char>::empty());
                    }
                    assert(solves(v, m.path.path()));
                    assert(plays_pushing(start, b, mapsr@[i as int].path.path(), mapsr@[i as int].level, depth as nat));
                    assert(solves_pushing(v, m.path.path(), depth as nat));
                }
            }
            i = i + 1;
        }
        proof {
            assert forall|t: int| 0 <= t < layers[depth as int].len() && (#[trigger] layers[depth as int][t]).level.blocks() == b.win_data
                implies max_moves <= layers[depth as int][t].path.path().len() by {
                assert(layers[depth as int][t] == mapsr@[t]);
            }
            lemma_wins_next(layers, depth as int, b, max_moves as int);
        }
        if depth >= max_moves {
            proof { nw = depth + 1; }
            break;
        }
        let kept = next_layer(&mapsr, &base_level, max_moves, &mut non_contenders, max_maps, depth,
            Ghost(start), Ghost(layers));
        if kept.len() == 0 {
            proof {
                lemma_closed_empty_last(layers.push(kept@), depth + 1, b, max_moves as int);
                layers = layers.push(kept@);
                nc = layers.len() as int;
                nw = layers.len() as int;
            }
            break;
        }
        if kept.len() > max_maps {
            proof {
                cut = true;
                if depth >= 2 {
                    lemma_many(v, start, kept@, mr, max_maps as int);
                } else {
                    assert(kept@.len() <= 1024 * 1024) by (nonlinear_arith)
                        requires kept@.len() <= 1024 * mapsr@.len(), mapsr@.len() <= 1024;
                }
            }
            break;
        }
        proof {
            layers = layers.push(kept@);
            nc = depth + 1;
            nw = depth + 1;
        }
        mapsr = kept;
        depth = depth + 1;
    }
    proof {
        if within_limit(v, mr, max_maps as int) {
            assert forall|ms: Seq<Move>| #[trigger] key_solves(v, ms) && ms.len() <= 256 implies max_moves <= ms.len() by {
                lemma_search_complete(v, layers, nc, nw, max_moves as int, ms);
            }
        }
    }
    proof {
        if have_solution {
            crate::replay::lemma_found_replays(v, best_path@, max_moves as int, best_depth as int);
        }
    }
    let res = if have_solution {
        Some(Solution { moves: max_moves, depth: best_depth, path: best_path })
    } else {
        None
    };
    proof {
        if within_limit(v, mr, max_maps as int) {
            assert(res matches Some(sol) ==> forall|ks: Seq<Move>| #[trigger] key_solves(v, ks) ==> sol.moves <= ks.len());
            assert forall|ms: Seq<Move>| #[trigger] solves(v, ms) && ms.len() <= 256 implies max_moves <= ms.len() by {
                let ks = crate::deadlock::lemma_solution_has_key_prefix(v, ms);
            }
            if have_solution {
                assert forall|ms: Seq<Move>| #[trigger] solves(v, ms) implies max_moves <= ms.len() by {
                    let ks = crate::deadlock::lemma_solution_has_key_prefix(v, ms);
                    assert(key_solves(v, ks));
                }
            }
            if count_boxes(v.data) == count_holes(v.data) {
                assert forall|ms: Seq<Move>| #[trigger] game_wins(v, ms) && ms.len() <= 256 implies max_moves <= ms.len() by {
                    crate::replay::lemma_game_win_solves(v, ms);
                    assert(solves(v, ms));
                }
                if have_solution {
                    assert forall|ms: Seq<Move>| #[trigger] game_wins(v, ms) implies max_moves <= ms.len() by {
                        crate::replay::lemma_game_win_solves(v, ms);
                        assert(solves(v, ms));
                    }
                }
            }
        }
    }
    res
}

/// A level's search state, put back on the level's base (the level without human and
/// boxes), gives the level's grid back: cell by cell, the object the state and the base
/// make is the level's object.
pub proof fn lemma_state_round_trip(v: LevelView, st: SpLevel)
    requires
        solvable_input(v),
        st.w == v.w as i8,
        st.h == v.h as i8,
        st.hx() == v.human_pos.0 as i8,
        st.hy() == v.human_pos.1 as i8,
        packs(st.blocks(), v.data, false),
    ensures
        forall|i: int| 0 <= i < v.data.len() ==>
            #[trigger] st.obj_at(Vector((i % v.w as int) as i32, (i / v.w as int) as i32), solve_base(v)) == v.data[i],
{
    let w = v.w as int;
    let h = v.h as int;
    let b = solve_base(v);
    let hp = v.human_pos;
    let hc = cell_index(w, hp);
    assert(0 <= hc < w * h) by (nonlinear_arith)
        requires 0 <= hp.0 < w, 0 <= hp.1 < h, hc == hp.0 + hp.1 * w;
    assert forall|i: int| 0 <= i < v.data.len() implies
        #[trigger] st.obj_at(Vector((i % w) as i32, (i / w) as i32), b) == v.data[i] by {
        let pt = Vector((i % w) as i32, (i / w) as i32);
        vstd::arithmetic::div_mod::lemma_fundamental_div_mod(i, w);
        assert(0 <= i % w < w);
        assert(0 <= i / w < h) by (nonlinear_arith)
            requires 0 <= i < w * h, w > 0, i == w * (i / w) + i % w, 0 <= i % w < w;
        assert(cell_index(w, pt) == i) by (nonlinear_arith)
            requires i == w * (i / w) + i % w, pt.0 == i % w, pt.1 == i / w;
        assert(st.bit_index(pt) == i);
        assert(bitmap_bit(st.blocks(), i) == is_box_obj(v.data[i]));
        if st.human_at(pt) {
            assert(pt.0 == hp.0 && pt.1 == hp.1);
            assert(i == hc);
        }
        if i == hc {
            assert(pt == hp) by (nonlinear_arith)
                requires i == hp.0 + hp.1 * w, pt.0 == i % w, pt.1 == i / w, 0 <= hp.0 < w, 0 <= hp.1,
                    i == w * (i / w) + i % w;
            assert(st.human_at(pt));
        } else {
            assert(v.data[i] != Obj::Human && v.data[i] != Obj::HumanInHole);
        }
    }
}

/// A level's search state made into a level again on the level's base (as `to_level`
/// makes it) is the level: the same grid and the same human.
pub proof fn lemma_level_round_trip(v: LevelView, st: SpLevel, r: LevelView)
    requires
        solvable_input(v),
        starts(v, st),
        r.data == Seq::new((st.w * st.h) as nat, |i: int|
            st.obj_at(Vector((i % st.w as int) as i32, (i / st.w as int) as i32), solve_base(v))),
        r.human_pos == Vector(st.hx() as i32, st.hy() as i32),
    ensures
        r.data == v.data,
        r.human_pos == v.human_pos,
{
    lemma_state_round_trip(v, st);
    assert(st.w * st.h == v.data.len());
    assert(r.data =~= v.data);
}

} // verus!

