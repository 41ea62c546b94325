//! Making levels backwards: starting from a level's solved position, boxes are pulled
//! away from the holes, depth by depth, and the positions that took the most pulls and
//! moves to reach become new levels.
use vstd::prelude::*;
use rand_chacha::ChaCha8Rng;
use crate::obj::Obj;
use crate::level::{Level, LevelView, SpLevel, human_cleared, cell_index, in_bounds, bitmap_bit, is_base_obj};
use crate::vector::Vector;
use crate::vector::{Move, PathTrait, move_rev, moves_to_string, moves_text};
use crate::pathnodemap::{PathMap, PathNodeMap, fits_base, is_base_level, flooded, made_all, fitting, push_made,
    pull_made, key_ok, push_ok, pull_ok, human_cell, pushed, pulled, lemma_keys_valid, lemma_cell_ok, walkable,
    walk_end, moved_human, play_step, plays, lemma_plays_none, lemma_plays_push, lemma_plays_concat};
use crate::level::CmpData;
use crate::game::is_free;
use crate::solve::{solvable_input, solve_base, lemma_start, dedup_states, same_st, seen_moves, seen_lookup,
    covered, starts, solves, pushes_of};
use crate::level::{packs, sp_obj, kv_get, kv_set, lemma_kv_get_set};
use crate::strutil::decimal;
use crate::generate::{select_unique_n_from, smallest_keys, smallest_first};
use crate::game::step;
use crate::strutil::u64_to_string;
use crate::boxcount::{lemma_boxes_are_bits, lemma_plays_bits, lemma_holes_are_bits, lemma_home_counts};
use crate::readback::count_holes;
use crate::level::{count_boxes, is_box_obj};
use crate::pullsearch::{every_other, halved_to, dedup_of, sifted, search_step, search_end, search_run, search_trace,
    keys_of, best_of, first_layer, searched_top, SearchState, lemma_halved_step, lemma_trace_push, lemma_trace_start};

verus! {

/// The boxes of a state stand inside the grid on spaces or holes of the base level, and
/// the human does not stand on a wall.
pub open spec fn layout_ok(s: SpLevel, b: LevelView) -> bool {
    &&& forall|i: int| 0 <= i < 256 && #[trigger] bitmap_bit(s.blocks(), i) ==> i < b.data.len() && is_free(b.data[i])
    &&& b.data[cell_index(b.w as int, human_cell(s))] != Obj::Wall
}

/// Every map of the list fits the base level and keeps its layout.
pub open spec fn all_fit(b: LevelView, maps: Seq<PathMap>) -> bool {
    forall|t: int| 0 <= t < maps.len() ==> fits_base((#[trigger] maps[t]).level, b) && layout_ok(maps[t].level, b)
}

/// The first state of a level keeps the layout of its base: its boxes stand where the level
/// has boxes, and the human where the level has it.
proof fn lemma_start_layout(v: LevelView, l1: LevelView, b: LevelView, s: SpLevel)
    requires
        solvable_input(v),
        l1 == human_cleared(v),
        b == l1.with_data(l1.boxes_cleared()),
        s.w == l1.w as i8,
        s.h == l1.h as i8,
        s.hx() == l1.human_pos.0 as i8,
        s.hy() == l1.human_pos.1 as i8,
        crate::level::packs(s.blocks(), l1.data, false),
    ensures
        layout_ok(s, b),
{
    let w = v.w as int;
    let h = v.h as int;
    let hp = v.human_pos;
    let c = cell_index(w, hp);
    assert(0 <= c < w * h) by (nonlinear_arith)
        requires 0 <= hp.0 < w, 0 <= hp.1 < h, c == hp.0 + hp.1 * w;
    assert(human_cell(s) == hp);
    assert forall|i: int| 0 <= i < 256 && #[trigger] bitmap_bit(s.blocks(), i) implies i < b.data.len() && is_free(b.data[i]) by {
        if i != c {
            assert(v.data[i] != Obj::Human && v.data[i] != Obj::HumanInHole);
            assert(l1.data[i] == v.data[i]);
        }
    }
}

/// The new states of the key moves of a state that fits the base level fit it too.
proof fn lemma_made_fit(b: LevelView, m: PathMap, pnm: PathNodeMap, maps: Seq<PathMap>, pulls: bool, depth: u16, t: int)
    requires
        is_base_level(b),
        fits_base(m.level, b),
        layout_ok(m.level, b),
        flooded(m.level, b, pnm, pulls),
        made_all(m, pnm, maps, pulls, depth),
        0 <= t < maps.len(),
    ensures
        fits_base(maps[t].level, b),
        layout_ok(maps[t].level, b),
{
    let nodes = pnm.nodes@;
    let keys = fitting(m, nodes, pnm.key_moves@);
    let km = keys[t];
    let r = maps[t];
    crate::solve::lemma_fitting_sub(m, nodes, pnm.key_moves@, t);
    let u = choose|u: int| 0 <= u < pnm.key_moves@.len() && pnm.key_moves@[u] == #[trigger] fitting(m, nodes, pnm.key_moves@)[t];
    lemma_keys_valid(m.level, b, nodes, nodes.len() as int, pulls, u);
    let p = nodes[km.pni as int].pt;
    let np = step(p, km.move_dir);
    lemma_cell_ok(m.level, b, np);
    lemma_cell_ok(m.level, b, p);
    if pulls {
        let from = step(p, move_rev(km.move_dir));
        assert(np != p);
        assert(np != from);
        assert(m.level.bit_index(np) != m.level.bit_index(p)) by (nonlinear_arith)
            requires np != p, 0 <= np.0 < b.w, 0 <= p.0 < b.w, m.level.w == b.w,
                m.level.bit_index(np) == np.0 + np.1 * m.level.w, m.level.bit_index(p) == p.0 + p.1 * m.level.w;
        lemma_cell_ok(m.level, b, from);
        assert(m.level.bit_index(np) != m.level.bit_index(from)) by (nonlinear_arith)
            requires np != from, 0 <= np.0 < b.w, 0 <= from.0 < b.w, m.level.w == b.w,
                m.level.bit_index(np) == np.0 + np.1 * m.level.w, m.level.bit_index(from) == from.0 + from.1 * m.level.w;
        assert(pull_made(m, nodes, km, depth, r));
        assert(human_cell(r.level) == np);
        assert(!bitmap_bit(r.level.blocks(), m.level.bit_index(np)));
        assert(key_ok(m.level, b, p, true, km.move_dir));
        assert(pull_ok(m.level, b, p, km.move_dir));
        assert(b.data[cell_index(b.w as int, p)] != Obj::Wall) by {
            if km.pni == 0 {
                assert(p == human_cell(m.level));
            } else {
                assert(walkable(m.level, b, nodes[km.pni as int].pt));
            }
        }
        assert forall|i: int| 0 <= i < 256 && #[trigger] bitmap_bit(r.level.blocks(), i) implies i < b.data.len() && is_free(b.data[i]) by {
            if i == m.level.bit_index(p) {
                assert(is_base_obj(b.data[i]));
            } else {
                assert(bitmap_bit(m.level.blocks(), i));
            }
        }
    } else {
        assert(push_made(m, nodes, km, r));
        assert(human_cell(r.level) == np);
        assert(!bitmap_bit(r.level.blocks(), m.level.bit_index(np)));
        assert(key_ok(m.level, b, p, false, km.move_dir));
        let bp = crate::game::step2(p, km.move_dir);
        assert(push_ok(m.level, b, p, km.move_dir));
        assert(bitmap_bit(m.level.blocks(), m.level.bit_index(np)));
        assert forall|i: int| 0 <= i < 256 && #[trigger] bitmap_bit(r.level.blocks(), i) implies i < b.data.len() && is_free(b.data[i]) by {
            if i == m.level.bit_index(bp) {
                lemma_cell_ok(m.level, b, bp);
            } else {
                assert(bitmap_bit(m.level.blocks(), i));
            }
        }
    }
}

/// The pulls from one more map fit, and lead home where the maps pulled from do.
#[verifier::spinoff_prover]
#[verifier::rlimit(40)]
proof fn lemma_pull_step(b: LevelView, mapsr: Seq<PathMap>, i: int, before: Seq<PathMap>, after: Seq<PathMap>, depth: u16)
    requires
        is_base_level(b),
        all_fit(b, mapsr),
        0 <= i < mapsr.len(),
        all_fit(b, before),
        all_home(b, mapsr) ==> all_home(b, before),
        after.len() >= before.len(),
        after.subrange(0, before.len() as int) == before,
        exists|pnm: PathNodeMap| flooded(mapsr[i].level, b, pnm, true)
            && #[trigger] made_all(mapsr[i], pnm, after.subrange(before.len() as int, after.len() as int), true, depth),
    ensures
        all_fit(b, after),
        all_home(b, mapsr) ==> all_home(b, after),
        after == before + after.subrange(before.len() as int, after.len() as int),
{
    let m = mapsr[i];
    assert(fits_base(m.level, b) && layout_ok(m.level, b));
    let added = after.subrange(before.len() as int, after.len() as int);
    let pnm = choose|pnm: PathNodeMap| flooded(m.level, b, pnm, true) && #[trigger] made_all(m, pnm, added, true, depth);
    assert forall|t: int| 0 <= t < after.len() implies fits_base((#[trigger] after[t]).level, b) && layout_ok(after[t].level, b) by {
        if t < before.len() {
            assert(after.subrange(0, before.len() as int)[t] == after[t]);
        } else {
            lemma_made_fit(b, m, pnm, added, true, depth, t - before.len());
            assert(added[t - before.len()] == after[t]);
        }
    }
    if all_home(b, mapsr) {
        assert(leads_home(b, mapsr[i]));
        assert forall|t: int| 0 <= t < after.len() implies leads_home(b, #[trigger] after[t]) by {
            if t < before.len() {
                assert(after.subrange(0, before.len() as int)[t] == after[t]);
            } else {
                lemma_pull_home(b, m, pnm, added, depth, t - before.len());
                assert(added[t - before.len()] == after[t]);
            }
        }
    }
    assert(after =~= before + added);
}

/// `chunk` is what `complete_unsolve_2` gives from `m` at search depth `depth`: the new
/// states of the pulls of a walk map of `m`, in order.
#[verifier::opaque]
pub open spec fn pulls_of(b: LevelView, m: PathMap, depth: u16, chunk: Seq<PathMap>) -> bool {
    exists|pnm: PathNodeMap| flooded(m.level, b, pnm, true) && #[trigger] made_all(m, pnm, chunk, true, depth)
}

/// The chunks one after the other.
pub open spec fn joined(cs: Seq<Seq<PathMap>>) -> Seq<PathMap>
    decreases cs.len(),
{
    if cs.len() == 0 { Seq::empty() } else { joined(cs.drop_last()) + cs.last() }
}

/// The states reached by every pull from the maps of `mapsr`, at search depth `depth`:
/// for each map in turn, those of its walk map, in order.
fn pull_all(mapsr: &Vec<PathMap>, base_level: &Level, depth: u16) -> (maps: Vec<PathMap>)
    requires
        is_base_level(base_level@),
        all_fit(base_level@, mapsr@),
    ensures
        all_fit(base_level@, maps@),
        all_home(base_level@, mapsr@) ==> all_home(base_level@, maps@),
        exists|cs: Seq<Seq<PathMap>>| cs.len() == mapsr@.len()
            && (forall|j: int| 0 <= j < cs.len() ==> pulls_of(base_level@, mapsr@[j], depth, #[trigger] cs[j]))
            && maps@ == joined(cs),
{
    let ghost b = base_level@;
    let mut maps: Vec<PathMap> = Vec::new();
    let ghost mut cs: Seq<Seq<PathMap>> = Seq::empty();
    let mut i: usize = 0;
    while i < mapsr.len()
        invariant
            is_base_level(b),
            b == base_level@,
            all_fit(b, mapsr@),
            i <= mapsr@.len(),
            all_fit(b, maps@),
            all_home(b, mapsr@) ==> all_home(b, maps@),
            cs.len() == i,
            forall|j: int| 0 <= j < cs.len() ==> pulls_of(b, mapsr@[j], depth, #[trigger] cs[j]),
            maps@ == joined(cs),
        decreases mapsr@.len() - i,
    {
        let m = mapsr[i];
        assert(fits_base(mapsr@[i as int].level, b) && layout_ok(mapsr@[i as int].level, b));
        let ghost before = maps@;
        m.complete_unsolve_2(base_level, &mut maps, depth);
        proof {
            let added = maps@.subrange(before.len() as int, maps@.len() as int);
            lemma_pull_step(b, mapsr@, i as int, before, maps@, depth);
            assert(pulls_of(b, m, depth, added)) by { reveal(pulls_of); }
            let ncs = cs.push(added);
            assert(ncs.drop_last() =~= cs);
            assert forall|j: int| 0 <= j < ncs.len() implies pulls_of(b, mapsr@[j], depth, #[trigger] ncs[j]) by {
                if j < cs.len() {
                    assert(ncs[j] == cs[j]);
                }
            }
            cs = ncs;
        }
        i = i + 1;
    }
    maps
}

/// No map of `maps` has the boxes exactly on the holes.
pub open spec fn none_home(b: LevelView, maps: Seq<PathMap>) -> bool {
    forall|t: int| 0 <= t < maps.len() ==> (#[trigger] maps[t]).level.blocks() != b.win_data
}

/// The pushes worth trying from one more map fit.
#[verifier::spinoff_prover]
#[verifier::rlimit(40)]
proof fn lemma_push_step(b: LevelView, mapsr: Seq<PathMap>, i: int, before: Seq<PathMap>, after: Seq<PathMap>)
    requires
        is_base_level(b),
        all_fit(b, mapsr),
        0 <= i < mapsr.len(),
        all_fit(b, before),
        after.len() >= before.len(),
        after.subrange(0, before.len() as int) == before,
        exists|pnm: PathNodeMap| flooded(mapsr[i].level, b, pnm, false)
            && #[trigger] made_all(mapsr[i], pnm, after.subrange(before.len() as int, after.len() as int), false, mapsr[i].depth),
    ensures
        all_fit(b, after),
        after == before + after.subrange(before.len() as int, after.len() as int),
{
    let m = mapsr[i];
    assert(fits_base(m.level, b) && layout_ok(m.level, b));
    let added = after.subrange(before.len() as int, after.len() as int);
    let pnm = choose|pnm: PathNodeMap| flooded(m.level, b, pnm, false) && #[trigger] made_all(m, pnm, added, false, m.depth);
    assert forall|t: int| 0 <= t < after.len() implies fits_base((#[trigger] after[t]).level, b) && layout_ok(after[t].level, b) by {
        if t < before.len() {
            assert(after.subrange(0, before.len() as int)[t] == after[t]);
        } else {
            lemma_made_fit(b, m, pnm, added, false, m.depth, t - before.len());
            assert(added[t - before.len()] == after[t]);
        }
    }
    assert(after =~= before + added);
}

/// The states reached by every push worth trying from the maps of `mapsr` that end with
/// the boxes exactly on the holes; their moves are cleared. None is kept exactly when no
/// state reached has the boxes on the holes.
fn final_maps(mapsr: &Vec<PathMap>, base_level: &Level) -> (maps: Vec<PathMap>)
    requires
        is_base_level(base_level@),
        all_fit(base_level@, mapsr@),
    ensures
        all_fit(base_level@, maps@),
        all_home(base_level@, maps@),
        exists|cs: Seq<Seq<PathMap>>| cs.len() == mapsr@.len()
            && (forall|j: int| 0 <= j < cs.len() ==> pushes_of(base_level@, mapsr@[j], #[trigger] cs[j]))
            && (maps@.len() == 0 <==> none_home(base_level@, joined(cs)))
            && won_cleared(joined(cs), base_level@, maps@),
{
    let ghost b = base_level@;
    let mut maps2: Vec<PathMap> = Vec::new();
    let ghost mut cs: Seq<Seq<PathMap>> = Seq::empty();
    let mut i: usize = 0;
    while i < mapsr.len()
        invariant
            is_base_level(b),
            b == base_level@,
            all_fit(b, mapsr@),
            i <= mapsr@.len(),
            all_fit(b, maps2@),
            cs.len() == i,
            forall|j: int| 0 <= j < cs.len() ==> pushes_of(b, mapsr@[j], #[trigger] cs[j]),
            maps2@ == joined(cs),
        decreases mapsr@.len() - i,
    {
        let m = mapsr[i];
        let ghost before = maps2@;
        m.complete_solve_2(base_level, &mut maps2);
        proof {
            let added = maps2@.subrange(before.len() as int, maps2@.len() as int);
            lemma_push_step(b, mapsr@, i as int, before, maps2@);
            assert(pushes_of(b, m, added)) by { reveal(pushes_of); }
            let ncs = cs.push(added);
            assert(ncs.drop_last() =~= cs);
            assert forall|j: int| 0 <= j < ncs.len() implies pushes_of(b, mapsr@[j], #[trigger] ncs[j]) by {
                if j < cs.len() {
                    assert(ncs[j] == cs[j]);
                }
            }
            cs = ncs;
        }
        i = i + 1;
    }
    let mut out: Vec<PathMap> = Vec::new();
    let mut k: usize = 0;
    while k < maps2.len()
        invariant
            b == base_level@,
            all_fit(b, maps2@),
            k <= maps2@.len(),
            all_fit(b, out@),
            all_home(b, out@),
            out@.len() == 0 <==> none_home(b, maps2@.take(k as int)),
            won_cleared(maps2@.take(k as int), b, out@),
        decreases maps2@.len() - k,
    {
        let mut m = maps2[k];
        assert(fits_base(maps2@[k as int].level, b));
        let ghost prev = maps2@.take(k as int);
        let ghost nxt = maps2@.take(k + 1);
        assert(forall|t: int| 0 <= t < prev.len() ==> nxt[t] == #[trigger] prev[t]);
        assert(nxt[k as int] == m);
        assert(nxt.drop_last() =~= prev);
        assert(nxt.last() == m);
        let ghost m_in = m;
        if m.level.have_win_condition(base_level) {
            m.path.clear();
            assert(cleared_of(m_in, m));
            proof {
                lemma_plays_none(m.level, b);
                assert(backwards(Seq::<Move>::empty()) =~= Seq::<Move>::empty());
                assert(plays(m.level, b, backwards(Seq::<Move>::empty()), m.level));
                assert(m.path.path() == Seq::<Move>::empty());
                assert(plays(m.level, b, backwards(m.path.path()), m.level));
                assert(leads_home(b, m));
            }
            let ghost before = out@;
            out.push(m);
            proof {
                assert(out@.drop_last() =~= before);
                assert forall|t: int| 0 <= t < out@.len() implies leads_home(b, #[trigger] out@[t]) by {
                    if t < before.len() {
                        assert(out@[t] == before[t]);
                    }
                }
                assert(!none_home(b, nxt));
            }
        } else {
            proof {
                if none_home(b, prev) {
                    assert forall|t: int| 0 <= t < nxt.len() implies (#[trigger] nxt[t]).level.blocks() != b.win_data by {
                        if t < prev.len() {
                            assert(nxt[t] == prev[t]);
                        }
                    }
                } else {
                    let t = choose|t: int| 0 <= t < prev.len() && !((#[trigger] prev[t]).level.blocks() != b.win_data);
                    assert(nxt[t] == prev[t]);
                }
            }
        }
        k = k + 1;
    }
    assert(maps2@.take(maps2@.len() as int) =~= maps2@);
    out
}

/// `c` is the map `m` with its moves cleared.
pub open spec fn cleared_of(m: PathMap, c: PathMap) -> bool {
    &&& c.level == m.level
    &&& c.depth == m.depth
    &&& c.flag == m.flag
    &&& c.path.path() == Seq::<Move>::empty()
    &&& c.path.consistent()
}

/// `out` are the maps of `maps` that have every box on a hole, in order, with their moves
/// cleared.
pub open spec fn won_cleared(maps: Seq<PathMap>, b: LevelView, out: Seq<PathMap>) -> bool
    decreases maps.len(),
{
    if maps.len() == 0 {
        out.len() == 0
    } else if maps.last().level.blocks() == b.win_data {
        out.len() > 0 && won_cleared(maps.drop_last(), b, out.drop_last()) && cleared_of(maps.last(), out.last())
    } else {
        won_cleared(maps.drop_last(), b, out)
    }
}

/// Some map of `others` has the state of `m` in as few moves.
pub open spec fn known(others: Seq<PathMap>, m: PathMap) -> bool {
    exists|j: int| 0 <= j < others.len() && same_st((#[trigger] others[j]).level, m.level)
        && others[j].path.path().len() <= m.path.path().len()
}

/// The maps of `maps`, in order, whose state is not in `others` with as few moves.
pub open spec fn unknown(maps: Seq<PathMap>, others: Seq<PathMap>) -> Seq<PathMap>
    decreases maps.len(),
{
    if maps.len() == 0 {
        Seq::empty()
    } else if !known(others, maps.last()) {
        unknown(maps.drop_last(), others).push(maps.last())
    } else {
        unknown(maps.drop_last(), others)
    }
}

/// The maps of `maps` whose state is not in `others` with as few moves.
fn drop_known(maps: &Vec<PathMap>, others: &Vec<PathMap>) -> (r: Vec<PathMap>)
    ensures
        r@ == unknown(maps@, others@),
        forall|k: int| 0 <= k < r@.len() ==> maps@.contains(#[trigger] r@[k]),
{
    let mut out: Vec<PathMap> = Vec::new();
    let mut i: usize = 0;
    while i < maps.len()
        invariant
            i <= maps@.len(),
            out@ == unknown(maps@.take(i as int), others@),
            forall|k: int| 0 <= k < out@.len() ==> maps@.contains(#[trigger] out@[k]),
        decreases maps@.len() - i,
    {
        let m = maps[i];
        assert(maps@.take(i + 1).drop_last() =~= maps@.take(i as int));
        assert(maps@.take(i + 1).last() == m);
        let mut drop = false;
        let mut j: usize = 0;
        while j < others.len()
            invariant
                j <= others@.len(),
                m == maps@[i as int],
                drop == exists|q: int| 0 <= q < j && same_st((#[trigger] others@[q]).level, m.level)
                    && others@[q].path.path().len() <= m.path.path().len(),
            decreases others@.len() - j,
        {
            let o = others[j];
            if o.level.same_state(&m.level) && o.path.len() <= m.path.len() {
                drop = true;
            }
            proof {
                if !drop {
                    assert forall|q: int| 0 <= q < j + 1 implies !(same_st((#[trigger] others@[q]).level, m.level)
                        && others@[q].path.path().len() <= m.path.path().len()) by {
                        if q < j {
                            assert(!(same_st(others@[q].level, m.level) && others@[q].path.path().len() <= m.path.path().len()));
                        }
                    }
                } else {
                    if !(same_st(o.level, m.level) && o.path.path().len() <= m.path.path().len()) {
                        let q = choose|q: int| 0 <= q < j && same_st((#[trigger] others@[q]).level, m.level)
                            && others@[q].path.path().len() <= m.path.path().len();
                        assert(0 <= q < j + 1);
                    } else {
                        assert(others@[j as int] == o);
                    }
                }
            }
            j = j + 1;
        }
        assert(drop == known(others@, m));
        if !drop {
            let ghost before = out@;
            out.push(m);
            proof {
                assert forall|k: int| 0 <= k < out@.len() implies maps@.contains(#[trigger] out@[k]) by {
                    if k < before.len() {
                        assert(out@[k] == before[k]);
                    } else {
                        assert(maps@[i as int] == out@[k]);
                    }
                }
            }
        }
        i = i + 1;
    }
    assert(maps@.take(maps@.len() as int) =~= maps@);
    out
}

/// Maps drawn from a list of fitting maps fit.
proof fn lemma_sub_fit(b: LevelView, from: Seq<PathMap>, maps: Seq<PathMap>)
    requires
        all_fit(b, from),
        forall|k: int| 0 <= k < maps.len() ==> from.contains(#[trigger] maps[k]),
    ensures
        all_fit(b, maps),
{
    assert forall|t: int| 0 <= t < maps.len() implies fits_base((#[trigger] maps[t]).level, b) by {
        assert(from.contains(maps[t]));
        let u = choose|u: int| 0 <= u < from.len() && from[u] == maps[t];
        assert(fits_base(from[u].level, b));
    }
}

/// Two lists of maps that fit and lead home, one after the other, fit and lead home.
proof fn lemma_join_fit(b: LevelView, x: Seq<PathMap>, y: Seq<PathMap>)
    requires
        all_fit(b, x),
        all_fit(b, y),
        all_home(b, x),
        all_home(b, y),
    ensures
        all_fit(b, x + y),
        all_home(b, x + y),
{
    assert forall|t: int| 0 <= t < (x + y).len() implies fits_base((#[trigger] (x + y)[t]).level, b) && layout_ok((x + y)[t].level, b)
        && leads_home(b, (x + y)[t]) by {
        if t < x.len() {
            assert((x + y)[t] == x[t]);
        } else {
            assert((x + y)[t] == y[t - x.len()]);
        }
    }
}

/// The number of moves stored for state `t` once the states of `maps` have been noted in
/// `seen`, one after the other, each where it beats the number stored for it.
pub open spec fn noted_moves(seen: Seq<(SpLevel, u16)>, maps: Seq<PathMap>, t: SpLevel) -> Option<u16>
    decreases maps.len(),
{
    if maps.len() == 0 {
        seen_moves(seen, t)
    } else {
        let m = maps.last();
        let better = match noted_moves(seen, maps.drop_last(), m.level) {
            Some(v) => v > m.path.path().len(),
            None => true,
        };
        if better && same_st(t, m.level) {
            Some(m.path.path().len() as u16)
        } else {
            noted_moves(seen, maps.drop_last(), t)
        }
    }
}

/// The list of seen states updated with the states of `maps`, each kept at its fewest moves.
fn note_seen(seen: &mut Vec<(SpLevel, u16)>, maps: &Vec<PathMap>)
    ensures
        forall|t: SpLevel| #[trigger] seen_moves(final(seen)@, t) == noted_moves(old(seen)@, maps@, t),
{
    let ghost start = seen@;
    let mut i: usize = 0;
    assert(maps@.take(0) =~= Seq::<PathMap>::empty());
    while i < maps.len()
        invariant
            i <= maps@.len(),
            forall|t: SpLevel| #[trigger] seen_moves(seen@, t) == noted_moves(start, maps@.take(i as int), t),
        decreases maps@.len() - i,
    {
        let m = maps[i];
        assert(maps@.take(i + 1).drop_last() =~= maps@.take(i as int));
        assert(maps@.take(i + 1).last() == m);
        assert(seen_moves(seen@, m.level) == noted_moves(start, maps@.take(i as int), m.level));
        let pre = seen_lookup(seen, &m.level);
        let better = match pre {
            Some(v) => v > m.path.len(),
            None => true,
        };
        let ghost before = seen@;
        if better {
            crate::solve::seen_insert(seen, m.level, m.path.len());
        }
        proof {
            assert forall|t: SpLevel| #[trigger] seen_moves(seen@, t) == noted_moves(start, maps@.take(i + 1), t) by {
                assert(seen_moves(before, t) == noted_moves(start, maps@.take(i as int), t));
            }
        }
        i = i + 1;
    }
    assert(maps@.take(maps@.len() as int) =~= maps@);
}

/// Every other map of the list, starting with the first.
fn halve(maps: &Vec<PathMap>) -> (r: Vec<PathMap>)
    ensures
        forall|k: int| 0 <= k < r@.len() ==> maps@.contains(#[trigger] r@[k]),
        r@.len() == (maps@.len() + 1) / 2,
        r@ == every_other(maps@),
{
    let mut out: Vec<PathMap> = Vec::new();
    let mut i: usize = 0;
    while i < maps.len()
        invariant
            i <= maps@.len(),
            i % 2 == 0 || i == maps@.len(),
            out@.len() == (i + 1) / 2,
            forall|k: int| 0 <= k < out@.len() ==> maps@.contains(#[trigger] out@[k]),
            forall|k: int| 0 <= k < out@.len() ==> #[trigger] out@[k] == maps@[2 * k],
        decreases maps@.len() - i,
    {
        let ghost before = out@;
        out.push(maps[i]);
        proof {
            assert forall|k: int| 0 <= k < out@.len() implies maps@.contains(#[trigger] out@[k]) by {
                if k < before.len() {
                    assert(out@[k] == before[k]);
                } else {
                    assert(maps@[i as int] == out@[k]);
                }
            }
        }
        if maps.len() - i >= 2 {
            i = i + 2;
        } else {
            i = maps.len();
        }
    }
    assert(out@ =~= every_other(maps@));
    out
}

/// `maps` followed by `more`.
fn appended(maps: &Vec<PathMap>, more: &Vec<PathMap>) -> (r: Vec<PathMap>)
    ensures
        r@ == maps@ + more@,
{
    let mut out = maps.clone();
    let mut i: usize = 0;
    assert(out@ =~= maps@ + more@.take(0));
    while i < more.len()
        invariant
            i <= more@.len(),
            out@ == maps@ + more@.take(i as int),
        decreases more@.len() - i,
    {
        out.push(more[i]);
        i = i + 1;
        assert(out@ =~= maps@ + more@.take(i as int));
    }
    assert(more@.take(more@.len() as int) =~= more@);
    out
}

/// The moves of a path played backwards: in reverse order, each in the opposite direction.
pub open spec fn backwards(moves: Seq<Move>) -> Seq<Move> {
    moves.reverse().map_values(|m: Move| move_rev(m))
}

/// Played backwards, two sequences of moves come in the other order.
proof fn lemma_backwards_concat(x: Seq<Move>, y: Seq<Move>)
    ensures
        backwards(x + y) == backwards(y) + backwards(x),
{
    assert forall|i: int| 0 <= i < (x + y).len() implies #[trigger] backwards(x + y)[i] == (backwards(y) + backwards(x))[i] by {
        if i < y.len() {
            assert((x + y).reverse()[i] == (x + y)[x.len() + y.len() - 1 - i]);
            assert(y.reverse()[i] == y[y.len() - 1 - i]);
        } else {
            assert((x + y).reverse()[i] == (x + y)[x.len() + y.len() - 1 - i]);
            assert(x.reverse()[i - y.len()] == x[x.len() - 1 - (i - y.len())]);
        }
    }
    assert(backwards(x + y) =~= backwards(y) + backwards(x));
}

/// One move played backwards is its opposite.
proof fn lemma_backwards_one(d: Move)
    ensures
        backwards(seq![d]) == seq![move_rev(d)],
{
    assert(seq![d].reverse() =~= seq![d]);
    assert(backwards(seq![d]) =~= seq![move_rev(d)]);
}

/// A move of the game from one state to another, played as a sequence of one move.
proof fn lemma_plays_one(s: SpLevel, b: LevelView, m: Move, r: SpLevel)
    requires
        play_step(s, b, m, r),
    ensures
        plays(s, b, seq![m], r),
{
    lemma_plays_none(s, b);
    lemma_plays_push(s, b, Seq::empty(), s, m, r);
    assert(Seq::<Move>::empty().push(m) =~= seq![m]);
}

/// A step on the grid, then the opposite step, comes back.
proof fn lemma_step_back(q: Vector, m: Move, w: int, h: int)
    requires
        in_bounds(w, h, q),
        in_bounds(w, h, step(q, m)),
        w <= 127,
        h <= 127,
    ensures
        step(step(q, m), move_rev(m)) == q,
{
    crate::vector::lemma_move_code_roundtrip(m);
}

/// A walk played backwards, from where it ends, comes back to where it began.
#[verifier::rlimit(40)]
proof fn lemma_walk_back(s: SpLevel, b: LevelView, h0: Vector, t: Seq<Move>, p: Vector)
    requires
        is_base_level(b),
        s.w == b.w,
        s.h == b.h,
        walk_end(s, b, h0, t) == Some(p),
        walkable(s, b, h0),
    ensures
        plays(moved_human(s, p.0 as i8, p.1 as i8), b, backwards(t), moved_human(s, h0.0 as i8, h0.1 as i8)),
    decreases t.len(),
{
    if t.len() == 0 {
        assert(backwards(t) =~= Seq::<Move>::empty());
        lemma_plays_none(moved_human(s, p.0 as i8, p.1 as i8), b);
    } else {
        let u = t.drop_last();
        let mv = t.last();
        let q = walk_end(s, b, h0, u)->0;
        assert(walk_end(s, b, h0, u) == Some(q));
        assert(walkable(s, b, q)) by {
            if u.len() > 0 {
                let q0 = walk_end(s, b, h0, u.drop_last())->0;
                assert(walkable(s, b, step(q0, u.last())));
            } else {
                assert(q == h0);
            }
        }
        assert(p == step(q, mv));
        assert(walkable(s, b, p));
        lemma_walk_back(s, b, h0, u, q);
        let sp = moved_human(s, p.0 as i8, p.1 as i8);
        let sq = moved_human(s, q.0 as i8, q.1 as i8);
        lemma_step_back(q, mv, b.w as int, b.h as int);
        assert(human_cell(sp) == p);
        assert(step(human_cell(sp), move_rev(mv)) == q);
        assert(walkable(sp, b, q));
        assert(moved_human(sp, q.0 as i8, q.1 as i8) == sq);
        assert(play_step(sp, b, move_rev(mv), sq));
        lemma_plays_one(sp, b, move_rev(mv), sq);
        lemma_plays_concat(sp, b, seq![move_rev(mv)], sq, backwards(u), moved_human(s, h0.0 as i8, h0.1 as i8));
        assert(t == u + seq![mv]);
        lemma_backwards_concat(u, seq![mv]);
        lemma_backwards_one(mv);
    }
}

/// A state leads home: some moves, as many as its path counts, played backwards from it are
/// moves of the game that end with every box in a hole.
pub open spec fn leads_home(b: LevelView, m: PathMap) -> bool {
    &&& m.path.consistent()
    &&& exists|w: SpLevel| w.blocks() == b.win_data && #[trigger] plays(m.level, b, backwards(m.path.path()), w)
}

/// Every map of the list leads home.
pub open spec fn all_home(b: LevelView, maps: Seq<PathMap>) -> bool {
    forall|t: int| 0 <= t < maps.len() ==> leads_home(b, #[trigger] maps[t])
}

/// Maps drawn from a list of maps that lead home lead home.
proof fn lemma_sub_home(b: LevelView, from: Seq<PathMap>, maps: Seq<PathMap>)
    requires
        all_home(b, from),
        forall|k: int| 0 <= k < maps.len() ==> from.contains(#[trigger] maps[k]),
    ensures
        all_home(b, maps),
{
    assert forall|t: int| 0 <= t < maps.len() implies leads_home(b, #[trigger] maps[t]) by {
        assert(from.contains(maps[t]));
        let u = choose|u: int| 0 <= u < from.len() && from[u] == maps[t];
        assert(leads_home(b, from[u]));
    }
}

/// A pull played backwards is a push: the human steps back and puts the box back.
proof fn lemma_pull_undone(b: LevelView, s: SpLevel, p: Vector, d: Move, rl: SpLevel)
    requires
        is_base_level(b),
        fits_base(s, b),
        layout_ok(s, b),
        pull_ok(s, b, p, d),
        walkable(s, b, p),
        pulled(s, p, d, rl),
    ensures
        play_step(rl, b, move_rev(d), moved_human(s, p.0 as i8, p.1 as i8)),
{
    let np = step(p, d);
    let from = step(p, move_rev(d));
    lemma_cell_ok(s, b, p);
    lemma_cell_ok(s, b, np);
    lemma_cell_ok(s, b, from);
    crate::vector::lemma_move_code_roundtrip(d);
    assert(from != p);
    assert(s.bit_index(from) != s.bit_index(p)) by (nonlinear_arith)
        requires from != p, 0 <= from.0 < b.w, 0 <= p.0 < b.w, s.w == b.w,
            s.bit_index(from) == from.0 + from.1 * s.w, s.bit_index(p) == p.0 + p.1 * s.w;
    let t1 = moved_human(s, p.0 as i8, p.1 as i8);
    assert(human_cell(rl) == np);
    assert(step(np, move_rev(d)) == p);
    assert(crate::game::step2(np, move_rev(d)) == from);
    assert(rl.box_at(p));
    assert(!rl.box_at(from));
    assert(push_ok(rl, b, np, move_rev(d))) by {
        assert(bitmap_bit(s.blocks(), s.bit_index(from)));
        assert(is_free(b.data[s.bit_index(from)]));
    }
    assert(pushed(rl, np, move_rev(d), t1)) by {
        assert forall|i: int| 0 <= i < 256 implies #[trigger] bitmap_bit(t1.blocks(), i)
            == (i != rl.bit_index(p) && (i == rl.bit_index(from) || bitmap_bit(rl.blocks(), i))) by {
            assert(t1.blocks() == s.blocks());
        }
    }
}

/// The key pull `t` of a flooded state: its cell is walkable and the pull can be made.
proof fn lemma_pull_key(b: LevelView, m: PathMap, pnm: PathNodeMap, maps: Seq<PathMap>, depth: u16, t: int)
    requires
        is_base_level(b),
        fits_base(m.level, b),
        layout_ok(m.level, b),
        flooded(m.level, b, pnm, true),
        made_all(m, pnm, maps, true, depth),
        0 <= t < maps.len(),
    ensures
        ({
            let km = fitting(m, pnm.nodes@, pnm.key_moves@)[t];
            let p = pnm.nodes@[km.pni as int].pt;
            &&& (km.pni as int) < pnm.nodes@.len()
            &&& pull_ok(m.level, b, p, km.move_dir)
            &&& walkable(m.level, b, p)
            &&& pull_made(m, pnm.nodes@, km, depth, maps[t])
            &&& walk_end(m.level, b, human_cell(m.level), crate::pathnodemap::trace(pnm.nodes@, km.pni as int)) == Some(p)
            &&& walkable(m.level, b, human_cell(m.level))
        }),
{
    let s = m.level;
    let nodes = pnm.nodes@;
    let km = fitting(m, nodes, pnm.key_moves@)[t];
    crate::solve::lemma_fitting_sub(m, nodes, pnm.key_moves@, t);
    let u = choose|u: int| 0 <= u < pnm.key_moves@.len() && pnm.key_moves@[u] == #[trigger] fitting(m, nodes, pnm.key_moves@)[t];
    lemma_keys_valid(s, b, nodes, nodes.len() as int, true, u);
    let p = nodes[km.pni as int].pt;
    assert(walkable(s, b, p)) by {
        if km.pni == 0 {
            assert(p == human_cell(s));
        } else {
            assert(walkable(s, b, nodes[km.pni as int].pt));
        }
    }
    crate::pathnodemap::lemma_trace_walks(s, b, nodes, km.pni as int);
}

/// A pull from a state that leads home leads home: played backwards, the pull is a push
/// that puts the box back, and the walk to the pull is walked back.
proof fn lemma_pull_home(b: LevelView, m: PathMap, pnm: PathNodeMap, maps: Seq<PathMap>, depth: u16, t: int)
    requires
        is_base_level(b),
        fits_base(m.level, b),
        layout_ok(m.level, b),
        flooded(m.level, b, pnm, true),
        made_all(m, pnm, maps, true, depth),
        0 <= t < maps.len(),
        leads_home(b, m),
    ensures
        leads_home(b, maps[t]),
{
    let s = m.level;
    let nodes = pnm.nodes@;
    let km = fitting(m, nodes, pnm.key_moves@)[t];
    let r = maps[t];
    lemma_pull_key(b, m, pnm, maps, depth, t);
    let p = nodes[km.pni as int].pt;
    let d = km.move_dir;
    let h0 = human_cell(s);
    let t1 = moved_human(s, p.0 as i8, p.1 as i8);
    lemma_pull_undone(b, s, p, d, r.level);
    lemma_plays_one(r.level, b, move_rev(d), t1);
    let tr = crate::pathnodemap::trace(nodes, km.pni as int);
    lemma_walk_back(s, b, h0, tr, p);
    assert(moved_human(s, h0.0 as i8, h0.1 as i8) == s);
    lemma_plays_concat(r.level, b, seq![move_rev(d)], t1, backwards(tr), s);
    let ms = m.path.path();
    let w = choose|w: SpLevel| w.blocks() == b.win_data && #[trigger] plays(m.level, b, backwards(ms), w);
    lemma_plays_concat(r.level, b, seq![move_rev(d)] + backwards(tr), s, backwards(ms), w);
    let ms2 = ms + tr.push(d);
    lemma_backwards_concat(ms, tr.push(d));
    assert(tr.push(d) == tr + seq![d]);
    lemma_backwards_concat(tr, seq![d]);
    lemma_backwards_one(d);
    assert(backwards(ms2) == seq![move_rev(d)] + backwards(tr) + backwards(ms));
    assert(ms2 == r.path.path());
    assert(plays(r.level, b, backwards(ms2), w));
}

/// The moves played backwards.
fn backwards_path(moves: &Vec<Move>) -> (r: Vec<Move>)
    ensures
        r@ == backwards(moves@),
{
    let mut r: Vec<Move> = Vec::new();
    let mut i = moves.len();
    while i > 0
        invariant
            i <= moves@.len(),
            r@ == backwards(moves@).take((moves@.len() - i) as int),
        decreases i,
    {
        i = i - 1;
        r.push(moves[i].reverse());
        assert(r@ =~= backwards(moves@).take((moves@.len() - i) as int));
    }
    assert(backwards(moves@).take(moves@.len() as int) =~= backwards(moves@));
    r
}


/// Playing moves reads the base level only through its width, height and objects.
proof fn lemma_plays_same_grid(s: SpLevel, b1: LevelView, b2: LevelView, ms: Seq<Move>, r: SpLevel)
    requires
        b1.w == b2.w,
        b1.h == b2.h,
        b1.data == b2.data,
        plays(s, b1, ms, r),
    ensures
        plays(s, b2, ms, r),
{
    let st = choose|st: Seq<SpLevel>| #[trigger] crate::pathnodemap::play_chain(st, s, b1, ms, r);
    assert forall|i: int| 0 <= i < ms.len() implies play_step(#[trigger] st[i], b2, ms[i], st[i + 1]) by {
        assert(play_step(st[i], b1, ms[i], st[i + 1]));
    }
    assert(crate::pathnodemap::play_chain(st, s, b2, ms, r));
}

/// A level rebuilt from a state that leads home can be solved in as many moves as the
/// state's path counts: from the rebuilt start, the moves that lead the state home.
proof fn lemma_rebuilt_solves(b: LevelView, c: PathMap, lv: LevelView)
    requires
        is_base_level(b),
        fits_base(c.level, b),
        layout_ok(c.level, b),
        leads_home(b, c),
        lv.w == b.w,
        lv.h == b.h,
        lv.win_data == b.win_data,
        lv.human_pos == Vector(c.level.hx() as i32, c.level.hy() as i32),
        lv.data == Seq::new((c.level.w * c.level.h) as nat, |i: int|
            c.level.obj_at(Vector((i % c.level.w as int) as i32, (i / c.level.w as int) as i32), b)),
    ensures
        solves(lv, backwards(c.path.path())),
{
    let s = c.level;
    let w = b.w as int;
    let h = b.h as int;
    let ms = c.path.path();
    let fin = choose|fin: SpLevel| fin.blocks() == b.win_data && #[trigger] plays(c.level, b, backwards(ms), fin);
    assert(s.w * s.h == w * h);
    assert(lv.data.len() == b.data.len());
    let hc = human_cell(s);
    let hi = cell_index(w, hc);
    lemma_cell_ok(s, b, hc);
    // Each rebuilt cell is the base object with the human or a box put on it.
    assert forall|i: int| 0 <= i < lv.data.len() implies {
        &&& #[trigger] lv.data[i] == sp_obj(b.data[i], i == hi, bitmap_bit(s.blocks(), i))
    } by {
        let pt = Vector((i % w) as i32, (i / w) as i32);
        vstd::arithmetic::div_mod::lemma_fundamental_div_mod(i, w);
        assert(0 <= i % w < w);
        assert(0 <= i / w < h) by (nonlinear_arith)
            requires 0 <= i < w * h, w > 0, i == w * (i / w) + i % w, 0 <= i % w < w;
        assert(cell_index(w, pt) == i) by (nonlinear_arith)
            requires i == w * (i / w) + i % w, pt.0 == i % w, pt.1 == i / w;
        assert(s.bit_index(pt) == i);
        if s.human_at(pt) {
            assert(pt == hc);
        }
        if i == hi {
            assert(pt == hc) by (nonlinear_arith)
                requires i == hc.0 + hc.1 * w, pt.0 == i % w, pt.1 == i / w, 0 <= hc.0 < w, 0 <= hc.1,
                    i == w * (i / w) + i % w;
        }
    }
    // The level starts in the state.
    assert(packs(s.blocks(), lv.data, false)) by {
        assert forall|i: int| 0 <= i < 256 implies #[trigger] bitmap_bit(s.blocks(), i)
            == (i < lv.data.len() && crate::level::pack_pred(false, lv.data[i])) by {
            if bitmap_bit(s.blocks(), i) {
                assert(i < b.data.len() && is_free(b.data[i]));
                assert(i != hi);
            }
        }
    }
    assert(starts(lv, s));
    // Cleared of the human and the boxes, the level is the base level.
    let sb = solve_base(lv);
    assert(b.data[hi] != Obj::Wall);
    assert(sb.data =~= b.data) by {
        assert forall|i: int| 0 <= i < b.data.len() implies #[trigger] sb.data[i] == b.data[i] by {
            assert(is_base_obj(b.data[i]));
        }
    }
    lemma_plays_same_grid(s, b, sb, backwards(ms), fin);
    assert(solves(lv, backwards(ms)));
}

/// A level rebuilt from a search state on the base level has its one human at the state's
/// human.
proof fn lemma_rebuilt_placed(b: LevelView, s: SpLevel, l: LevelView)
    requires
        is_base_level(b),
        fits_base(s, b),
        layout_ok(s, b),
        l.w == b.w,
        l.h == b.h,
        l.human_pos == Vector(s.hx() as i32, s.hy() as i32),
        l.data == Seq::new((s.w * s.h) as nat, |i: int|
            s.obj_at(Vector((i % s.w as int) as i32, (i / s.w as int) as i32), b)),
    ensures
        l.human_placed(),
{
    let w = b.w as int;
    let h = b.h as int;
    let hp = l.human_pos;
    let c = cell_index(w, hp);
    assert(b.data.len() == w * h);
    assert(0 <= c < w * h) by (nonlinear_arith)
        requires c == hp.0 + hp.1 * w, 0 <= hp.0 < w, 0 <= hp.1 < h;
    assert forall|i: int| 0 <= i < l.data.len() implies
        (#[trigger] l.data[i] == Obj::Human || l.data[i] == Obj::HumanInHole) == (i == c) by {
        let p = Vector((i % w) as i32, (i / w) as i32);
        vstd::arithmetic::div_mod::lemma_fundamental_div_mod(i, w);
        assert(0 <= i % w < w);
        assert(0 <= i / w < h) by (nonlinear_arith)
            requires 0 <= i < w * h, w > 0, i == w * (i / w) + i % w, 0 <= i % w < w;
        assert(cell_index(w, p) == i) by (nonlinear_arith)
            requires i == w * (i / w) + i % w, p.0 == i % w, p.1 == i / w;
        assert(l.data[i] == s.obj_at(p, b));
        assert(is_base_obj(b.data[i]));
        if i == c {
            assert(p.0 == hp.0 && p.1 == hp.1) by (nonlinear_arith)
                requires p.0 + p.1 * w == hp.0 + hp.1 * w, 0 <= p.0 < w, 0 <= hp.0 < w, 0 <= p.1, 0 <= hp.1;
            assert(s.human_at(p));
            assert(b.data[cell_index(b.w as int, human_cell(s))] != Obj::Wall);
        } else {
            assert(!(p.0 == hp.0 && p.1 == hp.1));
        }
    }
    assert(l.obj_at(hp) == l.data[c]);
}

/// A level rebuilt from a search state on the base level has a box on a cell exactly where
/// the state has a bit set, and no bit is set past the grid.
proof fn lemma_rebuilt_boxes(b: LevelView, s: SpLevel, data: Seq<Obj>)
    requires
        is_base_level(b),
        fits_base(s, b),
        layout_ok(s, b),
        data == Seq::new((s.w * s.h) as nat, |i: int|
            s.obj_at(Vector((i % s.w as int) as i32, (i / s.w as int) as i32), b)),
    ensures
        data.len() == b.data.len(),
        forall|i: int| 0 <= i < data.len() ==> #[trigger] is_box_obj(data[i]) == bitmap_bit(s.blocks(), i),
        forall|i: int| data.len() <= i < 256 ==> !#[trigger] bitmap_bit(s.blocks(), i),
{
    let w = b.w as int;
    let h = b.h as int;
    assert(b.data.len() == w * h);
    assert forall|i: int| 0 <= i < data.len() implies #[trigger] is_box_obj(data[i]) == bitmap_bit(s.blocks(), i) by {
        let p = Vector((i % w) as i32, (i / w) as i32);
        vstd::arithmetic::div_mod::lemma_fundamental_div_mod(i, w);
        assert(0 <= i % w < w);
        assert(0 <= i / w < h) by (nonlinear_arith)
            requires 0 <= i < w * h, w > 0, i == w * (i / w) + i % w, 0 <= i % w < w;
        assert(cell_index(w, p) == i) by (nonlinear_arith)
            requires i == w * (i / w) + i % w, p.0 == i % w, p.1 == i / w;
        assert(data[i] == s.obj_at(p, b));
        assert(s.bit_index(p) == i);
        if s.human_at(p) {
            assert(p == human_cell(s));
        }
        if bitmap_bit(s.blocks(), i) {
            assert(is_free(b.data[i]));
        }
    }
    assert forall|i: int| data.len() <= i < 256 implies !#[trigger] bitmap_bit(s.blocks(), i) by {
        if bitmap_bit(s.blocks(), i) {
            assert(i < b.data.len() && is_free(b.data[i]));
        }
    }
}

/// A level rebuilt from a search state on the base level keeps the walls and holes of the
/// level the base was made from.
proof fn lemma_rebuilt_layout(v: LevelView, b: LevelView, s: SpLevel, data: Seq<Obj>)
    requires
        solvable_input(v),
        b == solve_base(v),
        is_base_level(b),
        fits_base(s, b),
        data == Seq::new((s.w * s.h) as nat, |i: int|
            s.obj_at(Vector((i % s.w as int) as i32, (i / s.w as int) as i32), b)),
    ensures
        v.with_data(data).sprites_stripped() == v.sprites_stripped(),
{
    let w = v.w as int;
    let h = v.h as int;
    assert(s.w * s.h == w * h);
    assert forall|i: int| 0 <= i < data.len() implies
        #[trigger] v.with_data(data).sprites_stripped()[i] == v.sprites_stripped()[i] by {
        let p = Vector((i % w) as i32, (i / w) as i32);
        vstd::arithmetic::div_mod::lemma_fundamental_div_mod(i, w);
        assert(0 <= i % w < w);
        assert(0 <= i / w < h) by (nonlinear_arith)
            requires 0 <= i < w * h, w > 0, i == w * (i / w) + i % w, 0 <= i % w < w;
        assert(cell_index(w, p) == i) by (nonlinear_arith)
            requires i == w * (i / w) + i % w, p.0 == i % w, p.1 == i / w;
        let hp = v.human_pos;
        let c = cell_index(w, hp);
        let hc = human_cleared(v);
        assert(hc.data.len() == v.data.len());
        assert(b.data[i] == hc.boxes_cleared()[i]);
        assert(hc.boxes_cleared()[i] == v.sprites_stripped()[i]) by {
            if i != c {
                assert(v.data[i] != Obj::Human && v.data[i] != Obj::HumanInHole);
                assert(in_bounds(w, h, hp));
                assert(0 <= c < w * h) by (nonlinear_arith)
                    requires c == hp.0 + hp.1 * w, 0 <= hp.0 < w, 0 <= hp.1 < h;
                assert(0 <= i < v.data.len());
                let nv = if v.obj_at(v.human_pos) == Obj::Human { Obj::Space } else { Obj::Hole };
                assert(hc.data == v.data.update(c, nv));
                assert(v.data.update(c, nv)[i] == v.data[i]);
            } else {
                assert(v.data[c] == Obj::Human || v.data[c] == Obj::HumanInHole);
            }
        }
        assert(is_base_obj(b.data[i]));
        assert(data[i] == s.obj_at(p, b));
        assert(v.with_data(data).sprites_stripped()[i] == b.data[i]);
    }
}

/// The key that puts the contenders with the most pushes, then the most moves, first.
pub open spec fn contender_key(c: PathMap) -> int {
    (65535 - c.depth) * 65536 + (65535 - c.path.path().len())
}

/// The key of each contender.
fn contender_keys(cs: &Vec<PathMap>) -> (keys: Vec<usize>)
    ensures
        keys@.len() == cs@.len(),
        forall|q: int| 0 <= q < keys@.len() ==> #[trigger] keys@[q] == contender_key(cs@[q]),
{
    let mut keys: Vec<usize> = Vec::new();
    let mut i: usize = 0;
    while i < cs.len()
        invariant
            i <= cs@.len(),
            keys@.len() == i,
            forall|q: int| 0 <= q < keys@.len() ==> #[trigger] keys@[q] == contender_key(cs@[q]),
        decreases cs@.len() - i,
    {
        let c = cs[i];
        let k = (65535 - c.depth as usize) * 65536 + (65535 - c.path.len() as usize);
        keys.push(k);
        i = i + 1;
    }
    keys
}

/// A level the level maker gives for the level `v`: the same size, walls and holes, one
/// human (at its position), as many boxes as holes, and settings "moves", "path" and "depth": the path is the letters of moves that solve the
/// level, "moves" their number, and "depth" the search depth at which the level was found.
pub open spec fn made_level(v: LevelView, l: LevelView) -> bool {
    &&& l.w == v.w
    &&& l.h == v.h
    &&& l.sprites_stripped() == v.sprites_stripped()
    &&& l.human_placed()
    &&& count_boxes(l.data) == count_holes(v.data)
    &&& exists|ms: Seq<Move>| #[trigger] solves(l, ms) && l.keyval("moves"@) == Some(decimal(ms.len()))
        && l.keyval("path"@) == Some(moves_text(ms))
    &&& exists|d: u16| l.keyval("depth"@) == Some(decimal(d as nat))
}

/// The level of a contender of the level maker: the state rebuilt on the base level, with
/// its number of moves, its depth and its moves played backwards (which solve it) set.
fn level_of_contender(c: &PathMap, base_level: &Level, Ghost(v): Ghost<LevelView>) -> (level: Level)
    requires
        solvable_input(v),
        base_level@ == solve_base(v),
        is_base_level(base_level@),
        fits_base(c.level, base_level@),
        layout_ok(c.level, base_level@),
        leads_home(base_level@, *c),
    ensures
        made_level(v, level@),
        level@.keyval("depth"@) == Some(decimal(c.depth as nat)),
        level@.keyval("path"@) == Some(moves_text(backwards(c.path.path()))),
{
    let ghost b = base_level@;
    let ghost s = c.level;
    proof {
        assert forall|p: Vector| #[trigger] s.inside(p) implies s.base_ok(p, b) by {
            lemma_cell_ok(s, b, p);
        }
    }
    let mut level = c.level.to_level(base_level);
    proof {
        lemma_rebuilt_placed(b, s, level@);
        lemma_rebuilt_layout(v, b, s, level@.data);
        lemma_rebuilt_boxes(b, s, level@.data);
        lemma_boxes_are_bits(level@.data, s.blocks());
        let wn = choose|wn: SpLevel| wn.blocks() == b.win_data && #[trigger] plays(s, b, backwards(c.path.path()), wn);
        assert(b.w >= 1) by {
            assert(in_bounds(v.w as int, v.h as int, v.human_pos));
        }
        lemma_plays_bits(s, b, backwards(c.path.path()), wn);
        lemma_holes_are_bits(v.data, v.win_data);
        assert(level@.with_data(level@.data).sprites_stripped() == level@.sprites_stripped());
    }
    let ghost lv = level@;
    let moves_s = u64_to_string(c.path.len() as u64);
    level.set_keyval("moves", moves_s.as_str());
    let depth_s = u64_to_string(c.depth as u64);
    level.set_keyval("depth", depth_s.as_str());
    let path = backwards_path(&c.path.to_path());
    let path_s = moves_to_string(&path);
    level.set_keyval("path", path_s.as_str());
    assert(level@.data == lv.data && level@.w == lv.w && level@.h == lv.h && level@.human_pos == lv.human_pos);
    assert(level@.sprites_stripped() =~= lv.sprites_stripped());
    proof {
        lemma_rebuilt_solves(b, *c, level@);
        let ms = backwards(c.path.path());
        reveal_strlit("moves");
        reveal_strlit("depth");
        reveal_strlit("path");
        let k0 = lv.keyvals;
        let k1 = kv_set(k0, "moves"@, moves_s@);
        let k2 = kv_set(k1, "depth"@, depth_s@);
        assert(level@.keyvals == kv_set(k2, "path"@, path_s@));
        assert("moves"@[0] == 'm' && "depth"@[0] == 'd' && "path"@[0] == 'p');
        assert("moves"@ != "depth"@);
        assert("moves"@ != "path"@);
        assert("depth"@ != "path"@);
        lemma_kv_get_set(k0, "moves"@, moves_s@, "moves"@);
        lemma_kv_get_set(k1, "depth"@, depth_s@, "moves"@);
        lemma_kv_get_set(k2, "path"@, path_s@, "moves"@);
        lemma_kv_get_set(k1, "depth"@, depth_s@, "depth"@);
        lemma_kv_get_set(k2, "path"@, path_s@, "depth"@);
        lemma_kv_get_set(k2, "path"@, path_s@, "path"@);
        assert(path@ == backwards(c.path.path()));
        assert(ms.len() == c.path.path().len());
        assert(level@.keyval("moves"@) == Some(decimal(ms.len())));
        assert(level@.keyval("path"@) == Some(moves_text(ms)));
        assert(level@.keyval("depth"@) == Some(decimal(c.depth as nat)));
    }
    level
}

/// The states where the level maker's search starts: the states of the pushes worth trying
/// from the states of the pulls from `base_map` that end with the boxes on the holes.
#[verifier::spinoff_prover]
#[verifier::rlimit(40)]
fn start_layer(base_map: &PathMap, base_level: &Level) -> (mapsr: Vec<PathMap>)
    requires
        is_base_level(base_level@),
        fits_base(base_map.level, base_level@),
        layout_ok(base_map.level, base_level@),
    ensures
        all_fit(base_level@, mapsr@),
        all_home(base_level@, mapsr@),
        exists|cs1: Seq<Seq<PathMap>>, cs2: Seq<Seq<PathMap>>| #[trigger] finish_layer(base_level@, *base_map, cs1, cs2)
            && (mapsr@.len() == 0 <==> none_home(base_level@, joined(cs2)))
            && won_cleared(joined(cs2), base_level@, mapsr@),
{
    let ghost b = base_level@;
    let mut vbm: Vec<PathMap> = Vec::new();
    vbm.push(*base_map);
    assert(vbm@[0] == *base_map);
    assert(all_fit(b, vbm@)) by {
        assert forall|t: int| 0 <= t < vbm@.len() implies fits_base((#[trigger] vbm@[t]).level, b) && layout_ok(vbm@[t].level, b) by {
            assert(vbm@[t] == *base_map);
        }
    }
    let maps1 = pull_all(&vbm, base_level, 0);
    let mapsr = final_maps(&maps1, base_level);
    let ghost cs1 = choose|cs: Seq<Seq<PathMap>>| cs.len() == vbm@.len()
        && (forall|j: int| 0 <= j < cs.len() ==> pulls_of(b, vbm@[j], 0, #[trigger] cs[j]))
        && maps1@ == joined(cs);
    let ghost cs2 = choose|cs: Seq<Seq<PathMap>>| cs.len() == maps1@.len()
        && (forall|j: int| 0 <= j < cs.len() ==> pushes_of(b, maps1@[j], #[trigger] cs[j]))
        && (mapsr@.len() == 0 <==> none_home(b, joined(cs)))
        && won_cleared(joined(cs), b, mapsr@);
    proof {
        assert(pulls_of(b, vbm@[0], 0, cs1[0]));
        assert(cs1.len() == 1);
        assert(cs1.drop_last() =~= Seq::<Seq<PathMap>>::empty());
        assert(joined(cs1.drop_last()) =~= Seq::<PathMap>::empty());
        assert(cs1.last() == cs1[0]);
        assert(joined(cs1) =~= cs1[0]);
        assert(finish_layer(b, *base_map, cs1, cs2));
    }
    mapsr
}

/// One depth of the level maker's search: the states of every pull from the layer
/// `mapsr`, one per state with the fewest moves, rid of the states of `contenders` and of
/// `mapsr` itself reached in as few moves, and of the states seen in as few moves, after
/// `contenders_2` is noted as seen (while fewer than `4 * max_maps` states are).
fn sift_layer(mapsr: &Vec<PathMap>, contenders: &Vec<PathMap>, contenders_2: &Vec<PathMap>,
    non_contenders: &mut Vec<(SpLevel, u16)>, base_level: &Level, count: u16, max_maps: usize, Ghost(counter): Ghost<int>)
    -> (kept: Vec<PathMap>)
    requires
        is_base_level(base_level@),
        all_fit(base_level@, mapsr@),
        all_home(base_level@, mapsr@),
        max_maps <= usize::MAX / 4,
    ensures
        all_fit(base_level@, kept@),
        all_home(base_level@, kept@),
        mapsr@.len() == 0 ==> kept@.len() == 0,
        sifted(base_level@, (mapsr@, contenders@, contenders_2@, old(non_contenders)@, counter, count as int),
            max_maps as int, final(non_contenders)@, kept@),
{
    let ghost b = base_level@;
    let ghost st: SearchState = (mapsr@, contenders@, contenders_2@, non_contenders@, counter, count as int);
    let maps = pull_all(mapsr, base_level, count);
    let ghost cs = choose|cs: Seq<Seq<PathMap>>| cs.len() == mapsr@.len()
        && (forall|j: int| 0 <= j < cs.len() ==> pulls_of(b, mapsr@[j], count, #[trigger] cs[j]))
        && maps@ == joined(cs);
    let deduped = dedup_states(&maps);
    assert(dedup_of(joined(cs), deduped@));
    proof {
        lemma_sub_fit(b, maps@, deduped@);
        lemma_sub_home(b, maps@, deduped@);
        if mapsr@.len() == 0 {
            assert(maps@.len() == 0);
            if deduped@.len() > 0 {
                assert(maps@.contains(deduped@[0]));
            }
        }
    }
    if non_contenders.len() < max_maps * 4 {
        note_seen(non_contenders, contenders_2);
    }
    let kept = drop_known(&deduped, contenders);
    proof { lemma_sub_fit(b, deduped@, kept@); lemma_sub_home(b, deduped@, kept@); }
    let kept2 = drop_known(&kept, mapsr);
    proof { lemma_sub_fit(b, kept@, kept2@); lemma_sub_home(b, kept@, kept2@); }
    let kept3 = crate::solve::drop_seen(&kept2, non_contenders);
    proof {
        lemma_sub_fit(b, kept2@, kept3@);
        lemma_sub_home(b, kept2@, kept3@);
        if mapsr@.len() == 0 && kept3@.len() > 0 {
            assert(kept2@.contains(kept3@[0]));
            assert(kept@.contains(kept2@[0]));
            assert(deduped@.contains(kept@[0]));
        }
        assert(sifted(b, st, max_maps as int, non_contenders@, kept3@)) by { reveal(sifted); }
    }
    kept3
}

/// The first layer of the level maker's search from the start `m0`: `cs1` holds the states
/// of the pulls from `m0`, and `cs2` for each of them the states of its pushes worth trying.
pub open spec fn finish_layer(b: LevelView, m0: PathMap, cs1: Seq<Seq<PathMap>>, cs2: Seq<Seq<PathMap>>) -> bool {
    &&& cs1.len() == 1
    &&& pulls_of(b, m0, 0, cs1[0])
    &&& cs2.len() == cs1[0].len()
    &&& forall|j: int| 0 <= j < cs2.len() ==> pushes_of(b, cs1[0][j], #[trigger] cs2[j])
}

/// The contenders of the level maker for the level `base_level_in`, best first. From the
/// positions where the last box has just been pushed home, boxes are pulled away, depth by
/// depth (at most `max_depth + 1` pulls), keeping for every position the fewest moves
/// found; the positions of the deepest searches are the contenders, and the first 10 of
/// them by most pushes, then most moves, are returned (`searched_top` states the search
/// depth by depth). There are none exactly when none of the positions reached from the
/// start by one pull and then one push worth trying has every box on a hole.
#[verifier::rlimit(60)]
pub fn unsolve_contenders(base_level_in: &Level, max_depth: u16, max_maps: usize) -> (top: Vec<PathMap>)
    requires
        solvable_input(base_level_in@),
        max_depth < u16::MAX,
        8 <= max_maps <= usize::MAX / 4,
    ensures
        top@.len() <= 10,
        all_fit(solve_base(base_level_in@), top@),
        all_home(solve_base(base_level_in@), top@),
        forall|j: int, k: int| 0 <= j < k < top@.len() ==> contender_key(#[trigger] top@[j]) <= contender_key(#[trigger] top@[k]),
        forall|j: int, k: int| 0 <= j < k < top@.len() ==> crate::pullsearch::no_shallower(#[trigger] top@[j], #[trigger] top@[k]),
        exists|m0: PathMap, cs1: Seq<Seq<PathMap>>, cs2: Seq<Seq<PathMap>>|
            starts(base_level_in@, m0.level) && m0.path.path() == Seq::<Move>::empty() && m0.path.consistent()
            && m0.depth == 0 && #[trigger] finish_layer(solve_base(base_level_in@), m0, cs1, cs2)
            && (top@.len() == 0 <==> none_home(solve_base(base_level_in@), joined(cs2))),
        searched_top(base_level_in@, max_depth as int, max_maps as int, top@),
{
    let ghost v = base_level_in@;
    let base_level1 = base_level_in.clear_human_cloned();
    assert(base_level1@.data.len() == v.data.len()) by {
        let hp = v.human_pos;
        assert(cell_index(v.w as int, hp) < v.w * v.h) by (nonlinear_arith)
            requires 0 <= hp.0 < v.w, 0 <= hp.1 < v.h;
    }
    let base_map = PathMap::new_from_level(&base_level1);
    let base_level = base_level1.clear_boxxes_cloned();
    let ghost b = base_level@;
    proof {
        lemma_start(v, base_level1@, b, base_map);
        lemma_start_layout(v, base_level1@, b, base_map.level);
    }
    let mut mapsr = start_layer(&base_map, &base_level);
    let ghost init_ne = mapsr@.len() > 0;
    let ghost first = mapsr@;
    let ghost mut tr: Seq<SearchState> = seq![(first, Seq::<PathMap>::empty(), Seq::<PathMap>::empty(),
        Seq::<(SpLevel, u16)>::empty(), 0int, 0int)];
    proof { lemma_trace_start(b, max_depth as int, max_maps as int, first); }
    let mut non_contenders: Vec<(SpLevel, u16)> = Vec::new();
    let mut contenders: Vec<PathMap> = Vec::new();
    let mut contenders_2: Vec<PathMap> = Vec::new();
    let mut max_max_counter: u32 = 0;
    let mut count: u16 = 0;
    while count <= max_depth + 1
        invariant_except_break
            tr.last() == (mapsr@, contenders@, contenders_2@, non_contenders@, max_max_counter as int, count as int),
        invariant
            v == base_level_in@,
            b == base_level@,
            b == solve_base(v),
            is_base_level(b),
            max_depth < u16::MAX,
            8 <= max_maps <= usize::MAX / 4,
            all_fit(b, mapsr@),
            all_fit(b, contenders@),
            all_fit(b, contenders_2@),
            all_home(b, mapsr@),
            all_home(b, contenders@),
            all_home(b, contenders_2@),
            max_max_counter <= 3,
            !init_ne ==> mapsr@.len() == 0 && contenders@.len() == 0 && contenders_2@.len() == 0,
            init_ne ==> mapsr@.len() > 0,
            init_ne && count > 0 ==> contenders@.len() > 0,
            search_trace(b, max_depth as int, max_maps as int, first, tr),
            count <= max_depth + 1,
        ensures
            v == base_level_in@,
            b == base_level@,
            b == solve_base(v),
            is_base_level(b),
            all_fit(b, contenders@),
            all_home(b, contenders@),
            contenders@.len() > 0 <==> init_ne,
            search_run(b, max_depth as int, max_maps as int, first, contenders@),
        decreases max_depth + 1 - count,
    {
        let ghost st = tr.last();
        let kept3 = sift_layer(&mapsr, &contenders, &contenders_2, &mut non_contenders, &base_level, count, max_maps,
            Ghost(max_max_counter as int));
        contenders_2 = contenders;
        contenders = mapsr.clone();
        assert(contenders@ == mapsr@);
        let ghost k3 = kept3@;
        let mut maps = kept3;
        if maps.len() == 0 {
            if contenders.len() < 10 {
                let both = appended(&contenders, &contenders_2);
                proof { lemma_join_fit(b, contenders@, contenders_2@); }
                contenders = both;
            }
            assert(search_end(b, max_depth as int, max_maps as int, st, contenders@)) by { reveal(search_end); }
            break;
        }
        if count > max_depth {
            let both = appended(&contenders, &maps);
            proof { lemma_join_fit(b, contenders@, maps@); }
            contenders = both;
            if contenders.len() < 10 {
                let all3 = appended(&contenders, &contenders_2);
                proof { lemma_join_fit(b, contenders@, contenders_2@); }
                contenders = all3;
            }
            assert(search_end(b, max_depth as int, max_maps as int, st, contenders@)) by { reveal(search_end); }
            break;
        }
        let ghost cut = maps@.len() > max_maps / 8;
        if maps.len() > max_maps / 8 {
            if max_max_counter == 3 {
                contenders = maps;
                assert(search_end(b, max_depth as int, max_maps as int, st, contenders@)) by { reveal(search_end); }
                break;
            }
            while maps.len() > max_maps / 8
                invariant
                    all_fit(b, maps@),
                    all_home(b, maps@),
                    max_maps >= 8,
                    maps@.len() > 0,
                    halved_to(maps@, (max_maps / 8) as int) == halved_to(k3, (max_maps / 8) as int),
                decreases maps@.len(),
            {
                let halved = halve(&maps);
                proof {
                    lemma_sub_fit(b, maps@, halved@);
                    lemma_sub_home(b, maps@, halved@);
                    lemma_halved_step(maps@, (max_maps / 8) as int);
                }
                maps = halved;
            }
            max_max_counter = max_max_counter + 1;
        }
        proof {
            let t: SearchState = (maps@, contenders@, contenders_2@, non_contenders@, max_max_counter as int, count + 1);
            assert(maps@ == (if k3.len() > max_maps / 8 { halved_to(k3, (max_maps / 8) as int) } else { k3 }));
            assert(search_step(b, max_depth as int, max_maps as int, st, t)) by { reveal(search_step); }
            lemma_trace_push(b, max_depth as int, max_maps as int, first, tr, t);
            tr = tr.push(t);
        }
        mapsr = maps;
        count = count + 1;
    }
    let keys = contender_keys(&contenders);
    let top_idx = smallest_keys(&keys, 10);
    let mut top: Vec<PathMap> = Vec::new();
    let mut t: usize = 0;
    while t < top_idx.len()
        invariant
            t <= top_idx@.len(),
            top@.len() == t,
            all_fit(b, contenders@),
            keys@.len() == contenders@.len(),
            forall|j: int| 0 <= j < top_idx@.len() ==> (#[trigger] top_idx@[j]) < keys@.len(),
            all_fit(b, top@),
            all_home(b, contenders@),
            all_home(b, top@),
            forall|q: int| 0 <= q < top@.len() ==> #[trigger] top@[q] == contenders@[top_idx@[q] as int],
            forall|q: int| 0 <= q < keys@.len() ==> #[trigger] keys@[q] == contender_key(contenders@[q]),
        decreases top_idx@.len() - t,
    {
        let c = contenders[top_idx[t]];
        assert(fits_base(contenders@[top_idx@[t as int] as int].level, b));
        assert(layout_ok(contenders@[top_idx@[t as int] as int].level, b));
        assert(leads_home(b, contenders@[top_idx@[t as int] as int]));
        let ghost before = top@;
        top.push(c);
        proof {
            assert forall|q: int| 0 <= q < top@.len() implies fits_base((#[trigger] top@[q]).level, b) && layout_ok(top@[q].level, b) by {
                if q < before.len() {
                    assert(top@[q] == before[q]);
                }
            }
            assert forall|q: int| 0 <= q < top@.len() implies leads_home(b, #[trigger] top@[q]) by {
                if q < before.len() {
                    assert(top@[q] == before[q]);
                }
            }
            assert forall|q: int| 0 <= q < top@.len() implies #[trigger] top@[q] == contenders@[top_idx@[q] as int] by {
                if q < before.len() {
                    assert(top@[q] == before[q]);
                }
            }
        }
        t = t + 1;
    }
    proof {
        assert forall|j: int, k: int| 0 <= j < k < top@.len()
            implies contender_key(#[trigger] top@[j]) <= contender_key(#[trigger] top@[k]) by {
            let rj = top_idx@[j];
            let rk = top_idx@[k];
            assert(rk != rj);
            assert(!top_idx@.take(j).contains(rk)) by {
                if top_idx@.take(j).contains(rk) {
                    let u = choose|u: int| 0 <= u < top_idx@.take(j).len() && top_idx@.take(j)[u] == rk;
                    assert(top_idx@[u] == top_idx@[k]);
                }
            }
            assert(crate::generate::key_before(keys@, rj as int, rk as int));
        }
        assert(keys@ =~= keys_of(contenders@));
        assert(smallest_first(keys_of(contenders@), top_idx@));
        assert(best_of(contenders@, top@));
        assert(first_layer(b, base_map, first));
        assert(searched_top(v, max_depth as int, max_maps as int, top@));
        crate::pullsearch::lemma_searched_top_deepest(v, max_depth as int, max_maps as int, top@);
    }
    top
}

/// The levels of the contenders `top` picked by `picks`, in that order: each the
/// contender's position on the walls and holes of `base_level_in`, with its number of moves,
/// its depth and its moves (played forwards, they solve the level) as settings.
pub fn levels_from_contenders(top: &Vec<PathMap>, picks: &Vec<usize>, base_level_in: &Level) -> (r: Vec<Level>)
    requires
        solvable_input(base_level_in@),
        all_fit(solve_base(base_level_in@), top@),
        all_home(solve_base(base_level_in@), top@),
        forall|j: int| 0 <= j < picks@.len() ==> (#[trigger] picks@[j]) < top@.len(),
    ensures
        r@.len() == picks@.len(),
        forall|k: int| 0 <= k < r@.len() ==> {
            &&& made_level(base_level_in@, #[trigger] r@[k]@)
            &&& r@[k]@.keyval("depth"@) == Some(decimal(top@[picks@[k] as int].depth as nat))
            &&& r@[k]@.keyval("path"@) == Some(moves_text(backwards(top@[picks@[k] as int].path.path())))
        },
{
    let ghost v = base_level_in@;
    let base_level1 = base_level_in.clear_human_cloned();
    assert(base_level1@.data.len() == v.data.len()) by {
        let hp = v.human_pos;
        assert(cell_index(v.w as int, hp) < v.w * v.h) by (nonlinear_arith)
            requires 0 <= hp.0 < v.w, 0 <= hp.1 < v.h;
    }
    let base_map = PathMap::new_from_level(&base_level1);
    let base_level = base_level1.clear_boxxes_cloned();
    let ghost b = base_level@;
    proof {
        lemma_start(v, base_level1@, b, base_map);
    }
    let mut levels: Vec<Level> = Vec::new();
    let mut k: usize = 0;
    while k < picks.len()
        invariant
            v == base_level_in@,
            b == base_level@,
            b == solve_base(v),
            is_base_level(b),
            solvable_input(v),
            all_fit(b, top@),
            all_home(b, top@),
            forall|j: int| 0 <= j < picks@.len() ==> (#[trigger] picks@[j]) < top@.len(),
            k <= picks@.len(),
            levels@.len() == k,
            forall|q: int| 0 <= q < levels@.len() ==> {
                &&& made_level(v, #[trigger] levels@[q]@)
                &&& levels@[q]@.keyval("depth"@) == Some(decimal(top@[picks@[q] as int].depth as nat))
                &&& levels@[q]@.keyval("path"@) == Some(moves_text(backwards(top@[picks@[q] as int].path.path())))
            },
        decreases picks@.len() - k,
    {
        let c = top[picks[k]];
        assert(fits_base(top@[picks@[k as int] as int].level, b));
        assert(layout_ok(top@[picks@[k as int] as int].level, b));
        assert(leads_home(b, top@[picks@[k as int] as int]));
        let level = level_of_contender(&c, &base_level, Ghost(v));
        let ghost before = levels@;
        levels.push(level);
        proof {
            assert forall|q: int| 0 <= q < levels@.len() implies {
                &&& made_level(v, #[trigger] levels@[q]@)
                &&& levels@[q]@.keyval("depth"@) == Some(decimal(top@[picks@[q] as int].depth as nat))
                &&& levels@[q]@.keyval("path"@) == Some(moves_text(backwards(top@[picks@[q] as int].path.path())))
            } by {
                if q < before.len() {
                    assert(levels@[q] == before[q]);
                }
            }
        }
        k = k + 1;
    }
    levels
}

/// The level `l` was made from the contender `c`: its depth and its path are the
/// contender's.
pub open spec fn from_contender(l: LevelView, c: PathMap) -> bool {
    &&& l.keyval("depth"@) == Some(decimal(c.depth as nat))
    &&& l.keyval("path"@) == Some(moves_text(backwards(c.path.path())))
}

/// The level `l` was made from one of the contenders `top`.
pub open spec fn of_some_contender(l: LevelView, top: Seq<PathMap>) -> bool {
    exists|j: int| 0 <= j < top.len() && #[trigger] from_contender(l, top[j])
}

/// Makes up to 3 new levels from the level `base_level_in` by playing it backwards: up to 3
/// of its contenders (the best of the level maker's search, see `unsolve_contenders`) are
/// picked at random (all of them, in order, when there are at most 3), and each becomes a
/// level on the same walls and holes, with one human, its number of moves, its depth and
/// its moves (played forwards) as settings.
pub fn unsolve_level(base_level_in: &Level, max_depth: u16, max_maps: usize, rng: &mut ChaCha8Rng) -> (r: Vec<Level>)
    requires
        solvable_input(base_level_in@),
        max_depth < u16::MAX,
        8 <= max_maps <= usize::MAX / 4,
    ensures
        r@.len() <= 3,
        forall|k: int| 0 <= k < r@.len() ==> made_level(base_level_in@, #[trigger] r@[k]@),
        forall|k: int| 0 <= k < r@.len() ==> count_boxes((#[trigger] r@[k])@.data) == count_boxes(base_level_in@.data),
        exists|top: Seq<PathMap>| #![trigger searched_top(base_level_in@, max_depth as int, max_maps as int, top)] {
            &&& searched_top(base_level_in@, max_depth as int, max_maps as int, top)
            &&& top.len() <= 10
            &&& all_home(solve_base(base_level_in@), top)
            &&& (forall|j: int, k: int| 0 <= j < k < top.len() ==> contender_key(#[trigger] top[j]) <= contender_key(#[trigger] top[k]))
            &&& (forall|j: int, k: int| 0 <= j < k < top.len() ==> crate::pullsearch::no_shallower(#[trigger] top[j], #[trigger] top[k]))
            &&& r@.len() == (if top.len() <= 3 { top.len() as int } else { 3 })
            &&& forall|k: int| 0 <= k < r@.len() ==> #[trigger] of_some_contender(r@[k]@, top)
            &&& top.len() <= 3 ==> forall|k: int| 0 <= k < r@.len() ==> #[trigger] from_contender(r@[k]@, top[k])
        },
        exists|m0: PathMap, cs1: Seq<Seq<PathMap>>, cs2: Seq<Seq<PathMap>>|
            starts(base_level_in@, m0.level) && m0.path.path() == Seq::<Move>::empty() && m0.path.consistent()
            && m0.depth == 0 && #[trigger] finish_layer(solve_base(base_level_in@), m0, cs1, cs2)
            && (r@.len() == 0 <==> none_home(solve_base(base_level_in@), joined(cs2))),
{
    let top = unsolve_contenders(base_level_in, max_depth, max_maps);
    let picks = select_unique_n_from(3, top.len(), rng);
    let r = levels_from_contenders(&top, &picks, base_level_in);
    proof {
        assert forall|k: int| 0 <= k < r@.len() implies #[trigger] of_some_contender(r@[k]@, top@) by {
            let j = picks@[k] as int;
            assert(0 <= j < top@.len());
            assert(from_contender(r@[k]@, top@[j]));
        }
        if top@.len() <= 3 {
            assert(picks@.len() == top@.len());
            assert forall|k: int| 0 <= k < r@.len() implies #[trigger] from_contender(r@[k]@, top@[k]) by {
                assert(picks@[k] == k);
                assert(from_contender(r@[k]@, top@[picks@[k] as int]));
            }
        } else {
            assert(picks@.len() == 3);
        }
        assert(r@.len() == (if top@.len() <= 3 { top@.len() as int } else { 3 }));
        assert(all_home(solve_base(base_level_in@), top@));
        if r@.len() > 0 {
            let v = base_level_in@;
            let (m0, cs1, cs2) = choose|m0: PathMap, cs1: Seq<Seq<PathMap>>, cs2: Seq<Seq<PathMap>>|
                starts(v, m0.level) && m0.path.path() == Seq::<Move>::empty() && m0.path.consistent()
                && m0.depth == 0 && #[trigger] finish_layer(solve_base(v), m0, cs1, cs2)
                && (top@.len() == 0 <==> none_home(solve_base(v), joined(cs2)));
            lemma_home_counts(v, m0, cs1, cs2);
            assert forall|k: int| 0 <= k < r@.len() implies count_boxes((#[trigger] r@[k])@.data) == count_boxes(v.data) by {
                assert(made_level(v, r@[k]@));
            }
        }
    }
    r
}

} // verus!
