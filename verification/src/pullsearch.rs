//! The level maker's search, depth by depth: what each depth of pulls keeps, and which
//! positions end up as its contenders.
use vstd::prelude::*;
use crate::level::{LevelView, SpLevel};
use crate::pathnodemap::PathMap;
use crate::solve::{same_st, covered, st_sorted, seen_moves, unseen};
use crate::unsolve::{pulls_of, joined, unknown, noted_moves, contender_key, finish_layer, none_home, all_home, all_fit,
    won_cleared};
use crate::solve::{starts, solve_base};
use crate::vector::{Move, PathTrait};
use crate::generate::smallest_first;

verus! {

/// The state of the search at the start of a depth: the layer to pull from, the layers of
/// the last two depths (the contenders), the states seen before them, how many times the
/// layer was cut down, and the depth.
pub type SearchState = (Seq<PathMap>, Seq<PathMap>, Seq<PathMap>, Seq<(SpLevel, u16)>, int, int);

/// Every other map of the list, starting with the first.
pub open spec fn every_other(s: Seq<PathMap>) -> Seq<PathMap> {
    Seq::new(((s.len() + 1) / 2) as nat, |k: int| s[2 * k])
}

/// The list halved, again and again, until it holds at most `limit` maps.
pub open spec fn halved_to(s: Seq<PathMap>, limit: int) -> Seq<PathMap>
    decreases s.len(),
{
    if s.len() > limit && s.len() >= 2 {
        halved_to(every_other(s), limit)
    } else {
        s
    }
}

/// `out` holds one map of each state of `maps`, one with the fewest moves, in the order of
/// the states.
pub open spec fn dedup_of(maps: Seq<PathMap>, out: Seq<PathMap>) -> bool {
    &&& forall|k: int| 0 <= k < out.len() ==> maps.contains(#[trigger] out[k])
    &&& forall|k: int, l: int| 0 <= k < l < out.len() ==> !same_st((#[trigger] out[k]).level, (#[trigger] out[l]).level)
    &&& st_sorted(out)
    &&& forall|i: int| 0 <= i < maps.len() ==> covered(out, #[trigger] maps[i])
    &&& forall|k: int, i: int| 0 <= k < out.len() && 0 <= i < maps.len() && same_st((#[trigger] out[k]).level, (#[trigger] maps[i]).level)
        ==> out[k].path.path().len() <= maps[i].path.path().len()
}

/// What one depth of the search from `s` keeps: the states of every pull from its layer,
/// one per state with the fewest moves, rid of the states its last two layers hold in as
/// few moves and of the states seen (the older contenders are noted as seen first, while
/// fewer than `4 * max_maps` states are noted) in as few moves. `seen2` is the list of
/// states seen after the noting.
#[verifier::opaque]
pub open spec fn sifted(b: LevelView, s: SearchState, max_maps: int, seen2: Seq<(SpLevel, u16)>, kept: Seq<PathMap>) -> bool {
    exists|cs: Seq<Seq<PathMap>>, dd: Seq<PathMap>|
        cs.len() == s.0.len()
        && (forall|j: int| 0 <= j < cs.len() ==> pulls_of(b, s.0[j], s.5 as u16, #[trigger] cs[j]))
        && #[trigger] dedup_of(joined(cs), dd)
        && (forall|t: SpLevel| #[trigger] seen_moves(seen2, t)
            == if s.3.len() < max_maps * 4 { noted_moves(s.3, s.2, t) } else { seen_moves(s.3, t) })
        && kept == unseen(unknown(unknown(dd, s.1), s.0), seen2)
}

/// The search goes on from `s` to `t`: the depth keeps some states, the depth limit is not
/// reached, and the layer is not too large for the fourth time; a layer larger than
/// `max_maps / 8` is halved down to that size.
#[verifier::opaque]
pub open spec fn search_step(b: LevelView, max_depth: int, max_maps: int, s: SearchState, t: SearchState) -> bool {
    exists|seen2: Seq<(SpLevel, u16)>, kept: Seq<PathMap>| #[trigger] sifted(b, s, max_maps, seen2, kept)
        && kept.len() > 0
        && s.5 <= max_depth
        && !(kept.len() > max_maps / 8 && s.4 == 3)
        && t == (
            if kept.len() > max_maps / 8 { halved_to(kept, max_maps / 8) } else { kept },
            s.0,
            s.1,
            seen2,
            if kept.len() > max_maps / 8 { s.4 + 1 } else { s.4 },
            s.5 + 1,
        )
}

/// The search ends at `s` with the contenders `fin`: when the depth keeps nothing, the last
/// layer (and the one before it too, if the last has fewer than 10 maps); at the depth
/// limit, the last layer and the new states (and the layer before, if fewer than 10); when
/// the layer is too large for the fourth time, the new states.
#[verifier::opaque]
pub open spec fn search_end(b: LevelView, max_depth: int, max_maps: int, s: SearchState, fin: Seq<PathMap>) -> bool {
    exists|seen2: Seq<(SpLevel, u16)>, kept: Seq<PathMap>| #[trigger] sifted(b, s, max_maps, seen2, kept)
        && if kept.len() == 0 {
            fin == if s.0.len() < 10 { s.0 + s.1 } else { s.0 }
        } else if s.5 > max_depth {
            fin == if s.0.len() + kept.len() < 10 { s.0 + kept + s.1 } else { s.0 + kept }
        } else {
            kept.len() > max_maps / 8 && s.4 == 3 && fin == kept
        }
}

/// The search from the first layer `first` ends with the contenders `fin`.
pub open spec fn search_run(b: LevelView, max_depth: int, max_maps: int, first: Seq<PathMap>, fin: Seq<PathMap>) -> bool {
    exists|tr: Seq<SearchState>| #[trigger] search_trace(b, max_depth, max_maps, first, tr)
        && search_end(b, max_depth, max_maps, tr.last(), fin)
}

/// `tr` are the states of the search from the first layer `first`, depth after depth.
#[verifier::opaque]
pub open spec fn search_trace(b: LevelView, max_depth: int, max_maps: int, first: Seq<PathMap>, tr: Seq<SearchState>) -> bool {
    &&& tr.len() >= 1
    &&& tr[0] == (first, Seq::<PathMap>::empty(), Seq::<PathMap>::empty(), Seq::<(SpLevel, u16)>::empty(), 0int, 0int)
    &&& forall|i: int| 0 <= i < tr.len() - 1 ==> search_step(b, max_depth, max_maps, #[trigger] tr[i], tr[i + 1])
}

/// The key of each contender, as the sorting uses it.
pub open spec fn keys_of(cs: Seq<PathMap>) -> Seq<usize> {
    Seq::new(cs.len(), |q: int| contender_key(cs[q]) as usize)
}

/// `top` are the first 10 contenders of `fin` (all of them if fewer) by key: most pushes,
/// then most moves, ties in the order of `fin`.
pub open spec fn best_of(fin: Seq<PathMap>, top: Seq<PathMap>) -> bool {
    exists|idx: Seq<usize>| #[trigger] smallest_first(keys_of(fin), idx)
        && idx.len() == (if fin.len() < 10 { fin.len() as int } else { 10 })
        && top.len() == idx.len()
        && forall|q: int| 0 <= q < top.len() ==> #[trigger] top[q] == fin[idx[q] as int]
}

/// The first layer of the level maker's search from the start `m0`: the positions with
/// every box on a hole among those reached from the start by a pull and then a push worth
/// trying, in order, with their moves cleared.
pub open spec fn first_layer(b: LevelView, m0: PathMap, first: Seq<PathMap>) -> bool {
    &&& all_fit(b, first)
    &&& all_home(b, first)
    &&& exists|cs1: Seq<Seq<PathMap>>, cs2: Seq<Seq<PathMap>>| #[trigger] finish_layer(b, m0, cs1, cs2)
        && (first.len() == 0 <==> none_home(b, joined(cs2)))
        && won_cleared(joined(cs2), b, first)
}

/// `top` are the best contenders of the level maker's search of `v`: the search from the
/// start of `v`, with at most `max_depth + 1` depths of pulls and `max_maps` states, ends
/// with contenders of which `top` are the first 10 by key.
pub open spec fn searched_top(v: LevelView, max_depth: int, max_maps: int, top: Seq<PathMap>) -> bool {
    exists|m0: PathMap, first: Seq<PathMap>, fin: Seq<PathMap>|
        starts(v, m0.level) && m0.path.path() == Seq::<Move>::empty() && m0.path.consistent() && m0.depth == 0
        && #[trigger] first_layer(solve_base(v), m0, first)
        && #[trigger] search_run(solve_base(v), max_depth, max_maps, first, fin)
        && best_of(fin, top)
}

/// Halving a list with more than `limit` maps (and at least one allowed) gives a shorter
/// list.
pub proof fn lemma_halved_step(s: Seq<PathMap>, limit: int)
    requires
        s.len() > limit,
        limit >= 1,
    ensures
        halved_to(s, limit) == halved_to(every_other(s), limit),
        every_other(s).len() < s.len(),
{
}

/// A trace of the search goes on by one more step.
pub proof fn lemma_trace_push(b: LevelView, max_depth: int, max_maps: int, first: Seq<PathMap>, tr: Seq<SearchState>, t: SearchState)
    requires
        search_trace(b, max_depth, max_maps, first, tr),
        search_step(b, max_depth, max_maps, tr.last(), t),
    ensures
        search_trace(b, max_depth, max_maps, first, tr.push(t)),
{
    reveal(search_trace);
    let ntr = tr.push(t);
    assert forall|i: int| 0 <= i < ntr.len() - 1 implies search_step(b, max_depth, max_maps, #[trigger] ntr[i], ntr[i + 1]) by {
        if i < tr.len() - 1 {
            assert(ntr[i] == tr[i] && ntr[i + 1] == tr[i + 1]);
        } else {
            assert(ntr[i] == tr.last() && ntr[i + 1] == t);
        }
    }
}

/// The trace of a search that has not gone on yet: the first state alone.
pub proof fn lemma_trace_start(b: LevelView, max_depth: int, max_maps: int, first: Seq<PathMap>)
    ensures
        search_trace(b, max_depth, max_maps, first, seq![(first, Seq::<PathMap>::empty(), Seq::<PathMap>::empty(),
            Seq::<(SpLevel, u16)>::empty(), 0int, 0int)]),
{
    reveal(search_trace);
}

/// `a` is at least as deep a contender as `c`: more pushes, or as many and at least as
/// many moves.
pub open spec fn no_shallower(a: PathMap, c: PathMap) -> bool {
    a.depth > c.depth || (a.depth == c.depth && a.path.path().len() >= c.path.path().len())
}

/// A contender with a key no larger is no shallower.
pub proof fn lemma_key_order(a: PathMap, c: PathMap)
    ensures
        (contender_key(a) as usize <= contender_key(c) as usize) ==> no_shallower(a, c),
{
    a.path.lemma_moves_len();
    c.path.lemma_moves_len();
    let la = a.path.path().len() as int;
    let lc = c.path.path().len() as int;
    let da = a.depth as int;
    let dc = c.depth as int;
    assert(0 <= contender_key(a) < 0x1_0000_0000) by (nonlinear_arith)
        requires contender_key(a) == (65535 - da) * 65536 + (65535 - la), 0 <= da <= 65535, 0 <= la <= 65535;
    assert(0 <= contender_key(c) < 0x1_0000_0000) by (nonlinear_arith)
        requires contender_key(c) == (65535 - dc) * 65536 + (65535 - lc), 0 <= dc <= 65535, 0 <= lc <= 65535;
    assert(contender_key(a) <= contender_key(c) ==> (da > dc || (da == dc && la >= lc))) by (nonlinear_arith)
        requires contender_key(a) == (65535 - da) * 65536 + (65535 - la),
            contender_key(c) == (65535 - dc) * 65536 + (65535 - lc),
            0 <= da <= 65535, 0 <= la <= 65535, 0 <= dc <= 65535, 0 <= lc <= 65535;
}

/// The contenders kept are the deepest: in order of most pushes, then most moves, and no
/// contender left out has more pushes than a kept one, or as many and more moves. At most
/// 10 are kept, all of them when there are fewer.
pub proof fn lemma_best_are_deepest(fin: Seq<PathMap>, top: Seq<PathMap>)
    requires
        best_of(fin, top),
        fin.len() <= usize::MAX,
    ensures
        top.len() == (if fin.len() < 10 { fin.len() as int } else { 10 }),
        forall|j: int, k: int| 0 <= j < k < top.len() ==> no_shallower(#[trigger] top[j], #[trigger] top[k]),
        forall|i: int, q: int| 0 <= i < fin.len() && 0 <= q < top.len() && !top.contains(fin[i])
            ==> no_shallower(#[trigger] top[q], #[trigger] fin[i]),
{
    let keys = keys_of(fin);
    let idx = choose|idx: Seq<usize>| #[trigger] smallest_first(keys_of(fin), idx)
        && idx.len() == (if fin.len() < 10 { fin.len() as int } else { 10 })
        && top.len() == idx.len()
        && forall|q: int| 0 <= q < top.len() ==> #[trigger] top[q] == fin[idx[q] as int];
    assert forall|j: int, k: int| 0 <= j < k < top.len() implies no_shallower(#[trigger] top[j], #[trigger] top[k]) by {
        let rj = idx[j];
        let rk = idx[k];
        assert(rk != rj);
        assert(!idx.take(j).contains(rk)) by {
            if idx.take(j).contains(rk) {
                let u = choose|u: int| 0 <= u < idx.take(j).len() && idx.take(j)[u] == rk;
                assert(idx[u] == idx[k]);
            }
        }
        assert(crate::generate::key_before(keys, rj as int, rk as int));
        lemma_key_order(fin[rj as int], fin[rk as int]);
    }
    assert forall|i: int, q: int| 0 <= i < fin.len() && 0 <= q < top.len() && !top.contains(fin[i])
        implies no_shallower(#[trigger] top[q], #[trigger] fin[i]) by {
        let rq = idx[q];
        assert(!idx.take(q).contains(i as usize)) by {
            if idx.take(q).contains(i as usize) {
                let u = choose|u: int| 0 <= u < idx.take(q).len() && idx.take(q)[u] == i as usize;
                assert(idx[u] == idx.take(q)[u]);
                assert(idx[u] as int == i);
                assert(top[u] == fin[i]);
                assert(top.contains(fin[i]));
            }
        }
        if i == rq as int {
            assert(top[q] == fin[i]);
            assert(top.contains(fin[i]));
        }
        assert(crate::generate::key_before(keys, rq as int, i));
        lemma_key_order(fin[rq as int], fin[i]);
    }
}

/// The best contenders of the level maker's search are the deepest of the contenders the
/// search ends with (see `lemma_best_are_deepest`).
pub proof fn lemma_searched_top_deepest(v: LevelView, max_depth: int, max_maps: int, top: Seq<PathMap>)
    requires
        searched_top(v, max_depth, max_maps, top),
    ensures
        forall|j: int, k: int| 0 <= j < k < top.len() ==> no_shallower(#[trigger] top[j], #[trigger] top[k]),
        exists|first: Seq<PathMap>, fin: Seq<PathMap>| #[trigger] search_run(solve_base(v), max_depth, max_maps, first, fin)
            && top.len() == (if fin.len() < 10 { fin.len() as int } else { 10 })
            && (fin.len() <= usize::MAX ==> forall|i: int, q: int| 0 <= i < fin.len() && 0 <= q < top.len()
                && !top.contains(fin[i]) ==> no_shallower(#[trigger] top[q], #[trigger] fin[i])),
{
    let (m0, first, fin) = choose|m0: PathMap, first: Seq<PathMap>, fin: Seq<PathMap>|
        starts(v, m0.level) && m0.path.path() == Seq::<Move>::empty() && m0.path.consistent() && m0.depth == 0
        && #[trigger] first_layer(solve_base(v), m0, first)
        && #[trigger] search_run(solve_base(v), max_depth, max_maps, first, fin)
        && best_of(fin, top);
    let idx = choose|idx: Seq<usize>| #[trigger] smallest_first(keys_of(fin), idx)
        && idx.len() == (if fin.len() < 10 { fin.len() as int } else { 10 })
        && top.len() == idx.len()
        && forall|q: int| 0 <= q < top.len() ==> #[trigger] top[q] == fin[idx[q] as int];
    assert forall|j: int, k: int| 0 <= j < k < top.len() implies no_shallower(#[trigger] top[j], #[trigger] top[k]) by {
        let rj = idx[j];
        let rk = idx[k];
        assert(rk != rj);
        assert(!idx.take(j).contains(rk)) by {
            if idx.take(j).contains(rk) {
                let u = choose|u: int| 0 <= u < idx.take(j).len() && idx.take(j)[u] == rk;
                assert(idx[u] == idx[k]);
            }
        }
        assert(crate::generate::key_before(keys_of(fin), rj as int, rk as int));
        lemma_key_order(fin[rj as int], fin[rk as int]);
    }
    if fin.len() <= usize::MAX {
        lemma_best_are_deepest(fin, top);
    }
    assert(search_run(solve_base(v), max_depth, max_maps, first, fin));
}

} // verus!
