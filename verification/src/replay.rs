//! The solver's moves and the game's: a move of the search on the state of a game is a
//! move the game allows, with the same outcome, so a solution replays in the game and wins.
use vstd::prelude::*;
use crate::obj::Obj;
use crate::level::{LevelView, SpLevel, packs, bitmap_bit, cell_index, in_bounds, is_box_obj, is_hole_obj, human_cleared};
use crate::vector::{Move, Vector};
use crate::game::{GameView, can_move, moved_grid, step, step2, is_free, lemma_move_keeps_wf, lemma_move_keeps_layout};
use crate::pathnodemap::{is_base_level, play_step, play_chain, plays, walkable, push_ok, pushed, moved_human, human_cell,
    plays_pushing, push_flags, count_true};
use crate::solve::{solves_pushing, found_solution};
use crate::vector::moves_text;
use crate::solve::{solves, solve_base, starts, solvable_input};
use crate::level::{CmpData, count_boxes};
use crate::readback::count_holes;
use crate::game::lemma_move_keeps_box_count;
use crate::pathnodemap::lemma_plays_push;
use vstd::array::{spec_array_update, spec_array_fill_for_copy_type};

verus! {

/// The game `g` after the moves `ms`, each one the game allows, if all of them are: the
/// human and the grid as the game's moves leave them.
pub open spec fn replay(g: GameView, ms: Seq<Move>) -> Option<GameView>
    decreases ms.len(),
{
    if ms.len() == 0 {
        Some(g)
    } else {
        match replay(g, ms.drop_last()) {
            Some(q) => if can_move(q.level, q.human_pos, ms.last()) {
                Some(GameView {
                    human_pos: step(q.human_pos, ms.last()),
                    level: q.level.with_data(moved_grid(q.level, q.human_pos, ms.last())),
                    ..q
                })
            } else {
                None
            },
            None => None,
        }
    }
}

/// How many of the moves `ms`, replayed in the game `g`, push a box.
pub open spec fn replay_pushes(g: GameView, ms: Seq<Move>) -> nat
    decreases ms.len(),
{
    if ms.len() == 0 {
        0
    } else {
        replay_pushes(g, ms.drop_last()) + match replay(g, ms.drop_last()) {
            Some(q) => if is_box_obj(q.level.obj_at(step(q.human_pos, ms.last()))) { 1nat } else { 0nat },
            None => 0nat,
        }
    }
}

/// A new game of the level `v`, as `Game::new_from_level` starts it (numbered 0).
pub open spec fn fresh_game(v: LevelView) -> GameView {
    GameView {
        level_number: 0,
        num_moves: 0,
        move_history: Seq::empty(),
        human_pos: v.human_pos,
        level: v,
        move_queue: Seq::empty(),
    }
}

/// Played in a new game of `v`, the moves `ms` are each allowed and leave the level won.
pub open spec fn game_wins(v: LevelView, ms: Seq<Move>) -> bool {
    replay(fresh_game(v), ms) matches Some(g) && g.level.won()
}

/// `s` is the search state of the game `g`: its size, its human and its boxes.
pub open spec fn game_state(g: GameView, s: SpLevel) -> bool {
    &&& s.w == g.level.w as i8
    &&& s.h == g.level.h as i8
    &&& s.hx() == g.human_pos.0 as i8
    &&& s.hy() == g.human_pos.1 as i8
    &&& packs(s.blocks(), g.level.data, false)
}

/// `b` is the base of the game's grid: its size, and its grid with the human and boxes
/// taken off.
pub open spec fn game_base(g: GameView, b: LevelView) -> bool {
    &&& is_base_level(b)
    &&& b.w == g.level.w
    &&& b.h == g.level.h
    &&& b.data == g.level.sprites_stripped()
}

/// Two cells inside the grid with the same index are the same cell.
pub(crate) proof fn lemma_cell_same(w: int, h: int, p: Vector, q: Vector)
    requires
        in_bounds(w, h, p),
        in_bounds(w, h, q),
        cell_index(w, p) == cell_index(w, q),
    ensures
        p == q,
{
    assert(p.0 == q.0 && p.1 == q.1) by (nonlinear_arith)
        requires p.0 + p.1 * w == q.0 + q.1 * w, 0 <= p.0 < w, 0 <= q.0 < w, 0 <= p.1, 0 <= q.1;
}

/// A cell inside the grid has an index of the grid.
pub(crate) proof fn lemma_cell_in(w: int, h: int, p: Vector)
    requires
        in_bounds(w, h, p),
    ensures
        0 <= cell_index(w, p) < w * h,
{
    assert(0 <= cell_index(w, p) < w * h) by (nonlinear_arith)
        requires 0 <= p.0 < w, 0 <= p.1 < h, cell_index(w, p) == p.0 + p.1 * w;
}

/// A move of the search from the state of a game is a move the game allows, and leads to
/// the state of the game after it; the grid keeps its walls and holes.
#[verifier::spinoff_prover]
#[verifier::rlimit(40)]
pub proof fn lemma_step_agrees(g: GameView, b: LevelView, s: SpLevel, m: Move, r: SpLevel)
    requires
        g.wf(),
        g.level.w <= 127,
        g.level.h <= 127,
        game_base(g, b),
        game_state(g, s),
        play_step(s, b, m, r),
    ensures
        can_move(g.level, g.human_pos, m),
        s.box_at(step(human_cell(s), m)) == is_box_obj(g.level.obj_at(step(g.human_pos, m))),
        game_state(GameView { human_pos: step(g.human_pos, m), level: g.level.with_data(moved_grid(g.level, g.human_pos, m)), ..g }, r),
{
    let v = g.level;
    let w = v.w as int;
    let h = v.h as int;
    let hp = g.human_pos;
    let np = step(hp, m);
    let bp = step2(hp, m);
    let lv = LevelView { human_pos: hp, ..v };
    assert(lv.human_placed());
    assert(human_cell(s) == hp);
    let hc = cell_index(w, hp);
    lemma_cell_in(w, h, hp);
    assert(in_bounds(w, h, np));
    lemma_cell_in(w, h, np);
    let nc = cell_index(w, np);
    if nc == hc {
        lemma_cell_same(w, h, np, hp);
    }
    assert(s.bit_index(np) == nc);
    assert(bitmap_bit(s.blocks(), nc) == is_box_obj(v.data[nc]));
    assert(b.obj_at(np) == v.sprites_stripped()[nc]);
    assert(v.data[nc] != Obj::Human && v.data[nc] != Obj::HumanInHole);
    let nv = v.with_data(moved_grid(v, hp, m));
    if walkable(s, b, np) && r == moved_human(s, np.0 as i8, np.1 as i8) {
        assert(is_free(v.obj_at(np)));
        assert(can_move(v, hp, m));
        assert forall|i: int| 0 <= i < 256 implies #[trigger] bitmap_bit(r.blocks(), i) == (i < nv.data.len() && is_box_obj(nv.data[i])) by {
            assert(bitmap_bit(s.blocks(), i) == (i < v.data.len() && crate::level::pack_pred(false, v.data[i])));
            if 0 <= i < v.data.len() && i != hc && i != nc {
                assert(nv.data[i] == v.data[i]);
            }
        }
    } else {
        assert(push_ok(s, b, hp, m) && pushed(s, hp, m, r));
        assert(in_bounds(w, h, bp));
        lemma_cell_in(w, h, bp);
        let bc = cell_index(w, bp);
        if bc == hc {
            lemma_cell_same(w, h, bp, hp);
        }
        if bc == nc {
            lemma_cell_same(w, h, bp, np);
        }
        assert(s.bit_index(bp) == bc);
        assert(bitmap_bit(s.blocks(), bc) == is_box_obj(v.data[bc]));
        assert(b.obj_at(bp) == v.sprites_stripped()[bc]);
        assert(v.data[bc] != Obj::Human && v.data[bc] != Obj::HumanInHole);
        assert(is_box_obj(v.obj_at(np)));
        assert(is_free(v.obj_at(bp)));
        assert(can_move(v, hp, m));
        assert forall|i: int| 0 <= i < 256 implies #[trigger] bitmap_bit(r.blocks(), i) == (i < nv.data.len() && is_box_obj(nv.data[i])) by {
            assert(bitmap_bit(s.blocks(), i) == (i < v.data.len() && crate::level::pack_pred(false, v.data[i])));
            if 0 <= i < v.data.len() && i != hc && i != nc && i != bc {
                assert(nv.data[i] == v.data[i]);
            }
        }
    }
}

/// The base of a level the search works on is its grid with the human and boxes taken off.
proof fn lemma_base_stripped(v: LevelView)
    requires
        solvable_input(v),
    ensures
        solve_base(v).data == v.sprites_stripped(),
        is_base_level(solve_base(v)),
{
    crate::solve::lemma_base_ok(v);
    let w = v.w as int;
    let h = v.h as int;
    let hp = v.human_pos;
    let c = cell_index(w, hp);
    lemma_cell_in(w, h, hp);
    let hcl = human_cleared(v);
    assert forall|i: int| 0 <= i < v.data.len() implies #[trigger] solve_base(v).data[i] == v.sprites_stripped()[i] by {
        if i != c {
            assert(hcl.data[i] == v.data[i]);
        }
    }
    assert(solve_base(v).data =~= v.sprites_stripped());
}

/// The first `k` moves of a play from the state of a game replay in the game, to a game
/// whose state is the play's `k`th, with the walls and holes kept.
proof fn lemma_chain_replays(g0: GameView, b: LevelView, states: Seq<SpLevel>, ms: Seq<Move>, fin: SpLevel, k: int)
    requires
        g0.wf(),
        g0.level.w <= 127,
        g0.level.h <= 127,
        game_base(g0, b),
        play_chain(states, states[0], b, ms, fin),
        game_state(g0, states[0]),
        0 <= k <= ms.len(),
    ensures
        replay(g0, ms.take(k)) matches Some(g) && g.wf() && game_state(g, states[k])
            && g.level.w == g0.level.w && g.level.h == g0.level.h
            && g.level.sprites_stripped() == g0.level.sprites_stripped(),
        replay_pushes(g0, ms.take(k)) == count_true(push_flags(states, ms).take(k)),
    decreases k,
{
    if k == 0 {
        assert(ms.take(0) =~= Seq::<Move>::empty());
        assert(push_flags(states, ms).take(0) =~= Seq::<bool>::empty());
    } else {
        assert(push_flags(states, ms).take(k).drop_last() =~= push_flags(states, ms).take(k - 1));
        lemma_chain_replays(g0, b, states, ms, fin, k - 1);
        let g = replay(g0, ms.take(k - 1))->0;
        let m = ms[k - 1];
        assert(ms.take(k).drop_last() =~= ms.take(k - 1));
        assert(ms.take(k).last() == m);
        assert(play_step(states[k - 1], b, m, states[k]));
        assert(game_base(g, b));
        lemma_step_agrees(g, b, states[k - 1], m, states[k]);
        lemma_move_keeps_wf(g, m);
        lemma_move_keeps_layout(g, m);
    }
}

/// A solution replays in the game: played in a new game of the level, every move is one the
/// game allows, and the level ends won.
pub proof fn lemma_solution_replays(v: LevelView, ms: Seq<Move>)
    requires
        solvable_input(v),
        solves(v, ms),
    ensures
        game_wins(v, ms),
{
    let (s, fin) = choose|s: SpLevel, fin: SpLevel| starts(v, s) && #[trigger] plays(s, solve_base(v), ms, fin)
        && fin.blocks() == v.win_data;
    let b = solve_base(v);
    let g0 = fresh_game(v);
    lemma_base_stripped(v);
    assert(LevelView { human_pos: g0.human_pos, ..g0.level } == v);
    assert(g0.wf());
    let states = choose|states: Seq<SpLevel>| #[trigger] play_chain(states, s, b, ms, fin);
    lemma_chain_replays(g0, b, states, ms, fin, ms.len() as int);
    assert(ms.take(ms.len() as int) =~= ms);
    let g = replay(g0, ms)->0;
    let gv = g.level;
    assert forall|i: int| 0 <= i < gv.data.len() implies #[trigger] gv.data[i] != Obj::Boxx && gv.data[i] != Obj::Hole by {
        assert(bitmap_bit(fin.blocks(), i) == (i < gv.data.len() && crate::level::pack_pred(false, gv.data[i])));
        assert(bitmap_bit(v.win_data, i) == (i < v.data.len() && crate::level::pack_pred(true, v.data[i])));
        assert(gv.sprites_stripped()[i] == v.sprites_stripped()[i]);
    }
}

/// A solution that pushes a box `d` times replays in the game, wins, and pushes a box there
/// `d` times too.
pub proof fn lemma_solution_pushes(v: LevelView, ms: Seq<Move>, d: nat)
    requires
        solvable_input(v),
        solves_pushing(v, ms, d),
    ensures
        game_wins(v, ms),
        replay_pushes(fresh_game(v), ms) == d,
{
    let (s, fin) = choose|s: SpLevel, fin: SpLevel| starts(v, s) && #[trigger] plays_pushing(s, solve_base(v), ms, fin, d)
        && fin.blocks() == v.win_data;
    let b = solve_base(v);
    let states = choose|states: Seq<SpLevel>| #[trigger] play_chain(states, s, b, ms, fin) && count_true(push_flags(states, ms)) == d;
    assert(plays(s, b, ms, fin));
    lemma_solution_replays(v, ms);
    let g0 = fresh_game(v);
    lemma_base_stripped(v);
    assert(LevelView { human_pos: g0.human_pos, ..g0.level } == v);
    lemma_chain_replays(g0, b, states, ms, fin, ms.len() as int);
    assert(ms.take(ms.len() as int) =~= ms);
    assert(push_flags(states, ms).take(ms.len() as int) =~= push_flags(states, ms));
}

/// A solution the solver reports, as text, replays in the game and wins, with as many moves
/// and pushes as it reports.
pub proof fn lemma_found_replays(v: LevelView, text: Seq<char>, n: int, d: int)
    requires
        solvable_input(v),
        found_solution(v, text, n, d),
        d >= 0,
    ensures
        exists|ms: Seq<Move>| #[trigger] game_wins(v, ms) && ms.len() == n && moves_text(ms) == text
            && replay_pushes(fresh_game(v), ms) == d,
{
    let ms = choose|ms: Seq<Move>| #[trigger] solves(v, ms) && solves_pushing(v, ms, d as nat) && ms.len() == n && text == moves_text(ms);
    lemma_solution_pushes(v, ms, d as nat);
}

/// The bitmap `a` with the bit of cell `i` set to `on`.
pub open spec fn with_bit(a: [u64; 4], i: int, on: bool) -> [u64; 4] {
    let k = i / 64;
    let mask = 0x8000_0000_0000_0000u64 >> ((i % 64) as u64);
    spec_array_update(a, k, if on { a@[k] | mask } else { a@[k] & !mask })
}

/// Setting a bit changes that bit and no other.
proof fn lemma_with_bit(a: [u64; 4], i: int, on: bool)
    requires
        0 <= i < 256,
    ensures
        with_bit(a, i, on)@.len() == 4,
        forall|j: int| 0 <= j < 256 ==> #[trigger] bitmap_bit(with_bit(a, i, on)@, j)
            == if j == i { on } else { bitmap_bit(a@, j) },
{
    broadcast use vstd::array::group_array_axioms;
    let k = i / 64;
    assert(with_bit(a, i, on)@ == a@.update(k, if on { a@[k] | (0x8000_0000_0000_0000u64 >> ((i % 64) as u64)) }
        else { a@[k] & !(0x8000_0000_0000_0000u64 >> ((i % 64) as u64)) }));
    assert forall|j: int| 0 <= j < 256 implies #[trigger] bitmap_bit(with_bit(a, i, on)@, j)
        == if j == i { on } else { bitmap_bit(a@, j) } by {
        crate::level::lemma_bit_or(a@[j / 64], (i % 64) as u64, (j % 64) as u64);
        if j / 64 == k && j != i {
            assert(j % 64 != i % 64);
        }
        if j == i {
            assert(j % 64 == i % 64);
        }
    }
}

/// The bitmap of the boxes among the first `n` cells of `data`.
pub open spec fn box_bits(data: Seq<Obj>, n: nat) -> [u64; 4]
    decreases n,
{
    if n == 0 {
        spec_array_fill_for_copy_type::<u64, 4>(0u64)
    } else {
        with_bit(box_bits(data, (n - 1) as nat), n - 1, is_box_obj(data[n - 1]))
    }
}

/// The bitmap of the boxes has a bit set for each box among the first `n` cells.
proof fn lemma_box_bits(data: Seq<Obj>, n: nat)
    requires
        n <= 256,
        n <= data.len(),
    ensures
        box_bits(data, n)@.len() == 4,
        forall|j: int| 0 <= j < 256 ==> #[trigger] bitmap_bit(box_bits(data, n)@, j) == (j < n && is_box_obj(data[j])),
    decreases n,
{
    broadcast use vstd::array::group_array_axioms;
    if n == 0 {
        let z = spec_array_fill_for_copy_type::<u64, 4>(0u64);
        assert forall|j: int| 0 <= j < 256 implies !#[trigger] bitmap_bit(z@, j) by {
            crate::level::lemma_bit_or(0u64, 0u64, (j % 64) as u64);
            assert(z@[j / 64] == 0u64);
        }
    } else {
        lemma_box_bits(data, (n - 1) as nat);
        lemma_with_bit(box_bits(data, (n - 1) as nat), n - 1, is_box_obj(data[n - 1]));
    }
}

/// The search state of the given size, human's place and boxes.
pub open spec fn state_of(w: i8, h: i8, x: i8, y: i8, blocks: [u64; 4]) -> SpLevel {
    SpLevel { w, h, cmp_data: CmpData { human_x: x, human_y: y, blocks } }
}

/// The boxes of a search state, as an array of blocks.
pub open spec fn blocks_of(s: SpLevel) -> [u64; 4] {
    s.cmp_data.blocks
}

/// The search state of a new game of `v`: its size, its human and a bit for each box.
pub open spec fn start_state(v: LevelView) -> SpLevel {
    state_of(v.w as i8, v.h as i8, v.human_pos.0 as i8, v.human_pos.1 as i8, box_bits(v.data, v.data.len()))
}

/// A move the game allows is a move of the search from the game's state.
proof fn lemma_game_step(g: GameView, b: LevelView, s: SpLevel, m: Move) -> (r: SpLevel)
    requires
        g.wf(),
        g.level.w <= 127,
        g.level.h <= 127,
        game_base(g, b),
        game_state(g, s),
        can_move(g.level, g.human_pos, m),
    ensures
        play_step(s, b, m, r),
{
    let v = g.level;
    let w = v.w as int;
    let h = v.h as int;
    let hp = g.human_pos;
    let np = step(hp, m);
    let bp = step2(hp, m);
    let lv = LevelView { human_pos: hp, ..v };
    assert(lv.human_placed());
    assert(human_cell(s) == hp);
    let o = v.obj_at_checked(np);
    assert(in_bounds(w, h, np));
    lemma_cell_in(w, h, np);
    let cn = cell_index(w, np);
    assert(s.bit_index(np) == cn);
    assert(bitmap_bit(s.blocks(), cn) == (cn < v.data.len() && crate::level::pack_pred(false, v.data[cn])));
    assert(b.data[cn] == v.sprites_stripped()[cn]);
    if is_free(o) {
        let r = moved_human(s, np.0 as i8, np.1 as i8);
        assert(walkable(s, b, np));
        r
    } else {
        assert(in_bounds(w, h, bp));
        lemma_cell_in(w, h, bp);
        let cb = cell_index(w, bp);
        if cb == cn {
            lemma_cell_same(w, h, bp, np);
        }
        assert(s.bit_index(bp) == cb);
        assert(bitmap_bit(s.blocks(), cb) == (cb < v.data.len() && crate::level::pack_pred(false, v.data[cb])));
        assert(b.data[cb] == v.sprites_stripped()[cb]);
        let a1 = with_bit(blocks_of(s), cn, false);
        let a2 = with_bit(a1, cb, true);
        lemma_with_bit(blocks_of(s), cn, false);
        lemma_with_bit(a1, cb, true);
        let r = state_of(s.w, s.h, np.0 as i8, np.1 as i8, a2);
        assert(push_ok(s, b, hp, m));
        assert forall|i: int| 0 <= i < 256 implies #[trigger] bitmap_bit(r.blocks(), i)
            == (i != s.bit_index(np) && (i == s.bit_index(bp) || bitmap_bit(s.blocks(), i))) by {}
        assert(pushed(s, hp, m, r));
        r
    }
}

/// Replaying moves in a game, each allowed, plays them in the search from the game's state,
/// to the state of the game they lead to.
proof fn lemma_replay_plays(g0: GameView, b: LevelView, s0: SpLevel, ms: Seq<Move>, k: int) -> (r: SpLevel)
    requires
        g0.wf(),
        g0.level.w <= 127,
        g0.level.h <= 127,
        game_base(g0, b),
        game_state(g0, s0),
        0 <= k <= ms.len(),
        replay(g0, ms.take(k)) is Some,
    ensures
        plays(s0, b, ms.take(k), r),
        game_state(replay(g0, ms.take(k))->0, r),
        replay(g0, ms.take(k))->0.wf(),
        replay(g0, ms.take(k))->0.level.w == g0.level.w,
        replay(g0, ms.take(k))->0.level.h == g0.level.h,
        replay(g0, ms.take(k))->0.level.sprites_stripped() == g0.level.sprites_stripped(),
        count_boxes(replay(g0, ms.take(k))->0.level.data) == count_boxes(g0.level.data),
    decreases k,
{
    if k == 0 {
        assert(ms.take(0) =~= Seq::<Move>::empty());
        crate::pathnodemap::lemma_plays_none(s0, b);
        s0
    } else {
        assert(ms.take(k).drop_last() =~= ms.take(k - 1));
        assert(ms.take(k).last() == ms[k - 1]);
        let q = lemma_replay_plays(g0, b, s0, ms, k - 1);
        let g = replay(g0, ms.take(k - 1))->0;
        let m = ms[k - 1];
        assert(can_move(g.level, g.human_pos, m));
        assert(game_base(g, b));
        let r = lemma_game_step(g, b, q, m);
        lemma_step_agrees(g, b, q, m, r);
        lemma_move_keeps_wf(g, m);
        lemma_move_keeps_layout(g, m);
        lemma_move_keeps_box_count(g, m);
        lemma_plays_push(s0, b, ms.take(k - 1), q, m, r);
        assert(ms.take(k - 1).push(m) =~= ms.take(k));
        r
    }
}

/// A won grid with as many boxes as holes has no hole without a box, the human's included.
proof fn lemma_won_balanced(d: Seq<Obj>)
    requires
        forall|i: int| 0 <= i < d.len() ==> #[trigger] d[i] != Obj::Boxx && d[i] != Obj::Hole,
    ensures
        count_boxes(d) <= count_holes(d),
        count_boxes(d) == count_holes(d) ==> forall|i: int| 0 <= i < d.len() ==> #[trigger] d[i] != Obj::HumanInHole,
    decreases d.len(),
{
    if d.len() > 0 {
        assert forall|i: int| 0 <= i < d.drop_last().len() implies #[trigger] d.drop_last()[i] != Obj::Boxx
            && d.drop_last()[i] != Obj::Hole by {
            assert(d.drop_last()[i] == d[i]);
        }
        lemma_won_balanced(d.drop_last());
        assert(d.last() == d[d.len() - 1]);
        if count_boxes(d) == count_holes(d) {
            assert forall|i: int| 0 <= i < d.len() implies #[trigger] d[i] != Obj::HumanInHole by {
                if i < d.len() - 1 {
                    assert(d.drop_last()[i] == d[i]);
                }
            }
        }
    }
}

/// A game won by the moves `ms` from a new game of a level with as many boxes as holes is a
/// solution in the search's moves: the search's moves are exactly the game's.
pub proof fn lemma_game_win_solves(v: LevelView, ms: Seq<Move>)
    requires
        solvable_input(v),
        count_boxes(v.data) == count_holes(v.data),
        game_wins(v, ms),
    ensures
        solves(v, ms),
{
    let b = solve_base(v);
    let g0 = fresh_game(v);
    lemma_base_stripped(v);
    assert(LevelView { human_pos: g0.human_pos, ..g0.level } == v);
    assert(g0.wf());
    let s0 = start_state(v);
    lemma_box_bits(v.data, v.data.len());
    assert(starts(v, s0));
    assert(game_state(g0, s0));
    assert(ms.take(ms.len() as int) =~= ms);
    let fin = lemma_replay_plays(g0, b, s0, ms, ms.len() as int);
    let g = replay(g0, ms)->0;
    let gv = g.level;
    assert(gv.won());
    assert(gv.data.len() == v.data.len());
    lemma_won_balanced(gv.data);
    assert forall|i: int| 0 <= i < v.data.len() implies #[trigger] is_hole_obj(v.data[i]) == is_hole_obj(gv.data[i]) by {
        assert(gv.sprites_stripped()[i] == v.sprites_stripped()[i]);
    }
    crate::game::lemma_stripped_holes(v.data, gv.data);
    assert forall|i: int| 0 <= i < 256 implies #[trigger] bitmap_bit(fin.blocks(), i) == bitmap_bit(v.win_data, i) by {
        assert(bitmap_bit(fin.blocks(), i) == (i < gv.data.len() && crate::level::pack_pred(false, gv.data[i])));
        assert(bitmap_bit(v.win_data, i) == (i < v.data.len() && crate::level::pack_pred(true, v.data[i])));
        if i < v.data.len() {
            assert(gv.sprites_stripped()[i] == v.sprites_stripped()[i]);
        }
    }
    crate::level::lemma_bitmaps_equal(fin.blocks(), v.win_data);
}

} // verus!
