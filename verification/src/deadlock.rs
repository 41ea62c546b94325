//! The pushes the solver leaves out lose no solution: a box pushed onto a cell where no box
//! may stand, or jammed beside another box against a wall, can never reach a hole again, so
//! no state after such a push is won. Every solution of the game therefore begins with a
//! solution by walks and pushes worth trying, which the solver searches.
use vstd::prelude::*;
use crate::obj::Obj;
use crate::level::{LevelView, SpLevel, bitmap_bit, in_bounds, cell_index};
use crate::vector::{Move, Vector, dx, dy};
use crate::game::{step, step2};
use crate::pathnodemap::{is_base_level, fits_base, play_step, play_chain, plays, walkable, push_ok, pushed, moved_human,
    human_cell, box_free};
use crate::replay::{lemma_cell_same, lemma_cell_in};
use crate::solve::{solvable_input, solve_base, starts, lemma_base_ok};
use crate::keysearch::{lemma_start_fits, key_step, key_moves, key_chain, key_solves};
use crate::solve::solves;
use crate::pathnodemap::walk_end;
use crate::level::{pack_pred, is_box_obj, is_hole_obj, human_cleared, at, grid_view, noboxx, is_corner, hrun, vrun,
    walls_row, walls_col, in_hhall, in_vhall};
use crate::pathnodemap::{double_boxx, steps, steps_left, steps_right, solve_key};

verus! {

/// A wall of the base level at `q`; a point outside the grid counts as a wall.
pub open spec fn wall_at(b: LevelView, q: Vector) -> bool {
    b.obj_at_checked(q) == Obj::Wall
}

/// A state the game can be in on the base level `b`: the human inside the grid, on no box
/// and no wall, and no box on a wall.
pub open spec fn sane(s: SpLevel, b: LevelView) -> bool {
    &&& fits_base(s, b)
    &&& b.obj_at(human_cell(s)) != Obj::Wall
    &&& forall|q: Vector| in_bounds(b.w as int, b.h as int, q) && #[trigger] s.box_at(q) ==> b.obj_at(q) != Obj::Wall
}

/// After a push, a cell inside the grid holds a box exactly when it is where the box went,
/// or it held one before and is not where the box came from.
pub proof fn lemma_pushed_box_at(s: SpLevel, b: LevelView, p: Vector, m: Move, r: SpLevel, q: Vector)
    requires
        is_base_level(b),
        s.w == b.w,
        s.h == b.h,
        in_bounds(b.w as int, b.h as int, step(p, m)),
        in_bounds(b.w as int, b.h as int, step2(p, m)),
        in_bounds(b.w as int, b.h as int, q),
        pushed(s, p, m, r),
    ensures
        r.box_at(q) == (q != step(p, m) && (q == step2(p, m) || s.box_at(q))),
        r.w == s.w,
        r.h == s.h,
{
    let w = b.w as int;
    let h = b.h as int;
    let np = step(p, m);
    let bp = step2(p, m);
    lemma_cell_in(w, h, q);
    lemma_cell_in(w, h, np);
    lemma_cell_in(w, h, bp);
    assert(w * h <= 256) by {
        assert(b.data.len() == b.w * b.h);
    }
    assert(s.bit_index(q) == cell_index(w, q));
    assert(r.bit_index(q) == cell_index(w, q));
    assert(bitmap_bit(r.blocks(), s.bit_index(q))
        == (s.bit_index(q) != s.bit_index(np) && (s.bit_index(q) == s.bit_index(bp) || bitmap_bit(s.blocks(), s.bit_index(q)))));
    if cell_index(w, q) == cell_index(w, np) {
        lemma_cell_same(w, h, q, np);
    }
    if cell_index(w, q) == cell_index(w, bp) {
        lemma_cell_same(w, h, q, bp);
    }
}

/// A move of the game keeps a state sane.
pub proof fn lemma_sane_step(s: SpLevel, b: LevelView, m: Move, r: SpLevel)
    requires
        is_base_level(b),
        sane(s, b),
        play_step(s, b, m, r),
    ensures
        sane(r, b),
{
    let w = b.w as int;
    let h = b.h as int;
    let p = human_cell(s);
    let np = step(p, m);
    if walkable(s, b, np) && r == moved_human(s, np.0 as i8, np.1 as i8) {
        assert(human_cell(r) == np);
        assert forall|q: Vector| in_bounds(w, h, q) && #[trigger] r.box_at(q) implies b.obj_at(q) != Obj::Wall by {
            assert(s.box_at(q));
        }
    } else {
        assert(push_ok(s, b, p, m) && pushed(s, p, m, r));
        let bp = step2(p, m);
        assert(human_cell(r) == np);
        lemma_pushed_box_at(s, b, p, m, r, np);
        assert forall|q: Vector| in_bounds(w, h, q) && #[trigger] r.box_at(q) implies b.obj_at(q) != Obj::Wall by {
            lemma_pushed_box_at(s, b, p, m, r, q);
        }
    }
}

/// The box at `q` cannot move left or right: the cell on one side of it that way is a wall
/// or holds a box of `f`.
pub open spec fn blocked_h(b: LevelView, f: Set<Vector>, q: Vector) -> bool {
    ||| wall_at(b, step(q, Move::Left))
    ||| wall_at(b, step(q, Move::Right))
    ||| f.contains(step(q, Move::Left))
    ||| f.contains(step(q, Move::Right))
}

/// The box at `q` cannot move up or down: the cell on one side of it that way is a wall or
/// holds a box of `f`.
pub open spec fn blocked_v(b: LevelView, f: Set<Vector>, q: Vector) -> bool {
    ||| wall_at(b, step(q, Move::Up))
    ||| wall_at(b, step(q, Move::Down))
    ||| f.contains(step(q, Move::Up))
    ||| f.contains(step(q, Move::Down))
}

/// The boxes at the cells of `f` are frozen: each is blocked both ways by walls or by the
/// others, so none of them can ever be pushed.
pub open spec fn frozen(s: SpLevel, b: LevelView, f: Set<Vector>) -> bool {
    forall|q: Vector| #[trigger] f.contains(q) ==> in_bounds(b.w as int, b.h as int, q) && s.box_at(q)
        && blocked_h(b, f, q) && blocked_v(b, f, q)
}

/// A horizontal corridor of the base level in row `y`, from the wall at `x0` to the wall at
/// `e`, its cells spaces, walled all along one side.
pub open spec fn hall_h(b: LevelView, x0: i32, e: i32, y: i32) -> bool {
    &&& wall_at(b, Vector(x0, y))
    &&& wall_at(b, Vector(e, y))
    &&& forall|q: Vector| q.1 == y && x0 < q.0 < e ==> in_bounds(b.w as int, b.h as int, q) && #[trigger] b.obj_at(q) == Obj::Space
    &&& (forall|q: Vector| q.1 == y - 1 && x0 < q.0 < e ==> #[trigger] wall_at(b, q))
        || (forall|q: Vector| q.1 == y + 1 && x0 < q.0 < e ==> #[trigger] wall_at(b, q))
}

/// A vertical corridor of the base level in column `x`, from the wall at `y0` to the wall
/// at `e`, its cells spaces, walled all along one side.
pub open spec fn hall_v(b: LevelView, y0: i32, e: i32, x: i32) -> bool {
    &&& wall_at(b, Vector(x, y0))
    &&& wall_at(b, Vector(x, e))
    &&& forall|q: Vector| q.0 == x && y0 < q.1 < e ==> in_bounds(b.w as int, b.h as int, q) && #[trigger] b.obj_at(q) == Obj::Space
    &&& (forall|q: Vector| q.0 == x - 1 && y0 < q.1 < e ==> #[trigger] wall_at(b, q))
        || (forall|q: Vector| q.0 == x + 1 && y0 < q.1 < e ==> #[trigger] wall_at(b, q))
}

/// A state that can never be won: some box, off the holes, is frozen, or lies in a
/// corridor walled along one side, which it can never leave.
pub open spec fn stuck(s: SpLevel, b: LevelView) -> bool {
    ||| exists|f: Set<Vector>, q: Vector| #[trigger] frozen(s, b, f) && #[trigger] f.contains(q) && b.obj_at(q) != Obj::Hole
    ||| exists|x0: i32, e: i32, q: Vector| #[trigger] hall_h(b, x0, e, q.1) && x0 < q.0 < e && #[trigger] s.box_at(q)
    ||| exists|y0: i32, e: i32, q: Vector| #[trigger] hall_v(b, y0, e, q.0) && y0 < q.1 < e && #[trigger] s.box_at(q)
}

/// The human's cell is no wall, and a cell where a box can be pushed is no wall and holds
/// no box.
proof fn lemma_push_cells(s: SpLevel, b: LevelView, m: Move)
    requires
        is_base_level(b),
        sane(s, b),
        push_ok(s, b, human_cell(s), m),
    ensures
        !wall_at(b, human_cell(s)),
        !s.box_at(human_cell(s)),
        !wall_at(b, step2(human_cell(s), m)),
        !s.box_at(step2(human_cell(s), m)),
        in_bounds(b.w as int, b.h as int, step(human_cell(s), m)),
        in_bounds(b.w as int, b.h as int, step2(human_cell(s), m)),
{
}

/// A move keeps a frozen set frozen: none of its boxes can be the one pushed.
pub proof fn lemma_frozen_step(s: SpLevel, b: LevelView, m: Move, r: SpLevel, f: Set<Vector>)
    requires
        is_base_level(b),
        sane(s, b),
        frozen(s, b, f),
        play_step(s, b, m, r),
    ensures
        frozen(r, b, f),
{
    let w = b.w as int;
    let h = b.h as int;
    let p = human_cell(s);
    let np = step(p, m);
    if walkable(s, b, np) && r == moved_human(s, np.0 as i8, np.1 as i8) {
        assert forall|q: Vector| #[trigger] f.contains(q) implies in_bounds(w, h, q) && r.box_at(q)
            && blocked_h(b, f, q) && blocked_v(b, f, q) by {
            assert(s.box_at(q));
        }
    } else {
        assert(push_ok(s, b, p, m) && pushed(s, p, m, r));
        let bp = step2(p, m);
        lemma_push_cells(s, b, m);
        assert(!f.contains(p));
        assert(!f.contains(bp));
        if f.contains(np) {
            match m {
                Move::Left => {
                    assert(step(np, Move::Left) == bp);
                    assert(step(np, Move::Right) == p);
                }
                Move::Right => {
                    assert(step(np, Move::Left) == p);
                    assert(step(np, Move::Right) == bp);
                }
                Move::Up => {
                    assert(step(np, Move::Up) == bp);
                    assert(step(np, Move::Down) == p);
                }
                Move::Down => {
                    assert(step(np, Move::Up) == p);
                    assert(step(np, Move::Down) == bp);
                }
            }
            assert(false);
        }
        assert forall|q: Vector| #[trigger] f.contains(q) implies in_bounds(w, h, q) && r.box_at(q)
            && blocked_h(b, f, q) && blocked_v(b, f, q) by {
            lemma_pushed_box_at(s, b, p, m, r, q);
        }
    }
}

/// A box in a horizontal corridor stays in it: after a move some box is still there.
proof fn lemma_hall_h_step(s: SpLevel, b: LevelView, m: Move, r: SpLevel, x0: i32, e: i32, q: Vector) -> (q2: Vector)
    requires
        is_base_level(b),
        sane(s, b),
        hall_h(b, x0, e, q.1),
        x0 < q.0 < e,
        s.box_at(q),
        play_step(s, b, m, r),
    ensures
        q2.1 == q.1,
        x0 < q2.0 < e,
        r.box_at(q2),
{
    let p = human_cell(s);
    let np = step(p, m);
    let y = q.1;
    assert(in_bounds(b.w as int, b.h as int, q) && b.obj_at(q) == Obj::Space);
    if walkable(s, b, np) && r == moved_human(s, np.0 as i8, np.1 as i8) {
        q
    } else {
        assert(push_ok(s, b, p, m) && pushed(s, p, m, r));
        let bp = step2(p, m);
        lemma_push_cells(s, b, m);
        lemma_pushed_box_at(s, b, p, m, r, q);
        if np != q {
            q
        } else {
            let up = Vector(q.0, (y - 1) as i32);
            let down = Vector(q.0, (y + 1) as i32);
            match m {
                Move::Up => {
                    assert(bp == up && p == down);
                    assert(wall_at(b, up) || wall_at(b, down));
                    assert(false);
                    q
                }
                Move::Down => {
                    assert(bp == down && p == up);
                    assert(wall_at(b, up) || wall_at(b, down));
                    assert(false);
                    q
                }
                _ => {
                    assert(bp.1 == y);
                    assert(bp != Vector(x0, y));
                    assert(bp != Vector(e, y));
                    lemma_pushed_box_at(s, b, p, m, r, bp);
                    bp
                }
            }
        }
    }
}

/// A box in a vertical corridor stays in it: after a move some box is still there.
proof fn lemma_hall_v_step(s: SpLevel, b: LevelView, m: Move, r: SpLevel, y0: i32, e: i32, q: Vector) -> (q2: Vector)
    requires
        is_base_level(b),
        sane(s, b),
        hall_v(b, y0, e, q.0),
        y0 < q.1 < e,
        s.box_at(q),
        play_step(s, b, m, r),
    ensures
        q2.0 == q.0,
        y0 < q2.1 < e,
        r.box_at(q2),
{
    let p = human_cell(s);
    let np = step(p, m);
    let x = q.0;
    assert(in_bounds(b.w as int, b.h as int, q) && b.obj_at(q) == Obj::Space);
    if walkable(s, b, np) && r == moved_human(s, np.0 as i8, np.1 as i8) {
        q
    } else {
        assert(push_ok(s, b, p, m) && pushed(s, p, m, r));
        let bp = step2(p, m);
        lemma_push_cells(s, b, m);
        lemma_pushed_box_at(s, b, p, m, r, q);
        if np != q {
            q
        } else {
            let left = Vector((x - 1) as i32, q.1);
            let right = Vector((x + 1) as i32, q.1);
            match m {
                Move::Left => {
                    assert(bp == left && p == right);
                    assert(wall_at(b, left) || wall_at(b, right));
                    assert(false);
                    q
                }
                Move::Right => {
                    assert(bp == right && p == left);
                    assert(wall_at(b, left) || wall_at(b, right));
                    assert(false);
                    q
                }
                _ => {
                    assert(bp.0 == x);
                    assert(bp != Vector(x, y0));
                    assert(bp != Vector(x, e));
                    lemma_pushed_box_at(s, b, p, m, r, bp);
                    bp
                }
            }
        }
    }
}

/// A move keeps a stuck state stuck.
pub proof fn lemma_stuck_step(s: SpLevel, b: LevelView, m: Move, r: SpLevel)
    requires
        is_base_level(b),
        sane(s, b),
        stuck(s, b),
        play_step(s, b, m, r),
    ensures
        stuck(r, b),
{
    if exists|f: Set<Vector>, q: Vector| #[trigger] frozen(s, b, f) && #[trigger] f.contains(q) && b.obj_at(q) != Obj::Hole {
        let (f, q) = choose|f: Set<Vector>, q: Vector| #[trigger] frozen(s, b, f) && #[trigger] f.contains(q) && b.obj_at(q) != Obj::Hole;
        lemma_frozen_step(s, b, m, r, f);
        assert(frozen(r, b, f) && f.contains(q));
    } else if exists|x0: i32, e: i32, q: Vector| #[trigger] hall_h(b, x0, e, q.1) && x0 < q.0 < e && #[trigger] s.box_at(q) {
        let (x0, e, q) = choose|x0: i32, e: i32, q: Vector| #[trigger] hall_h(b, x0, e, q.1) && x0 < q.0 < e && #[trigger] s.box_at(q);
        let q2 = lemma_hall_h_step(s, b, m, r, x0, e, q);
        assert(hall_h(b, x0, e, q2.1) && r.box_at(q2));
    } else {
        let (y0, e, q) = choose|y0: i32, e: i32, q: Vector| #[trigger] hall_v(b, y0, e, q.0) && y0 < q.1 < e && #[trigger] s.box_at(q);
        let q2 = lemma_hall_v_step(s, b, m, r, y0, e, q);
        assert(hall_v(b, y0, e, q2.0) && r.box_at(q2));
    }
}

/// The first state of a level the search works on is sane.
pub proof fn lemma_start_sane(v: LevelView, s: SpLevel)
    requires
        solvable_input(v),
        starts(v, s),
    ensures
        sane(s, solve_base(v)),
        is_base_level(solve_base(v)),
{
    let b = solve_base(v);
    lemma_base_ok(v);
    lemma_start_fits(v, s);
    let w = v.w as int;
    let h = v.h as int;
    let hp = v.human_pos;
    let c = cell_index(w, hp);
    lemma_cell_in(w, h, hp);
    assert(human_cell(s) == hp);
    assert(b.data[c] == Obj::Space || b.data[c] == Obj::Hole);
    assert forall|q: Vector| in_bounds(w, h, q) && #[trigger] s.box_at(q) implies b.obj_at(q) != Obj::Wall by {
        lemma_cell_in(w, h, q);
        let cq = cell_index(w, q);
        assert(s.bit_index(q) == cq);
        assert(bitmap_bit(s.blocks(), cq) == (cq < v.data.len() && pack_pred(false, v.data[cq])));
        assert(is_box_obj(v.data[cq]));
        if cq == c {
            assert(false);
        }
        assert(human_cleared(v).data[cq] == v.data[cq]);
    }
}

/// Every state passed through by moves of the game from a sane state is sane.
pub proof fn lemma_sane_chain(states: Seq<SpLevel>, s: SpLevel, b: LevelView, ms: Seq<Move>, r: SpLevel, i: int)
    requires
        is_base_level(b),
        sane(s, b),
        play_chain(states, s, b, ms, r),
        0 <= i <= ms.len(),
    ensures
        sane(states[i], b),
    decreases i,
{
    if i > 0 {
        lemma_sane_chain(states, s, b, ms, r, i - 1);
        lemma_sane_step(states[i - 1], b, ms[i - 1], states[i]);
    }
}

/// Once stuck, every later state passed through is stuck.
pub proof fn lemma_stuck_chain(states: Seq<SpLevel>, s: SpLevel, b: LevelView, ms: Seq<Move>, r: SpLevel, i: int, j: int)
    requires
        is_base_level(b),
        sane(s, b),
        play_chain(states, s, b, ms, r),
        0 <= i <= j <= ms.len(),
        stuck(states[i], b),
    ensures
        stuck(states[j], b),
    decreases j - i,
{
    if i < j {
        lemma_sane_chain(states, s, b, ms, r, i);
        lemma_stuck_step(states[i], b, ms[i], states[i + 1]);
        lemma_stuck_chain(states, s, b, ms, r, i + 1, j);
    }
}

/// A stuck state is not won: it has a box off the holes.
pub proof fn lemma_stuck_not_won(v: LevelView, s: SpLevel)
    requires
        solvable_input(v),
        sane(s, solve_base(v)),
        stuck(s, solve_base(v)),
    ensures
        s.blocks() != v.win_data,
{
    let b = solve_base(v);
    let w = v.w as int;
    let h = v.h as int;
    let q = if exists|f: Set<Vector>, q: Vector| #[trigger] frozen(s, b, f) && #[trigger] f.contains(q) && b.obj_at(q) != Obj::Hole {
        let (f, q) = choose|f: Set<Vector>, q: Vector| #[trigger] frozen(s, b, f) && #[trigger] f.contains(q) && b.obj_at(q) != Obj::Hole;
        q
    } else if exists|x0: i32, e: i32, q: Vector| #[trigger] hall_h(b, x0, e, q.1) && x0 < q.0 < e && #[trigger] s.box_at(q) {
        let (x0, e, q) = choose|x0: i32, e: i32, q: Vector| #[trigger] hall_h(b, x0, e, q.1) && x0 < q.0 < e && #[trigger] s.box_at(q);
        assert(b.obj_at(q) == Obj::Space);
        q
    } else {
        let (y0, e, q) = choose|y0: i32, e: i32, q: Vector| #[trigger] hall_v(b, y0, e, q.0) && y0 < q.1 < e && #[trigger] s.box_at(q);
        assert(b.obj_at(q) == Obj::Space);
        q
    };
    assert(in_bounds(w, h, q) && s.box_at(q) && b.obj_at(q) != Obj::Hole);
    lemma_cell_in(w, h, q);
    let cq = cell_index(w, q);
    let c = cell_index(w, v.human_pos);
    lemma_cell_in(w, h, v.human_pos);
    assert(s.bit_index(q) == cq);
    if s.blocks() == v.win_data {
        assert(bitmap_bit(v.win_data, cq) == (cq < v.data.len() && pack_pred(true, v.data[cq])));
        assert(is_hole_obj(v.data[cq]));
        if cq != c {
            assert(human_cleared(v).data[cq] == v.data[cq]);
        }
        assert(b.data[cq] == Obj::Hole);
    }
}

/// The grid the cells where no box may go are worked out on, and the base level, agree on
/// walls, and a space of the one is a space of the other.
proof fn lemma_grid_base(v: LevelView, q: Vector)
    requires
        solvable_input(v),
    ensures
        (at(grid_view(human_cleared(v)), q.0 as int, q.1 as int) == Obj::Wall) == wall_at(solve_base(v), q),
        at(grid_view(human_cleared(v)), q.0 as int, q.1 as int) == Obj::Space
            ==> in_bounds(v.w as int, v.h as int, q) && solve_base(v).obj_at(q) == Obj::Space,
{
    let w = v.w as int;
    let h = v.h as int;
    let hc = human_cleared(v);
    let b = solve_base(v);
    lemma_cell_in(w, h, v.human_pos);
    assert(hc.data.len() == v.data.len());
    assert(b.data.len() == v.data.len());
    if in_bounds(w, h, q) {
        lemma_cell_in(w, h, q);
        let i = cell_index(w, q);
        assert(b.data[i] == (if hc.data[i] == Obj::Boxx { Obj::Space } else if hc.data[i] == Obj::BoxxInHole { Obj::Hole }
            else { hc.data[i] }));
        assert(at(grid_view(hc), q.0 as int, q.1 as int) == hc.data[i]);
        assert(b.obj_at_checked(q) == b.data[i]);
    }
}

/// Pushing a box onto a cell where no box may go leaves a stuck state.
proof fn lemma_noboxx_stuck(v: LevelView, s: SpLevel, m: Move, r: SpLevel)
    requires
        solvable_input(v),
        sane(s, solve_base(v)),
        push_ok(s, solve_base(v), human_cell(s), m),
        pushed(s, human_cell(s), m, r),
        solve_base(v).noboxx_pts.contains(step2(human_cell(s), m)),
    ensures
        stuck(r, solve_base(v)),
{
    let b = solve_base(v);
    let g = grid_view(human_cleared(v));
    lemma_base_ok(v);
    let p = human_cell(s);
    let bp = step2(p, m);
    lemma_push_cells(s, b, m);
    lemma_pushed_box_at(s, b, p, m, r, bp);
    assert(noboxx(g, bp));
    let x = bp.0 as int;
    let y = bp.1 as int;
    if is_corner(g, x, y) {
        let f = set![bp];
        lemma_grid_base(v, bp);
        lemma_grid_base(v, step(bp, Move::Left));
        lemma_grid_base(v, step(bp, Move::Right));
        lemma_grid_base(v, step(bp, Move::Up));
        lemma_grid_base(v, step(bp, Move::Down));
        assert(blocked_h(b, f, bp));
        assert(blocked_v(b, f, bp));
        assert(frozen(r, b, f));
        assert(f.contains(bp) && b.obj_at(bp) != Obj::Hole);
    } else if in_hhall(g, x, y) {
        let (x0, e) = choose|x0: int, e: int| x0 < x < e && #[trigger] hrun(g, x0, e, y)
            && (walls_row(g, x0, e, y - 1) || walls_row(g, x0, e, y + 1));
        assert(at(g, x0 + 1, y) == Obj::Space);
        assert(at(g, e - 1, y) == Obj::Space);
        let xx0 = x0 as i32;
        let ee = e as i32;
        let yy = bp.1;
        lemma_grid_base(v, Vector(xx0, yy));
        lemma_grid_base(v, Vector(ee, yy));
        assert forall|q: Vector| q.1 == yy && xx0 < q.0 < ee implies in_bounds(b.w as int, b.h as int, q)
            && #[trigger] b.obj_at(q) == Obj::Space by {
            assert(at(g, q.0 as int, y) == Obj::Space);
            lemma_grid_base(v, q);
        }
        if walls_row(g, x0, e, y - 1) {
            assert forall|q: Vector| q.1 == yy - 1 && xx0 < q.0 < ee implies #[trigger] wall_at(b, q) by {
                assert(at(g, q.0 as int, y - 1) == Obj::Wall);
                lemma_grid_base(v, q);
            }
        } else {
            assert forall|q: Vector| q.1 == yy + 1 && xx0 < q.0 < ee implies #[trigger] wall_at(b, q) by {
                assert(at(g, q.0 as int, y + 1) == Obj::Wall);
                lemma_grid_base(v, q);
            }
        }
        assert(hall_h(b, xx0, ee, bp.1) && xx0 < bp.0 < ee && r.box_at(bp));
    } else {
        assert(in_vhall(g, x, y));
        let (y0, e) = choose|y0: int, e: int| y0 < y < e && #[trigger] vrun(g, y0, e, x)
            && (walls_col(g, y0, e, x - 1) || walls_col(g, y0, e, x + 1));
        assert(at(g, x, y0 + 1) == Obj::Space);
        assert(at(g, x, e - 1) == Obj::Space);
        let yy0 = y0 as i32;
        let ee = e as i32;
        let xx = bp.0;
        lemma_grid_base(v, Vector(xx, yy0));
        lemma_grid_base(v, Vector(xx, ee));
        assert forall|q: Vector| q.0 == xx && yy0 < q.1 < ee implies in_bounds(b.w as int, b.h as int, q)
            && #[trigger] b.obj_at(q) == Obj::Space by {
            assert(at(g, x, q.1 as int) == Obj::Space);
            lemma_grid_base(v, q);
        }
        if walls_col(g, y0, e, x - 1) {
            assert forall|q: Vector| q.0 == xx - 1 && yy0 < q.1 < ee implies #[trigger] wall_at(b, q) by {
                assert(at(g, x - 1, q.1 as int) == Obj::Wall);
                lemma_grid_base(v, q);
            }
        } else {
            assert forall|q: Vector| q.0 == xx + 1 && yy0 < q.1 < ee implies #[trigger] wall_at(b, q) by {
                assert(at(g, x + 1, q.1 as int) == Obj::Wall);
                lemma_grid_base(v, q);
            }
        }
        assert(hall_v(b, yy0, ee, bp.0) && yy0 < bp.1 < ee && r.box_at(bp));
    }
}

/// Two boxes side by side, each with a wall beyond it in the same direction, are frozen.
proof fn lemma_pair_frozen(b: LevelView, r: SpLevel, a: Vector, c: Vector, m: Move, d: Move)
    requires
        in_bounds(b.w as int, b.h as int, a),
        in_bounds(b.w as int, b.h as int, c),
        r.box_at(a),
        r.box_at(c),
        wall_at(b, step(a, m)),
        wall_at(b, step(c, m)),
        c == step(a, d),
        (dx(m) == 0) != (dx(d) == 0),
    ensures
        frozen(r, b, set![a, c]),
{
    let f = set![a, c];
    match d {
        Move::Up => { assert(step(c, Move::Down) == a); }
        Move::Down => { assert(step(c, Move::Up) == a); }
        Move::Left => { assert(step(c, Move::Right) == a); }
        Move::Right => { assert(step(c, Move::Left) == a); }
    }
    match m {
        Move::Up | Move::Down => {
            assert(blocked_v(b, f, a) && blocked_v(b, f, c));
            assert(blocked_h(b, f, a) && blocked_h(b, f, c));
        }
        _ => {
            assert(blocked_h(b, f, a) && blocked_h(b, f, c));
            assert(blocked_v(b, f, a) && blocked_v(b, f, c));
        }
    }
}

/// Pushing a box onto a space against a wall, beside another box against the wall, leaves
/// a stuck state.
proof fn lemma_double_stuck(v: LevelView, s: SpLevel, m: Move, r: SpLevel)
    requires
        solvable_input(v),
        sane(s, solve_base(v)),
        push_ok(s, solve_base(v), human_cell(s), m),
        pushed(s, human_cell(s), m, r),
        double_boxx(s, solve_base(v), human_cell(s), m),
    ensures
        stuck(r, solve_base(v)),
{
    let b = solve_base(v);
    lemma_base_ok(v);
    let w = b.w as int;
    let h = b.h as int;
    let p = human_cell(s);
    let np = step(p, m);
    let bp = step2(p, m);
    lemma_push_cells(s, b, m);
    lemma_pushed_box_at(s, b, p, m, r, bp);
    assert(steps(p, m, 2) == bp);
    let a3 = steps(p, m, 3);
    assert(a3 == step(bp, m));
    lemma_cell_in(w, h, bp);
    assert(s.obj_at_nohuman(bp, b) == Obj::Space);
    assert(b.obj_at(bp) == Obj::Space);
    if in_bounds(w, h, a3) {
        lemma_cell_in(w, h, a3);
        assert(s.inside(a3));
        assert(s.obj_at_nohuman(a3, b) == Obj::Wall);
    } else {
        assert(!s.inside(a3));
    }
    assert(wall_at(b, a3));
    let l2 = steps_left(p, m, 2);
    let r2 = steps_right(p, m, 2);
    let dl = match m { Move::Up => Move::Right, Move::Right => Move::Down, Move::Down => Move::Left, Move::Left => Move::Up };
    let dr = match m { Move::Up => Move::Left, Move::Right => Move::Up, Move::Down => Move::Right, Move::Left => Move::Down };
    assert(l2 == step(bp, dl));
    assert(r2 == step(bp, dr));
    assert(steps_left(p, m, 3) == step(l2, m));
    assert(steps_right(p, m, 3) == step(r2, m));
    let c = if in_bounds(w, h, l2) && s.box_at(l2) && b.obj_at_checked(steps_left(p, m, 3)) == Obj::Wall { l2 } else { r2 };
    let d = if c == l2 && in_bounds(w, h, l2) && s.box_at(l2) && b.obj_at_checked(steps_left(p, m, 3)) == Obj::Wall { dl } else { dr };
    assert(in_bounds(w, h, c) && s.box_at(c) && wall_at(b, step(c, m)) && c == step(bp, d));
    assert(c != np);
    lemma_pushed_box_at(s, b, p, m, r, c);
    lemma_pair_frozen(b, r, bp, c, m, d);
    assert(frozen(r, b, set![bp, c]) && set![bp, c].contains(bp) && b.obj_at(bp) != Obj::Hole);
}

/// Two states with the same boxes and width have a box at the same points.
proof fn lemma_same_boxes(a: SpLevel, c: SpLevel)
    requires
        a.blocks() == c.blocks(),
        a.w == c.w,
    ensures
        forall|x: Vector| #[trigger] a.box_at(x) == c.box_at(x),
{
}

/// A push from a state that leads to no stuck state is a push worth trying, also from a
/// state with the same boxes from which a walk leads to the human's cell.
proof fn lemma_key_step_from(v: LevelView, q: SpLevel, last: SpLevel, t: Seq<Move>, m: Move, r: SpLevel)
    requires
        solvable_input(v),
        sane(q, solve_base(v)),
        push_ok(q, solve_base(v), human_cell(q), m),
        pushed(q, human_cell(q), m, r),
        !stuck(r, solve_base(v)),
        last.blocks() == q.blocks(),
        last.w == q.w,
        last.h == q.h,
        walk_end(last, solve_base(v), human_cell(last), t) == Some(human_cell(q)),
    ensures
        key_step(last, solve_base(v), t, m, r),
{
    let b = solve_base(v);
    let p = human_cell(q);
    if b.noboxx_pts.contains(step2(p, m)) {
        lemma_noboxx_stuck(v, q, m, r);
    }
    if double_boxx(q, b, p, m) {
        lemma_double_stuck(v, q, m, r);
    }
    lemma_same_boxes(last, q);
    assert(double_boxx(last, b, p, m) == double_boxx(q, b, p, m));
    assert(solve_key(last, b, p, m));
    assert(pushed(last, p, m, r));
}

/// A key chain followed by one more key step.
proof fn lemma_chain_push(sts: Seq<SpLevel>, b: LevelView, ws: Seq<Seq<Move>>, ds: Seq<Move>, t: Seq<Move>, m: Move, r: SpLevel)
    requires
        key_chain(sts, b, ws, ds),
        key_step(sts.last(), b, t, m, r),
    ensures
        key_chain(sts.push(r), b, ws.push(t), ds.push(m)),
        key_moves(ws.push(t), ds.push(m)) == key_moves(ws, ds) + t.push(m),
        sts.push(r)[0] == sts[0],
        sts.push(r).last() == r,
{
    let sts2 = sts.push(r);
    let ws2 = ws.push(t);
    let ds2 = ds.push(m);
    assert(ws2.drop_last() =~= ws);
    assert(ds2.drop_last() =~= ds);
    assert forall|i: int| 0 <= i < ws2.len() implies key_step(#[trigger] sts2[i], b, ws2[i], ds2[i], sts2[i + 1]) by {
        if i < ws.len() {
            assert(sts2[i] == sts[i] && sts2[i + 1] == sts[i + 1] && ws2[i] == ws[i] && ds2[i] == ds[i]);
        } else {
            assert(sts2[i] == sts.last() && sts2[i + 1] == r && ws2[i] == t && ds2[i] == m);
        }
    }
}

/// A walk from a state, one step longer.
proof fn lemma_walk_extend(last: SpLevel, q: SpLevel, b: LevelView, t: Seq<Move>, m: Move)
    requires
        walk_end(last, b, human_cell(last), t) == Some(human_cell(q)),
        last.blocks() == q.blocks(),
        last.w == q.w,
        walkable(q, b, step(human_cell(q), m)),
    ensures
        walk_end(last, b, human_cell(last), t.push(m)) == Some(step(human_cell(q), m)),
{
    lemma_same_boxes(last, q);
    assert(t.push(m).drop_last() =~= t);
    assert(walkable(last, b, step(human_cell(q), m)));
}

/// The moves `ms` played from `s0`, up to move `n`, are key steps (walks each followed by a
/// push worth trying) and then a walk `t`, as long as no state they pass through is stuck:
/// the state after them is the last key step's state with the human at the walk's end.
#[verifier::spinoff_prover]
#[verifier::rlimit(40)]
proof fn lemma_key_prefix(v: LevelView, states: Seq<SpLevel>, s0: SpLevel, ms: Seq<Move>, fin: SpLevel, n: int)
    -> (res: (Seq<SpLevel>, Seq<Seq<Move>>, Seq<Move>, Seq<Move>))
    requires
        solvable_input(v),
        starts(v, s0),
        play_chain(states, s0, solve_base(v), ms, fin),
        0 <= n <= ms.len(),
        forall|i: int| 0 <= i <= ms.len() ==> !stuck(#[trigger] states[i], solve_base(v)),
    ensures
        key_chain(res.0, solve_base(v), res.1, res.2),
        res.0[0] == s0,
        ms.take(n) == key_moves(res.1, res.2) + res.3,
        walk_end(res.0.last(), solve_base(v), human_cell(res.0.last()), res.3) == Some(human_cell(states[n])),
        states[n].blocks() == res.0.last().blocks(),
        states[n].w == res.0.last().w,
        states[n].h == res.0.last().h,
    decreases n,
{
    let b = solve_base(v);
    lemma_start_sane(v, s0);
    if n == 0 {
        let sts = seq![s0];
        let ws = Seq::<Seq<Move>>::empty();
        let ds = Seq::<Move>::empty();
        let t = Seq::<Move>::empty();
        assert(ms.take(0) =~= key_moves(ws, ds) + t);
        assert(states[0] == s0);
        (sts, ws, ds, t)
    } else {
        let (sts, ws, ds, t) = lemma_key_prefix(v, states, s0, ms, fin, n - 1);
        let q = states[n - 1];
        let r = states[n];
        let m = ms[n - 1];
        let last = sts.last();
        assert(play_step(q, b, m, r));
        lemma_sane_chain(states, s0, b, ms, fin, n - 1);
        let p = human_cell(q);
        let np = step(p, m);
        assert(ms.take(n) =~= ms.take(n - 1).push(m));
        if walkable(q, b, np) && r == moved_human(q, np.0 as i8, np.1 as i8) {
            let t2 = t.push(m);
            lemma_walk_extend(last, q, b, t, m);
            assert(human_cell(r) == np);
            assert(ms.take(n) =~= key_moves(ws, ds) + t2);
            (sts, ws, ds, t2)
        } else {
            assert(push_ok(q, b, p, m) && pushed(q, p, m, r));
            lemma_key_step_from(v, q, last, t, m, r);
            lemma_chain_push(sts, b, ws, ds, t, m, r);
            assert(ms.take(n) =~= key_moves(ws.push(t), ds.push(m)) + Seq::<Move>::empty());
            assert(human_cell(r) == np);
            (sts.push(r), ws.push(t), ds.push(m), Seq::<Move>::empty())
        }
    }
}

/// Every solution of the game begins with a solution by key moves, the moves up to its last
/// push: no push the search leaves out can be part of a solution.
pub proof fn lemma_solution_has_key_prefix(v: LevelView, ms: Seq<Move>) -> (ks: Seq<Move>)
    requires
        solvable_input(v),
        solves(v, ms),
    ensures
        key_solves(v, ks),
        ks.len() <= ms.len(),
        ks == ms.take(ks.len() as int),
{
    let b = solve_base(v);
    let (s0, fin) = choose|s: SpLevel, fin: SpLevel| starts(v, s) && #[trigger] plays(s, solve_base(v), ms, fin)
        && fin.blocks() == v.win_data;
    let states = choose|states: Seq<SpLevel>| #[trigger] play_chain(states, s0, b, ms, fin);
    lemma_start_sane(v, s0);
    let n = ms.len() as int;
    assert forall|i: int| 0 <= i <= ms.len() implies !stuck(#[trigger] states[i], b) by {
        if stuck(states[i], b) {
            lemma_stuck_chain(states, s0, b, ms, fin, i, n);
            lemma_sane_chain(states, s0, b, ms, fin, n);
            lemma_stuck_not_won(v, states[n]);
        }
    }
    let (sts, ws, ds, t) = lemma_key_prefix(v, states, s0, ms, fin, n);
    assert(ms.take(n) =~= ms);
    assert(states[n] == fin);
    let ks = key_moves(ws, ds);
    assert(key_chain(sts, b, ws, ds) && starts(v, sts[0]) && sts.last().blocks() == v.win_data && ks == key_moves(ws, ds));
    assert(ms.take(ks.len() as int) =~= ks);
    ks
}

} // verus!
