//! Maps of where the human can walk, and the box moves (pushes, or pulls when making a
//! level backwards) that can be made from there; used to solve and to make levels.
//!
//! A search state is a `SpLevel` (human and boxes) over a base level that holds only
//! spaces, holes and walls. From a state, the human walks over cells that are inside the
//! grid, not walls and without a box; the walk is recorded as a tree of path nodes, each
//! reached from an earlier one by one move. A key move is a box move made from a node.
use vstd::prelude::*;
use vstd::set_lib::{set_int_range, lemma_int_range, lemma_len_subset};
use crate::obj::Obj;
use crate::level::{Level, LevelView, SpLevel, CmpData, cell_index, in_bounds, is_base_obj, bitmap_bit};
use crate::vector::{Vector, Move, ShrunkPath, PathTrait, dx, dy, move_rev, move_code};
use crate::game::{step, step2, is_free};

verus! {

/// One cell the human can walk to: its point, the node it was reached from and the move
/// that reached it (none for the starting node).
#[derive(Clone, Copy)]
pub struct PathNode {
    pub pt: Vector,
    pub prev_node_idx: u16,
    pub move_taken: Option<Move>,
}

/// A box move: from node `pni`, in direction `move_dir` (for a pull, the direction the
/// human steps back in, drawing the box after it).
#[derive(Clone, Copy)]
pub struct KeyMove {
    pub pni: u16,
    pub move_dir: Move,
}

/// The walk tree of a state and the key moves found from it.
#[derive(Clone)]
pub struct PathNodeMap {
    pub nodes: Vec<PathNode>,
    pub key_moves: Vec<KeyMove>,
}

/// A search state with the moves that reached it, its search depth and a mark used while
/// sorting states out.
#[derive(Clone, Copy)]
pub struct PathMap {
    pub level: SpLevel,
    pub path: ShrunkPath,
    pub depth: u16,
    pub flag: bool,
}

/// The human's cell in a state.
pub open spec fn human_cell(s: SpLevel) -> Vector {
    Vector(s.hx() as i32, s.hy() as i32)
}

/// A base level: one object per cell, only spaces, holes and walls, at most 127 by 127
/// and 256 cells.
pub open spec fn is_base_level(b: LevelView) -> bool {
    &&& b.wf()
    &&& b.w <= 127
    &&& b.h <= 127
    &&& b.data.len() <= 256
    &&& forall|i: int| 0 <= i < b.data.len() ==> is_base_obj(#[trigger] b.data[i])
}

/// A state fits a base level: the same size, and the human inside the grid, on a cell
/// without a box.
pub open spec fn fits_base(s: SpLevel, b: LevelView) -> bool {
    &&& s.w == b.w
    &&& s.h == b.h
    &&& in_bounds(b.w as int, b.h as int, human_cell(s))
    &&& !s.box_at(human_cell(s))
}

/// The human can walk onto `p`: inside the grid, not a wall, no box.
pub open spec fn walkable(s: SpLevel, b: LevelView, p: Vector) -> bool {
    &&& in_bounds(b.w as int, b.h as int, p)
    &&& !s.box_at(p)
    &&& b.obj_at(p) != Obj::Wall
}

/// A box can be moved onto `p`: inside the grid, a space or a hole, no box.
pub open spec fn box_free(s: SpLevel, b: LevelView, p: Vector) -> bool {
    &&& in_bounds(b.w as int, b.h as int, p)
    &&& is_free(b.obj_at(p))
    &&& !s.box_at(p)
}

/// The human at `p` can push the box next to it in direction `m`.
pub open spec fn push_ok(s: SpLevel, b: LevelView, p: Vector, m: Move) -> bool {
    &&& in_bounds(b.w as int, b.h as int, step(p, m))
    &&& s.box_at(step(p, m))
    &&& box_free(s, b, step2(p, m))
}

/// The human at `p` can step back in direction `m`, drawing the box on its other side.
pub open spec fn pull_ok(s: SpLevel, b: LevelView, p: Vector, m: Move) -> bool {
    &&& in_bounds(b.w as int, b.h as int, step(p, move_rev(m)))
    &&& s.box_at(step(p, move_rev(m)))
    &&& box_free(s, b, step(p, m))
}

/// The nodes form a tree rooted at node 0: every other node has an earlier parent and a move.
pub open spec fn tree_ok(nodes: Seq<PathNode>) -> bool {
    &&& nodes.len() >= 1
    &&& nodes[0].move_taken is None
    &&& forall|k: int| 0 < k < nodes.len() ==> (#[trigger] nodes[k]).prev_node_idx < k && nodes[k].move_taken is Some
}

/// The moves from the root of the tree to node `k`.
pub open spec fn trace(nodes: Seq<PathNode>, k: int) -> Seq<Move>
    decreases k,
{
    if 0 < k < nodes.len() && nodes[k].move_taken is Some && nodes[k].prev_node_idx < k {
        trace(nodes, nodes[k].prev_node_idx as int).push(nodes[k].move_taken->0)
    } else {
        Seq::empty()
    }
}

/// The walk tree of a state: rooted at the human, every node one move from its parent
/// onto a walkable cell, and no point twice.
pub open spec fn nodes_ok(s: SpLevel, b: LevelView, nodes: Seq<PathNode>) -> bool {
    &&& tree_ok(nodes)
    &&& nodes.len() <= 256
    &&& nodes[0].pt == human_cell(s)
    &&& forall|k: int| 0 < k < nodes.len() ==> {
        &&& (#[trigger] nodes[k]).pt == step(nodes[nodes[k].prev_node_idx as int].pt, nodes[k].move_taken->0)
        &&& walkable(s, b, nodes[k].pt)
    }
    &&& forall|k: int| 0 <= k < nodes.len() ==> in_bounds(b.w as int, b.h as int, (#[trigger] nodes[k]).pt)
    &&& forall|i: int, j: int| 0 <= i < j < nodes.len() ==> (#[trigger] nodes[i]).pt != (#[trigger] nodes[j]).pt
}

/// Walking the moves from `p`, each onto a walkable cell: where the walk ends, if it can
/// be made.
pub open spec fn walk_end(s: SpLevel, b: LevelView, p: Vector, moves: Seq<Move>) -> Option<Vector>
    decreases moves.len(),
{
    if moves.len() == 0 {
        Some(p)
    } else {
        match walk_end(s, b, p, moves.drop_last()) {
            Some(q) => if walkable(s, b, step(q, moves.last())) { Some(step(q, moves.last())) } else { None },
            None => None,
        }
    }
}

/// The way to every node is a walk from the human to it.
pub proof fn lemma_trace_walks(s: SpLevel, b: LevelView, nodes: Seq<PathNode>, k: int)
    requires
        nodes_ok(s, b, nodes),
        0 <= k < nodes.len(),
    ensures
        walk_end(s, b, human_cell(s), trace(nodes, k)) == Some(nodes[k].pt),
        trace(nodes, k).len() <= k,
    decreases k,
{
    if k > 0 {
        let p = nodes[k].prev_node_idx as int;
        lemma_trace_walks(s, b, nodes, p);
        let t = trace(nodes, k);
        assert(t.drop_last() =~= trace(nodes, p));
    }
}

/// The moves of node `k`'s way, taken from the tree back to the root.
fn trace_moves(nodes: &Vec<PathNode>, pni: usize) -> (moves: Vec<Move>)
    requires
        tree_ok(nodes@),
        pni < nodes@.len(),
    ensures
        moves@ == trace(nodes@, pni as int),
{
    let mut back: Vec<Move> = Vec::new();
    let mut k = pni;
    while nodes[k].move_taken.is_some()
        invariant
            tree_ok(nodes@),
            k < nodes@.len(),
            trace(nodes@, pni as int) == trace(nodes@, k as int) + back@.reverse(),
        ensures
            k < nodes@.len(),
            trace(nodes@, pni as int) == trace(nodes@, k as int) + back@.reverse(),
            k == 0 || nodes@[k as int].move_taken is None,
        decreases k,
    {
        let node = nodes[k];
        let m = node.move_taken.unwrap();
        let ghost before = back@;
        back.push(m);
        proof {
            assert(k > 0);
            assert(back@.reverse() =~= seq![m] + before.reverse());
            assert(trace(nodes@, k as int) == trace(nodes@, node.prev_node_idx as int).push(m));
            assert(trace(nodes@, node.prev_node_idx as int).push(m) + before.reverse()
                =~= trace(nodes@, node.prev_node_idx as int) + back@.reverse());
        }
        k = node.prev_node_idx as usize;
        if k == 0 {
            break;
        }
    }
    proof {
        assert(trace(nodes@, k as int) == Seq::<Move>::empty());
        assert(trace(nodes@, pni as int) =~= back@.reverse());
    }
    let mut moves: Vec<Move> = Vec::new();
    let mut i = back.len();
    while i > 0
        invariant
            i <= back@.len(),
            moves@ == back@.reverse().take((back@.len() - i) as int),
        decreases i,
    {
        i = i - 1;
        moves.push(back[i]);
        assert(moves@ =~= back@.reverse().take((back@.len() - i) as int));
    }
    assert(moves@ =~= back@.reverse());
    moves
}

/// Appends to `spath` the moves from the root of the walk tree to node `pni`.
pub fn backtrace_moves2(nodes: &Vec<PathNode>, pni: usize, spath: &mut ShrunkPath)
    requires
        tree_ok(nodes@),
        pni < nodes@.len(),
        old(spath).fits(trace(nodes@, pni as int).len() as int),
    ensures
        forall|k: int| k >= 0 ==> (#[trigger] final(spath).fits(k) <==> old(spath).fits(k + trace(nodes@, pni as int).len())),
        final(spath).path().len() == old(spath).path().len() + trace(nodes@, pni as int).len(),
        old(spath).consistent() ==> final(spath).consistent()
            && final(spath).path() == old(spath).path() + trace(nodes@, pni as int),
{
    let moves = trace_moves(nodes, pni);
    spath.append_path(&moves);
}

impl PathNodeMap {
    /// Appends to `spath` the moves from the root of the walk tree to node `pni`.
    pub fn backtrace_moves(&self, pni: usize, spath: &mut ShrunkPath)
        requires
            tree_ok(self.nodes@),
            pni < self.nodes@.len(),
            old(spath).fits(trace(self.nodes@, pni as int).len() as int),
        ensures
            forall|k: int| k >= 0 ==> (#[trigger] final(spath).fits(k) <==> old(spath).fits(k + trace(self.nodes@, pni as int).len())),
            final(spath).path().len() == old(spath).path().len() + trace(self.nodes@, pni as int).len(),
            old(spath).consistent() ==> final(spath).consistent()
                && final(spath).path() == old(spath).path() + trace(self.nodes@, pni as int),
    {
        backtrace_moves2(&self.nodes, pni, spath)
    }
}

impl PathMap {
    /// An empty state: no grid, the human at (0, 0), no box, no moves.
    pub fn new() -> (r: PathMap)
        ensures
            r.level.w == 0,
            r.level.h == 0,
            r.level.hx() == 0,
            r.level.hy() == 0,
            r.level.blocks() == seq![0u64, 0u64, 0u64, 0u64],
            r.path.path() == Seq::<Move>::empty(),
            r.path.consistent(),
            r.depth == 0,
            !r.flag,
    {
        PathMap {
            level: SpLevel::assemble(0, 0, CmpData::new()),
            path: ShrunkPath::new(),
            depth: 0,
            flag: false,
        }
    }

    /// The starting state of a level (at most 256 cells): its human and boxes, no moves.
    pub fn new_from_level(level: &Level) -> (r: PathMap)
        requires
            level@.data.len() <= 256,
        ensures
            r.level.w == level@.w as i8,
            r.level.h == level@.h as i8,
            r.level.hx() == level@.human_pos.0 as i8,
            r.level.hy() == level@.human_pos.1 as i8,
            crate::level::packs(r.level.blocks(), level@.data, false),
            r.path.path() == Seq::<Move>::empty(),
            r.path.consistent(),
            forall|k: int| 0 <= k ==> (#[trigger] r.path.fits(k) <==> k <= 256),
            r.depth == 0,
            !r.flag,
    {
        PathMap {
            level: SpLevel::from_level(level),
            path: ShrunkPath::new(),
            depth: 0,
            flag: false,
        }
    }

    /// A walk tree holding only the human's cell, and no key move.
    pub fn to_pnm(&self) -> (r: PathNodeMap)
        ensures
            r.nodes@ == seq![PathNode { pt: human_cell(self.level), prev_node_idx: 0, move_taken: None }],
            r.key_moves@ == Seq::<KeyMove>::empty(),
    {
        let initial_pn = PathNode { pt: self.level.get_human_pos(), move_taken: None, prev_node_idx: 0 };
        let mut nodes: Vec<PathNode> = Vec::new();
        nodes.push(initial_pn);
        let r = PathNodeMap { nodes, key_moves: Vec::new() };
        assert(r.nodes@ =~= seq![PathNode { pt: human_cell(self.level), prev_node_idx: 0, move_taken: None }]);
        assert(r.key_moves@ =~= Seq::<KeyMove>::empty());
        r
    }
}


/// `r` is `s` after the human at `p` pushes the box one step ahead in direction `m`: the
/// box is put two steps ahead, taken off one step ahead, and the human stands there.
pub open spec fn pushed(s: SpLevel, p: Vector, m: Move, r: SpLevel) -> bool {
    let np = step(p, m);
    let bp = step2(p, m);
    &&& r.w == s.w
    &&& r.h == s.h
    &&& r.hx() == np.0 as i8
    &&& r.hy() == np.1 as i8
    &&& forall|i: int| 0 <= i < 256 ==> #[trigger] bitmap_bit(r.blocks(), i)
            == (i != s.bit_index(np) && (i == s.bit_index(bp) || bitmap_bit(s.blocks(), i)))
}

/// `r` is `s` after the human at `p` steps back in direction `m`, drawing the box from
/// the other side onto `p`.
pub open spec fn pulled(s: SpLevel, p: Vector, m: Move, r: SpLevel) -> bool {
    let np = step(p, m);
    let from = step(p, move_rev(m));
    &&& r.w == s.w
    &&& r.h == s.h
    &&& r.hx() == np.0 as i8
    &&& r.hy() == np.1 as i8
    &&& forall|i: int| 0 <= i < 256 ==> #[trigger] bitmap_bit(r.blocks(), i)
            == (i == s.bit_index(p) || (i != s.bit_index(from) && bitmap_bit(s.blocks(), i)))
}

/// A push from `p` can be applied: both cells it reads are bits of the state, a box one
/// step ahead and none two steps ahead.
pub open spec fn push_applies(s: SpLevel, p: Vector, m: Move) -> bool {
    &&& fits_i32_pt(p, 2)
    &&& s.bit_ok(step(p, m))
    &&& s.bit_ok(step2(p, m))
    &&& s.box_at(step(p, m))
    &&& !s.box_at(step2(p, m))
}

/// A pull from `p` can be applied: both cells it reads are bits of the state, a box on
/// the other side and none on `p`.
pub open spec fn pull_applies(s: SpLevel, p: Vector, m: Move) -> bool {
    &&& fits_i32_pt(p, 1)
    &&& s.bit_ok(step(p, move_rev(m)))
    &&& s.bit_ok(p)
    &&& s.box_at(step(p, move_rev(m)))
    &&& !s.box_at(p)
}

/// Moving `p` by up to `k` steps in any direction stays within 32-bit coordinates.
pub open spec fn fits_i32_pt(p: Vector, k: int) -> bool {
    &&& i32::MIN + k <= p.0 <= i32::MAX - k
    &&& i32::MIN + k <= p.1 <= i32::MAX - k
}

/// The new state of a push: the state pushed, the moves extended by the way to the node
/// and the push.
pub open spec fn push_made(pm: PathMap, nodes: Seq<PathNode>, km: KeyMove, r: PathMap) -> bool {
    &&& pushed(pm.level, nodes[km.pni as int].pt, km.move_dir, r.level)
    &&& r.depth == pm.depth
    &&& r.flag == pm.flag
    &&& r.path.path().len() == pm.path.path().len() + trace(nodes, km.pni as int).len() + 1
    &&& forall|k: int| k >= 0 ==> (#[trigger] r.path.fits(k) <==> pm.path.fits(k + trace(nodes, km.pni as int).len() + 1))
    &&& pm.path.consistent() ==> r.path.consistent()
        && r.path.path() == pm.path.path() + trace(nodes, km.pni as int).push(km.move_dir)
}

/// The new state of a pull at search depth `depth`: the state pulled, the moves extended
/// by the way to the node and the pull.
pub open spec fn pull_made(pm: PathMap, nodes: Seq<PathNode>, km: KeyMove, depth: u16, r: PathMap) -> bool {
    &&& pulled(pm.level, nodes[km.pni as int].pt, km.move_dir, r.level)
    &&& r.depth == depth
    &&& r.flag == pm.flag
    &&& r.path.path().len() == pm.path.path().len() + trace(nodes, km.pni as int).len() + 1
    &&& forall|k: int| k >= 0 ==> (#[trigger] r.path.fits(k) <==> pm.path.fits(k + trace(nodes, km.pni as int).len() + 1))
    &&& pm.path.consistent() ==> r.path.consistent()
        && r.path.path() == pm.path.path() + trace(nodes, km.pni as int).push(km.move_dir)
}

impl PathMap {
    /// The state after key move `km` (a push) of the walk tree `nodes`.
    pub fn apply_key_push_2(&self, nodes: &Vec<PathNode>, km: &KeyMove) -> (r: PathMap)
        requires
            tree_ok(nodes@),
            (km.pni as int) < nodes@.len(),
            push_applies(self.level, nodes@[km.pni as int].pt, km.move_dir),
            self.path.fits(trace(nodes@, km.pni as int).len() + 1int),
        ensures
            push_made(*self, nodes@, *km, r),
    {
        let mut map_b = *self;
        let p = nodes[km.pni as usize].pt;
        let np = p.add_dir(&km.move_dir);
        let boxx_pt = np.add_dir(&km.move_dir);
        assert(boxx_pt == step2(p, km.move_dir));
        let mut lv = map_b.level;
        lv.set_boxx_at_pt(&boxx_pt);
        lv.clear_boxx_at_pt(&np);
        lv.set_human_pos(&np);
        map_b.level = lv;
        let mut path = map_b.path;
        proof {
            let t = trace(nodes@, km.pni as int).len() as int;
            path.lemma_room_less(t, t + 1);
        }
        backtrace_moves2(nodes, km.pni as usize, &mut path);
        path.push(&km.move_dir);
        map_b.path = path;
        proof {
            assert forall|k: int| k >= 0 implies (#[trigger] map_b.path.fits(k) <==> self.path.fits(k + trace(nodes@, km.pni as int).len() + 1)) by {
                assert(k + 1 >= 0);
            }
            if self.path.consistent() {
                assert(map_b.path.path() =~= self.path.path() + trace(nodes@, km.pni as int).push(km.move_dir));
            }
            assert(pushed(self.level, p, km.move_dir, map_b.level));
            assert(map_b.depth == self.depth);
            assert(map_b.path.path().len() == self.path.path().len() + trace(nodes@, km.pni as int).len() + 1);
        }
        map_b
    }

    /// The state after key move `km` (a pull) of the walk tree `nodes`, at search depth `depth`.
    pub fn apply_key_pull_2(&self, nodes: &Vec<PathNode>, km: &KeyMove, depth: u16) -> (r: PathMap)
        requires
            tree_ok(nodes@),
            (km.pni as int) < nodes@.len(),
            pull_applies(self.level, nodes@[km.pni as int].pt, km.move_dir),
            self.path.fits(trace(nodes@, km.pni as int).len() + 1int),
        ensures
            pull_made(*self, nodes@, *km, depth, r),
    {
        let mut map_b = *self;
        map_b.depth = depth;
        let p = nodes[km.pni as usize].pt;
        let pull_from_pt = p.add_dir(&km.move_dir.reverse());
        let mut lv = map_b.level;
        lv.clear_boxx_at_pt(&pull_from_pt);
        lv.set_boxx_at_pt(&p);
        let np = p.add_dir(&km.move_dir);
        lv.set_human_pos(&np);
        map_b.level = lv;
        let mut path = map_b.path;
        proof {
            let t = trace(nodes@, km.pni as int).len() as int;
            path.lemma_room_less(t, t + 1);
        }
        backtrace_moves2(nodes, km.pni as usize, &mut path);
        path.push(&km.move_dir);
        map_b.path = path;
        proof {
            assert forall|k: int| k >= 0 implies (#[trigger] map_b.path.fits(k) <==> self.path.fits(k + trace(nodes@, km.pni as int).len() + 1)) by {
                assert(k + 1 >= 0);
            }
            if self.path.consistent() {
                assert(map_b.path.path() =~= self.path.path() + trace(nodes@, km.pni as int).push(km.move_dir));
            }
        }
        map_b
    }

    /// The state after key move `km` (a push) of the walk map `pnm`, from the state `pm`.
    pub fn new_by_applying_key_push(pnm: &PathNodeMap, pm: &PathMap, km: &KeyMove) -> (r: PathMap)
        requires
            tree_ok(pnm.nodes@),
            (km.pni as int) < pnm.nodes@.len(),
            push_applies(pm.level, pnm.nodes@[km.pni as int].pt, km.move_dir),
            pm.path.fits(trace(pnm.nodes@, km.pni as int).len() + 1int),
        ensures
            push_made(*pm, pnm.nodes@, *km, r),
    {
        pm.apply_key_push_2(&pnm.nodes, km)
    }

    /// The state after key move `km` (a pull) of the walk map `pnm`, from the state `pm`, at
    /// search depth `depth`.
    pub fn new_by_applying_key_pull(pnm: &PathNodeMap, pm: &PathMap, km: &KeyMove, depth: u16) -> (r: PathMap)
        requires
            tree_ok(pnm.nodes@),
            (km.pni as int) < pnm.nodes@.len(),
            pull_applies(pm.level, pnm.nodes@[km.pni as int].pt, km.move_dir),
            pm.path.fits(trace(pnm.nodes@, km.pni as int).len() + 1int),
        ensures
            pull_made(*pm, pnm.nodes@, *km, depth, r),
    {
        pm.apply_key_pull_2(&pnm.nodes, km, depth)
    }
}


/// A cell of the base grid is a readable bit and base cell of a state of the same size.
pub proof fn lemma_cell_ok(s: SpLevel, b: LevelView, p: Vector)
    requires
        is_base_level(b),
        s.w == b.w,
        s.h == b.h,
        in_bounds(b.w as int, b.h as int, p),
    ensures
        s.bit_ok(p),
        s.base_ok(p, b),
        s.inside(p),
        s.bit_index(p) == cell_index(b.w as int, p),
{
    assert(p.0 + p.1 * b.w < b.w * b.h) by (nonlinear_arith)
        requires 0 <= p.0 < b.w, 0 <= p.1 < b.h;
    assert(0 <= p.1 * b.w) by (nonlinear_arith)
        requires 0 <= p.1, 0 <= b.w;
}

/// The cell `k` steps from `p` in direction `m`.
pub open spec fn steps(p: Vector, m: Move, k: int) -> Vector {
    Vector((p.0 + k * dx(m)) as i32, (p.1 + k * dy(m)) as i32)
}

/// The cell `k` steps from `p` in direction `m`, then one to the left of `m`.
pub open spec fn steps_left(p: Vector, m: Move, k: int) -> Vector {
    Vector((p.0 + k * dx(m) - dy(m)) as i32, (p.1 + k * dy(m) + dx(m)) as i32)
}

/// The cell `k` steps from `p` in direction `m`, then one to the right of `m`.
pub open spec fn steps_right(p: Vector, m: Move, k: int) -> Vector {
    Vector((p.0 + k * dx(m) + dy(m)) as i32, (p.1 + k * dy(m) - dx(m)) as i32)
}

/// Pushing from `hp` in direction `m` would put the box on a space with a wall behind it
/// and, beside it on one side, another box with a wall behind that one: two boxes side by
/// side against a wall, which can never be moved apart again.
pub open spec fn double_boxx(s: SpLevel, b: LevelView, hp: Vector, m: Move) -> bool {
    let w = b.w as int;
    let h = b.h as int;
    let a2 = steps(hp, m, 2);
    let a3 = steps(hp, m, 3);
    if !(in_bounds(w, h, steps(hp, m, 1)) && in_bounds(w, h, a2)) {
        false
    } else if s.obj_at_nohuman(a2, b) == Obj::Space
        && (if s.inside(a3) { s.obj_at_nohuman(a3, b) } else { Obj::Wall }) == Obj::Wall {
        ||| (in_bounds(w, h, steps_left(hp, m, 2)) && s.box_at(steps_left(hp, m, 2))
                && b.obj_at_checked(steps_left(hp, m, 3)) == Obj::Wall)
        ||| (in_bounds(w, h, steps_right(hp, m, 2)) && s.box_at(steps_right(hp, m, 2))
                && b.obj_at_checked(steps_right(hp, m, 3)) == Obj::Wall)
    } else {
        false
    }
}

impl PathMap {
    /// Whether pushing from `human_pos` in direction `pushdir` would jam two boxes side by
    /// side against a wall (see `double_boxx`).
    pub fn double_boxx_situation(&self, human_pos: Vector, pushdir: Move, base_level: &Level) -> (r: bool)
        requires
            is_base_level(base_level@),
            self.level.w == base_level@.w,
            self.level.h == base_level@.h,
            fits_i32_pt(human_pos, 1000),
        ensures
            r == double_boxx(self.level, base_level@, human_pos, pushdir),
    {
        let ghost s = self.level;
        let ghost b = base_level@;
        let pushv = pushdir.to_vector();
        let hpadd1 = human_pos.add(&pushv);
        let hpadd2 = human_pos.add(&pushv.mul(2));
        assert(hpadd1 == steps(human_pos, pushdir, 1));
        assert(hpadd2 == steps(human_pos, pushdir, 2));
        if !(base_level.vector_in_bounds(&hpadd1) && base_level.vector_in_bounds(&hpadd2)) {
            return false;
        }
        let hpadd3 = human_pos.add(&pushv.mul(3));
        assert(hpadd3 == steps(human_pos, pushdir, 3));
        proof { lemma_cell_ok(s, b, hpadd2); }
        let o2 = self.level.get_obj_at_pt_nohuman(&hpadd2, base_level);
        proof {
            if s.inside(hpadd3) {
                lemma_cell_ok(s, b, hpadd3);
            }
        }
        let o3 = self.level.get_obj_at_pt_nohuman_checked(&hpadd3, base_level);
        if o2 == Obj::Space && o3 == Obj::Wall {
            let pp1 = hpadd2.add(&pushv.rotl());
            assert(pp1 == steps_left(human_pos, pushdir, 2));
            if base_level.vector_in_bounds(&pp1) {
                proof { lemma_cell_ok(s, b, pp1); }
                if self.level.is_boxx_at_pt(&pp1) {
                    let pp1a = hpadd3.add(&pushv.rotl());
                    assert(pp1a == steps_left(human_pos, pushdir, 3));
                    if base_level.get_obj_at_pt_checked(&pp1a) == Obj::Wall {
                        return true;
                    }
                }
            }
            let pp2 = hpadd2.add(&pushv.rotr());
            assert(pp2 == steps_right(human_pos, pushdir, 2));
            if base_level.vector_in_bounds(&pp2) {
                proof { lemma_cell_ok(s, b, pp2); }
                if self.level.is_boxx_at_pt(&pp2) {
                    let pp2a = hpadd3.add(&pushv.rotr());
                    assert(pp2a == steps_right(human_pos, pushdir, 3));
                    if base_level.get_obj_at_pt_checked(&pp2a) == Obj::Wall {
                        return true;
                    }
                }
            }
        }
        false
    }
}


/// The directions in the order they are tried: up, right, down, left.
pub open spec fn dir_of(k: int) -> Move {
    if k == 0 { Move::Up } else if k == 1 { Move::Right } else if k == 2 { Move::Down } else { Move::Left }
}

/// The direction of the key move tried `k`th: the direction itself for a push; for a
/// pull, the opposite one (the box is looked for in the direction tried).
pub open spec fn key_dir(pulls: bool, k: int) -> Move {
    if pulls { move_rev(dir_of(k)) } else { dir_of(k) }
}

/// A push worth trying: it can be made, it does not put the box where no box may go,
/// and it does not jam two boxes against a wall.
pub open spec fn solve_key(s: SpLevel, b: LevelView, p: Vector, m: Move) -> bool {
    &&& push_ok(s, b, p, m)
    &&& !b.noboxx_pts.contains(step2(p, m))
    &&& !double_boxx(s, b, p, m)
}

/// A key move from `p` in direction `m`: a pull, or a push worth trying.
pub open spec fn key_ok(s: SpLevel, b: LevelView, p: Vector, pulls: bool, m: Move) -> bool {
    if pulls { pull_ok(s, b, p, m) } else { solve_key(s, b, p, m) }
}

/// `seq![key move]` if `c`, empty otherwise.
pub open spec fn key_if(c: bool, j: int, m: Move) -> Seq<KeyMove> {
    if c { seq![KeyMove { pni: j as u16, move_dir: m }] } else { Seq::empty() }
}

/// The key moves from node `j` at `p`, of the first `k` directions tried.
pub open spec fn node_keys(s: SpLevel, b: LevelView, p: Vector, j: int, pulls: bool, k: int) -> Seq<KeyMove>
    decreases k,
{
    if k <= 0 {
        Seq::empty()
    } else {
        node_keys(s, b, p, j, pulls, k - 1) + key_if(key_ok(s, b, p, pulls, key_dir(pulls, k - 1)), j, key_dir(pulls, k - 1))
    }
}

/// The key moves from the first `n` nodes, node after node.
pub open spec fn keys_upto(s: SpLevel, b: LevelView, nodes: Seq<PathNode>, n: int, pulls: bool) -> Seq<KeyMove>
    decreases n,
{
    if n <= 0 {
        Seq::empty()
    } else {
        keys_upto(s, b, nodes, n - 1, pulls) + node_keys(s, b, nodes[n - 1].pt, n - 1, pulls, 4)
    }
}

/// Some node stands on `p`.
pub open spec fn has_pt(nodes: Seq<PathNode>, p: Vector) -> bool {
    exists|k: int| 0 <= k < nodes.len() && (#[trigger] nodes[k]).pt == p
}

/// Every walkable neighbour of the first `n` nodes is a node.
pub open spec fn closed_upto(s: SpLevel, b: LevelView, nodes: Seq<PathNode>, n: int) -> bool {
    forall|j: int, m: Move| 0 <= j < n && #[trigger] walkable(s, b, step(nodes[j].pt, m))
        ==> has_pt(nodes, step(nodes[j].pt, m))
}

/// The key moves of a prefix of the nodes do not depend on the nodes after it.
proof fn lemma_keys_prefix(s: SpLevel, b: LevelView, a: Seq<PathNode>, c: Seq<PathNode>, n: int, pulls: bool)
    requires
        0 <= n <= a.len(),
        n <= c.len(),
        forall|k: int| 0 <= k < n ==> a[k] == c[k],
    ensures
        keys_upto(s, b, a, n, pulls) == keys_upto(s, b, c, n, pulls),
    decreases n,
{
    if n > 0 {
        lemma_keys_prefix(s, b, a, c, n - 1, pulls);
    }
}

/// Distinct points of a `w` by `h` grid number at most `w * h`.
proof fn lemma_points_bound(nodes: Seq<PathNode>, w: int, h: int)
    requires
        w >= 0,
        h >= 0,
        forall|k: int| 0 <= k < nodes.len() ==> in_bounds(w, h, (#[trigger] nodes[k]).pt),
        forall|i: int, j: int| 0 <= i < j < nodes.len() ==> (#[trigger] nodes[i]).pt != (#[trigger] nodes[j]).pt,
    ensures
        nodes.len() <= w * h,
{
    let idx = Seq::new(nodes.len(), |k: int| cell_index(w, nodes[k].pt));
    assert forall|i: int, j: int| 0 <= i < idx.len() && 0 <= j < idx.len() && i != j implies idx[i] != idx[j] by {
        let p = nodes[i].pt;
        let q = nodes[j].pt;
        if i < j {
            assert(p != q);
        } else {
            assert(nodes[j].pt != nodes[i].pt);
        }
        if idx[i] == idx[j] {
            vstd::arithmetic::div_mod::lemma_fundamental_div_mod_converse(idx[i], w, p.1 as int, p.0 as int);
            vstd::arithmetic::div_mod::lemma_fundamental_div_mod_converse(idx[i], w, q.1 as int, q.0 as int);
            assert(p.0 == q.0 && p.1 == q.1);
        }
    }
    assert(idx.no_duplicates());
    idx.unique_seq_to_set();
    lemma_int_range(0, w * h);
    assert forall|x: int| idx.to_set().contains(x) implies set_int_range(0, w * h).contains(x) by {
        let k = choose|k: int| 0 <= k < idx.len() && idx[k] == x;
        let p = nodes[k].pt;
        assert(0 <= p.0 + p.1 * w < w * h) by (nonlinear_arith)
            requires 0 <= p.0 < w, 0 <= p.1 < h;
    }
    lemma_len_subset(idx.to_set(), set_int_range(0, w * h));
}


/// Whether some node stands on `p`.
fn contains_pt(nodes: &Vec<PathNode>, p: &Vector) -> (r: bool)
    ensures
        r == has_pt(nodes@, *p),
{
    let mut i: usize = 0;
    while i < nodes.len()
        invariant
            i <= nodes@.len(),
            forall|k: int| 0 <= k < i ==> (#[trigger] nodes@[k]).pt != *p,
        decreases nodes@.len() - i,
    {
        if nodes[i].pt == *p {
            assert(nodes@[i as int].pt == *p);
            return true;
        }
        i = i + 1;
    }
    false
}

/// The direction tried `k`th.
fn dir_exec(k: usize) -> (m: Move)
    ensures
        m == dir_of(k as int),
{
    if k == 0 { Move::Up } else if k == 1 { Move::Right } else if k == 2 { Move::Down } else { Move::Left }
}

/// Every direction is one of the four tried.
proof fn lemma_dirs(m: Move)
    ensures
        m == dir_of(0) || m == dir_of(1) || m == dir_of(2) || m == dir_of(3),
{
}

/// Growing the node list keeps every point it had.
proof fn lemma_has_pt_grow(a: Seq<PathNode>, c: Seq<PathNode>, p: Vector)
    requires
        a.len() <= c.len(),
        forall|k: int| 0 <= k < a.len() ==> a[k] == c[k],
        has_pt(a, p),
    ensures
        has_pt(c, p),
{
    let q = choose|q: int| 0 <= q < a.len() && (#[trigger] a[q]).pt == p;
    assert(c[q] == a[q]);
}

impl PathMap {
    /// The key move (if any) from node `i` at `pt`, of the `k`th direction tried.
    fn key_at(&self, base_level: &Level, pt: Vector, i: usize, k: usize, pulls: bool) -> (r: Option<KeyMove>)
        requires
            is_base_level(base_level@),
            fits_base(self.level, base_level@),
            in_bounds(base_level@.w as int, base_level@.h as int, pt),
            i < 256,
            k < 4,
        ensures
            (match r {
                Some(km) => seq![km],
                None => Seq::empty(),
            }) == key_if(key_ok(self.level, base_level@, pt, pulls, key_dir(pulls, k as int)), i as int, key_dir(pulls, k as int)),
    {
        let ghost s = self.level;
        let ghost b = base_level@;
        let movedir = dir_exec(k);
        let npt = pt.add_dir(&movedir);
        if !base_level.vector_in_bounds(&npt) {
            return None;
        }
        proof { lemma_cell_ok(s, b, npt); }
        if !self.level.is_boxx_at_pt(&npt) {
            return None;
        }
        if pulls {
            let r = movedir.reverse();
            let bnpt = pt.add_dir(&r);
            proof {
                if s.inside(bnpt) {
                    lemma_cell_ok(s, b, bnpt);
                }
            }
            let nobj = self.level.get_obj_at_pt_nohuman_checked(&bnpt, base_level);
            if nobj == Obj::Space || nobj == Obj::Hole {
                Some(KeyMove { pni: i as u16, move_dir: r })
            } else {
                None
            }
        } else {
            let bnpt = pt.add_dir2(&movedir);
            proof {
                if s.inside(bnpt) {
                    lemma_cell_ok(s, b, bnpt);
                }
            }
            let nobj = self.level.get_obj_at_pt_nohuman_checked(&bnpt, base_level);
            if nobj == Obj::Space || nobj == Obj::Hole {
                if !base_level.in_noboxx_pts(&bnpt) && !self.double_boxx_situation(pt, movedir, base_level) {
                    Some(KeyMove { pni: i as u16, move_dir: movedir })
                } else {
                    None
                }
            } else {
                None
            }
        }
    }

    /// Adds the cell one step from node `i` (at `pt`) in the `k`th direction to the nodes,
    /// if it is walkable and new.
    fn walk_at(&self, base_level: &Level, nodes: &mut Vec<PathNode>, pt: Vector, i: usize, k: usize)
        requires
            is_base_level(base_level@),
            fits_base(self.level, base_level@),
            nodes_ok(self.level, base_level@, old(nodes)@),
            i < old(nodes)@.len(),
            old(nodes)@[i as int].pt == pt,
            k < 4,
        ensures
            nodes_ok(self.level, base_level@, final(nodes)@),
            final(nodes)@ == old(nodes)@ || final(nodes)@ == old(nodes)@.push(PathNode {
                pt: step(pt, dir_of(k as int)),
                prev_node_idx: i as u16,
                move_taken: Some(dir_of(k as int)),
            }),
            walkable(self.level, base_level@, step(pt, dir_of(k as int))) ==> has_pt(final(nodes)@, step(pt, dir_of(k as int))),
    {
        let ghost s = self.level;
        let ghost b = base_level@;
        let movedir = dir_exec(k);
        let npt = pt.add_dir(&movedir);
        if !base_level.vector_in_bounds(&npt) {
            return;
        }
        proof { lemma_cell_ok(s, b, npt); }
        if self.level.is_boxx_at_pt(&npt) {
            return;
        }
        if base_level.get_obj_at_pt(&npt) == Obj::Wall {
            return;
        }
        if contains_pt(nodes, &npt) {
            return;
        }
        let pn = PathNode { pt: npt, move_taken: Some(movedir), prev_node_idx: i as u16 };
        let ghost nodes0 = nodes@;
        proof {
            let nn = nodes0.push(pn);
            assert forall|x: int, y: int| 0 <= x < y < nn.len() implies (#[trigger] nn[x]).pt != (#[trigger] nn[y]).pt by {
                if y == nodes0.len() {
                    assert(nodes0[x] == nn[x]);
                }
            }
            lemma_points_bound(nn, b.w as int, b.h as int);
        }
        nodes.push(pn);
        proof {
            assert forall|x: int, y: int| 0 <= x < y < nodes@.len() implies (#[trigger] nodes@[x]).pt != (#[trigger] nodes@[y]).pt by {
                if y == nodes0.len() {
                    assert(nodes0[x] == nodes@[x]);
                }
            }
            assert(nodes@[nodes0.len() as int].pt == npt);
        }
    }

    /// The walk tree of this state over `base_level`, in breadth-first order, with the key
    /// moves (pulls if `pulls`, else pushes worth trying) found from each node.
    #[verifier::spinoff_prover]
    #[verifier::rlimit(100)]
    fn flood(&self, base_level: &Level, pulls: bool) -> (pnm: PathNodeMap)
        requires
            is_base_level(base_level@),
            fits_base(self.level, base_level@),
        ensures
            nodes_ok(self.level, base_level@, pnm.nodes@),
            closed_upto(self.level, base_level@, pnm.nodes@, pnm.nodes@.len() as int),
            short_closed(self.level, base_level@, pnm.nodes@, pnm.nodes@.len() as int),
            pnm.key_moves@ == keys_upto(self.level, base_level@, pnm.nodes@, pnm.nodes@.len() as int, pulls),
    {
        let ghost s = self.level;
        let ghost b = base_level@;
        let mut pnm = self.to_pnm();
        let mut i: usize = 0;
        assert(pnm.key_moves@ =~= keys_upto(s, b, pnm.nodes@, 0, pulls));
        proof { lemma_bfs_root(s, b, pnm.nodes@); }
        while i < pnm.nodes.len()
            invariant
                is_base_level(b),
                fits_base(s, b),
                s == self.level,
                b == base_level@,
                nodes_ok(s, b, pnm.nodes@),
                i <= pnm.nodes@.len(),
                closed_upto(s, b, pnm.nodes@, i as int),
                bfs_outer(s, b, pnm.nodes@, i as int),
                pnm.key_moves@ == keys_upto(s, b, pnm.nodes@, i as int, pulls),
            decreases 256 - i,
        {
            let pt = pnm.nodes[i].pt;
            proof { lemma_bfs_start(s, b, pnm.nodes@, i as int, pt); }
            let mut k: usize = 0;
            while k < 4
                invariant
                    is_base_level(b),
                    fits_base(s, b),
                    s == self.level,
                    b == base_level@,
                    nodes_ok(s, b, pnm.nodes@),
                    i < pnm.nodes@.len(),
                    pnm.nodes@[i as int].pt == pt,
                    k <= 4,
                    closed_upto(s, b, pnm.nodes@, i as int),
                    forall|kk: int| 0 <= kk < k && #[trigger] walkable(s, b, step(pt, dir_of(kk)))
                        ==> has_pt(pnm.nodes@, step(pt, dir_of(kk))),
                    bfs_inner(s, b, pnm.nodes@, i as int, pt, k as int),
                    pnm.key_moves@ == keys_upto(s, b, pnm.nodes@, i as int, pulls) + node_keys(s, b, pt, i as int, pulls, k as int),
                decreases 4 - k,
            {
                let ghost nodes0 = pnm.nodes@;
                let found = self.key_at(base_level, pt, i, k, pulls);
                match found {
                    Some(km) => {
                        pnm.key_moves.push(km);
                    },
                    None => {},
                }
                self.walk_at(base_level, &mut pnm.nodes, pt, i, k);
                proof {
                    lemma_walk_step_short(s, b, nodes0, pnm.nodes@, i as int, pt, k as int);
                    lemma_keys_prefix(s, b, nodes0, pnm.nodes@, i as int, pulls);
                    assert(pnm.key_moves@ =~= keys_upto(s, b, pnm.nodes@, i as int, pulls) + node_keys(s, b, pt, i as int, pulls, k as int + 1));
                    assert forall|j: int, m: Move| 0 <= j < i && #[trigger] walkable(s, b, step(pnm.nodes@[j].pt, m))
                        implies has_pt(pnm.nodes@, step(pnm.nodes@[j].pt, m)) by {
                        assert(pnm.nodes@[j] == nodes0[j]);
                        lemma_has_pt_grow(nodes0, pnm.nodes@, step(nodes0[j].pt, m));
                    }
                    assert forall|kk: int| 0 <= kk < k + 1 && #[trigger] walkable(s, b, step(pt, dir_of(kk)))
                        implies has_pt(pnm.nodes@, step(pt, dir_of(kk))) by {
                        if kk < k {
                            lemma_has_pt_grow(nodes0, pnm.nodes@, step(pt, dir_of(kk)));
                        }
                    }
                }
                k = k + 1;
            }
            proof {
                lemma_short_next(s, b, pnm.nodes@, i as int, pt);
                assert forall|j: int, m: Move| 0 <= j < i + 1 && #[trigger] walkable(s, b, step(pnm.nodes@[j].pt, m))
                    implies has_pt(pnm.nodes@, step(pnm.nodes@[j].pt, m)) by {
                    if j == i {
                        lemma_dirs(m);
                        if m == dir_of(0) { assert(walkable(s, b, step(pt, dir_of(0)))); }
                        if m == dir_of(1) { assert(walkable(s, b, step(pt, dir_of(1)))); }
                        if m == dir_of(2) { assert(walkable(s, b, step(pt, dir_of(2)))); }
                        if m == dir_of(3) { assert(walkable(s, b, step(pt, dir_of(3)))); }
                    }
                }
            }
            i = i + 1;
        }
        proof { lemma_bfs_end(s, b, pnm.nodes@); }
        pnm
    }
}


/// The nodes come in the order of the length of their ways from the root.
pub open spec fn layered(nodes: Seq<PathNode>) -> bool {
    forall|j: int, k: int| 0 <= j <= k < nodes.len() ==> #[trigger] trace(nodes, j).len() <= #[trigger] trace(nodes, k).len()
}

/// Every walkable neighbour of the first `n` nodes is a node whose way is at most one
/// move longer.
#[verifier::opaque]
pub open spec fn short_closed(s: SpLevel, b: LevelView, nodes: Seq<PathNode>, n: int) -> bool {
    forall|j: int, m: Move| 0 <= j < n && #[trigger] walkable(s, b, step(nodes[j].pt, m))
        ==> exists|k: int| 0 <= k < nodes.len() && #[trigger] nodes[k].pt == step(nodes[j].pt, m)
            && trace(nodes, k).len() <= trace(nodes, j).len() + 1
}

/// Adding a node keeps the ways to the nodes before it.
proof fn lemma_trace_push(nodes: Seq<PathNode>, x: PathNode, k: int)
    requires
        0 <= k < nodes.len(),
    ensures
        trace(nodes.push(x), k) == trace(nodes, k),
    decreases k,
{
    assert(nodes.push(x)[k] == nodes[k]);
    if 0 < k && nodes[k].move_taken is Some && nodes[k].prev_node_idx < k {
        lemma_trace_push(nodes, x, nodes[k].prev_node_idx as int);
    }
}

/// The ways of a walk tree whose neighbours are all nodes with ways at most one move longer
/// are shortest: any walk from the human to a node's cell is at least as long as its way.
proof fn lemma_walk_not_shorter(s: SpLevel, b: LevelView, nodes: Seq<PathNode>, moves: Seq<Move>, p: Vector)
    requires
        nodes_ok(s, b, nodes),
        short_closed(s, b, nodes, nodes.len() as int),
        walk_end(s, b, human_cell(s), moves) == Some(p),
    ensures
        exists|k: int| 0 <= k < nodes.len() && #[trigger] nodes[k].pt == p && trace(nodes, k).len() <= moves.len(),
    decreases moves.len(),
{
    reveal(short_closed);    if moves.len() == 0 {
        assert(nodes[0].pt == p);
        assert(trace(nodes, 0).len() == 0);
    } else {
        let q = walk_end(s, b, human_cell(s), moves.drop_last())->0;
        lemma_walk_not_shorter(s, b, nodes, moves.drop_last(), q);
        let j = choose|j: int| 0 <= j < nodes.len() && #[trigger] nodes[j].pt == q && trace(nodes, j).len() <= moves.drop_last().len();
        let m = moves.last();
        assert(walkable(s, b, step(nodes[j].pt, m)));
        let k = choose|k: int| 0 <= k < nodes.len() && #[trigger] nodes[k].pt == step(nodes[j].pt, m)
            && trace(nodes, k).len() <= trace(nodes, j).len() + 1;
        assert(nodes[k].pt == p);
    }
}

/// The walk map's ways are shortest walks: no walk from the human to a node's cell is
/// shorter than the way the tree gives to it.
pub proof fn lemma_ways_shortest(s: SpLevel, b: LevelView, pnm: PathNodeMap, pulls: bool, moves: Seq<Move>, k: int)
    requires
        flooded(s, b, pnm, pulls),
        0 <= k < pnm.nodes@.len(),
        walk_end(s, b, human_cell(s), moves) == Some(pnm.nodes@[k].pt),
    ensures
        trace(pnm.nodes@, k).len() <= moves.len(),
{
    let nodes = pnm.nodes@;
    lemma_walk_not_shorter(s, b, nodes, moves, nodes[k].pt);
    let j = choose|j: int| 0 <= j < nodes.len() && #[trigger] nodes[j].pt == nodes[k].pt && trace(nodes, j).len() <= moves.len();
    if j != k {
        if j < k {
            assert(nodes[j].pt != nodes[k].pt);
        } else {
            assert(nodes[k].pt != nodes[j].pt);
        }
    }
}

/// What the walk map keeps before node `i` is looked at: the nodes in the order of their
/// ways, no way more than one move longer than node `i`'s, and the nodes before `i` with
/// their neighbours reached by ways at most one move longer.
#[verifier::opaque]
pub open spec fn bfs_outer(s: SpLevel, b: LevelView, nodes: Seq<PathNode>, i: int) -> bool {
    &&& layered(nodes)
    &&& i < nodes.len() ==> forall|q: int| 0 <= q < nodes.len() ==> #[trigger] trace(nodes, q).len() <= trace(nodes, i).len() + 1
    &&& short_closed(s, b, nodes, i)
}

/// What the walk map keeps while looking at the first `k` neighbours of node `i` at `pt`.
#[verifier::opaque]
pub open spec fn bfs_inner(s: SpLevel, b: LevelView, nodes: Seq<PathNode>, i: int, pt: Vector, k: int) -> bool {
    &&& layered(nodes)
    &&& forall|q: int| 0 <= q < nodes.len() ==> #[trigger] trace(nodes, q).len() <= trace(nodes, i).len() + 1
    &&& short_closed(s, b, nodes, i)
    &&& forall|kk: int| 0 <= kk < k && #[trigger] walkable(s, b, step(pt, dir_of(kk)))
        ==> exists|q: int| 0 <= q < nodes.len() && #[trigger] nodes[q].pt == step(pt, dir_of(kk))
            && trace(nodes, q).len() <= trace(nodes, i).len() + 1
}

/// One step of the walk map: what holds of the ways before a neighbour of node `i` is
/// looked at holds after.
proof fn lemma_walk_step_short(s: SpLevel, b: LevelView, before: Seq<PathNode>, after: Seq<PathNode>, i: int, pt: Vector, k: int)
    requires
        bfs_inner(s, b, before, i, pt, k),
        0 <= i < before.len(),
        before[i].pt == pt,
        0 <= k < 4,
        tree_ok(before),
        after == before || after == before.push(PathNode {
            pt: step(pt, dir_of(k)),
            prev_node_idx: i as u16,
            move_taken: Some(dir_of(k)),
        }),
        walkable(s, b, step(pt, dir_of(k))) ==> has_pt(after, step(pt, dir_of(k))),
        i < 256,
    ensures
        bfs_inner(s, b, after, i, pt, k + 1),
{
    reveal(bfs_inner);
    lemma_walk_step_short_open(s, b, before, after, i, pt, k);
}

proof fn lemma_walk_step_short_open(s: SpLevel, b: LevelView, before: Seq<PathNode>, after: Seq<PathNode>, i: int, pt: Vector, k: int)
    requires
        0 <= i < before.len(),
        before[i].pt == pt,
        0 <= k < 4,
        tree_ok(before),
        layered(before),
        forall|q: int| 0 <= q < before.len() ==> #[trigger] trace(before, q).len() <= trace(before, i).len() + 1,
        short_closed(s, b, before, i),
        forall|kk: int| 0 <= kk < k && #[trigger] walkable(s, b, step(pt, dir_of(kk)))
            ==> exists|q: int| 0 <= q < before.len() && #[trigger] before[q].pt == step(pt, dir_of(kk))
                && trace(before, q).len() <= trace(before, i).len() + 1,
        after == before || after == before.push(PathNode {
            pt: step(pt, dir_of(k)),
            prev_node_idx: i as u16,
            move_taken: Some(dir_of(k)),
        }),
        walkable(s, b, step(pt, dir_of(k))) ==> has_pt(after, step(pt, dir_of(k))),
        i < 256,
    ensures
        layered(after),
        forall|q: int| 0 <= q < after.len() ==> #[trigger] trace(after, q).len() <= trace(after, i).len() + 1,
        short_closed(s, b, after, i),
        forall|kk: int| 0 <= kk < k + 1 && #[trigger] walkable(s, b, step(pt, dir_of(kk)))
            ==> exists|q: int| 0 <= q < after.len() && #[trigger] after[q].pt == step(pt, dir_of(kk))
                && trace(after, q).len() <= trace(after, i).len() + 1,
{
    reveal(short_closed);    if after != before {
        let x = after[before.len() as int];
        assert(after == before.push(x));
        assert forall|q: int| 0 <= q < before.len() implies #[trigger] trace(after, q) == trace(before, q) by {
            lemma_trace_push(before, x, q);
        }
        let n = before.len() as int;
        assert(trace(after, n) == trace(after, i).push(dir_of(k)));
        assert(trace(after, n).len() == trace(before, i).len() + 1);
        assert forall|j: int, q: int| 0 <= j <= q < after.len() implies #[trigger] trace(after, j).len() <= #[trigger] trace(after, q).len() by {
            if q < n {
                assert(trace(before, j).len() <= trace(before, q).len());
            }
        }
        assert forall|j: int, m: Move| 0 <= j < i && #[trigger] walkable(s, b, step(after[j].pt, m))
            implies exists|q: int| 0 <= q < after.len() && #[trigger] after[q].pt == step(after[j].pt, m)
                && trace(after, q).len() <= trace(after, j).len() + 1 by {
            assert(after[j] == before[j]);
            let q = choose|q: int| 0 <= q < before.len() && #[trigger] before[q].pt == step(before[j].pt, m)
                && trace(before, q).len() <= trace(before, j).len() + 1;
            assert(after[q] == before[q]);
        }
        assert forall|kk: int| 0 <= kk < k + 1 && #[trigger] walkable(s, b, step(pt, dir_of(kk)))
            implies exists|q: int| 0 <= q < after.len() && #[trigger] after[q].pt == step(pt, dir_of(kk))
                && trace(after, q).len() <= trace(after, i).len() + 1 by {
            if kk < k {
                let q = choose|q: int| 0 <= q < before.len() && #[trigger] before[q].pt == step(pt, dir_of(kk))
                    && trace(before, q).len() <= trace(before, i).len() + 1;
                assert(after[q] == before[q]);
            } else {
                assert(after[n].pt == step(pt, dir_of(k)));
            }
        }
    } else {
        assert forall|kk: int| 0 <= kk < k + 1 && #[trigger] walkable(s, b, step(pt, dir_of(kk)))
            implies exists|q: int| 0 <= q < after.len() && #[trigger] after[q].pt == step(pt, dir_of(kk))
                && trace(after, q).len() <= trace(after, i).len() + 1 by {
            if kk == k {
                assert(has_pt(after, step(pt, dir_of(k))));
                let q = choose|q: int| 0 <= q < after.len() && (#[trigger] after[q]).pt == step(pt, dir_of(k));
            }
        }
    }
}

/// Once all four neighbours of node `i` have been looked at, the ways stay short up to
/// node `i + 1`, and the bound moves on to that node.
proof fn lemma_short_next(s: SpLevel, b: LevelView, nodes: Seq<PathNode>, i: int, pt: Vector)
    requires
        0 <= i < nodes.len(),
        nodes[i].pt == pt,
        bfs_inner(s, b, nodes, i, pt, 4),
    ensures
        bfs_outer(s, b, nodes, i + 1),
{
    reveal(bfs_inner);
    reveal(bfs_outer);
    lemma_short_next_open(s, b, nodes, i, pt);
}

/// The inner step of the walk map starts where the outer one stands.
proof fn lemma_bfs_start(s: SpLevel, b: LevelView, nodes: Seq<PathNode>, i: int, pt: Vector)
    requires
        0 <= i < nodes.len(),
        bfs_outer(s, b, nodes, i),
    ensures
        bfs_inner(s, b, nodes, i, pt, 0),
{
    reveal(bfs_inner);
    reveal(bfs_outer);
}

/// The walk map at its end: every neighbour reached by a way at most one move longer.
proof fn lemma_bfs_end(s: SpLevel, b: LevelView, nodes: Seq<PathNode>)
    requires
        bfs_outer(s, b, nodes, nodes.len() as int),
    ensures
        short_closed(s, b, nodes, nodes.len() as int),
{
    reveal(bfs_outer);
}

/// The walk map at its start, with the human's cell only.
proof fn lemma_bfs_root(s: SpLevel, b: LevelView, nodes: Seq<PathNode>)
    requires
        nodes.len() == 1,
    ensures
        bfs_outer(s, b, nodes, 0),
{
    reveal(short_closed);    reveal(bfs_outer);
    assert(trace(nodes, 0).len() == 0);
}

proof fn lemma_short_next_open(s: SpLevel, b: LevelView, nodes: Seq<PathNode>, i: int, pt: Vector)
    requires
        0 <= i < nodes.len(),
        nodes[i].pt == pt,
        layered(nodes),
        forall|q: int| 0 <= q < nodes.len() ==> #[trigger] trace(nodes, q).len() <= trace(nodes, i).len() + 1,
        short_closed(s, b, nodes, i),
        forall|kk: int| 0 <= kk < 4 && #[trigger] walkable(s, b, step(pt, dir_of(kk)))
            ==> exists|q: int| 0 <= q < nodes.len() && #[trigger] nodes[q].pt == step(pt, dir_of(kk))
                && trace(nodes, q).len() <= trace(nodes, i).len() + 1,
    ensures
        short_closed(s, b, nodes, i + 1),
        i + 1 < nodes.len() ==> forall|q: int| 0 <= q < nodes.len()
            ==> #[trigger] trace(nodes, q).len() <= trace(nodes, i + 1).len() + 1,
{
    reveal(short_closed);    assert forall|j: int, m: Move| 0 <= j < i + 1 && #[trigger] walkable(s, b, step(nodes[j].pt, m))
        implies exists|q: int| 0 <= q < nodes.len() && #[trigger] nodes[q].pt == step(nodes[j].pt, m)
            && trace(nodes, q).len() <= trace(nodes, j).len() + 1 by {
        if j == i {
            lemma_dirs(m);
            if m == dir_of(0) { assert(walkable(s, b, step(pt, dir_of(0)))); }
            if m == dir_of(1) { assert(walkable(s, b, step(pt, dir_of(1)))); }
            if m == dir_of(2) { assert(walkable(s, b, step(pt, dir_of(2)))); }
            if m == dir_of(3) { assert(walkable(s, b, step(pt, dir_of(3)))); }
        }
    }
    if i + 1 < nodes.len() {
        assert(trace(nodes, i).len() <= trace(nodes, i + 1).len());
    }
}

/// Every key move of the list is made from an earlier node, in a direction that is a key
/// move there.
pub proof fn lemma_keys_valid(s: SpLevel, b: LevelView, nodes: Seq<PathNode>, n: int, pulls: bool, t: int)
    requires
        0 <= n <= nodes.len(),
        nodes.len() <= 256,
        0 <= t < keys_upto(s, b, nodes, n, pulls).len(),
    ensures
        0 <= keys_upto(s, b, nodes, n, pulls)[t].pni < n,
        key_ok(s, b, nodes[keys_upto(s, b, nodes, n, pulls)[t].pni as int].pt, pulls, keys_upto(s, b, nodes, n, pulls)[t].move_dir),
    decreases n,
{
    let prev = keys_upto(s, b, nodes, n - 1, pulls);
    if t < prev.len() {
        lemma_keys_valid(s, b, nodes, n - 1, pulls, t);
    } else {
        lemma_node_keys_valid(s, b, nodes[n - 1].pt, n - 1, pulls, 4, t - prev.len());
    }
}

pub proof fn lemma_node_keys_valid(s: SpLevel, b: LevelView, p: Vector, j: int, pulls: bool, k: int, t: int)
    requires
        0 <= j < 256,
        0 <= t < node_keys(s, b, p, j, pulls, k).len(),
    ensures
        node_keys(s, b, p, j, pulls, k)[t].pni == j,
        key_ok(s, b, p, pulls, node_keys(s, b, p, j, pulls, k)[t].move_dir),
    decreases k,
{
    let prev = node_keys(s, b, p, j, pulls, k - 1);
    if t < prev.len() {
        lemma_node_keys_valid(s, b, p, j, pulls, k - 1, t);
    }
}

/// Every cell the human can walk to from its place is a node of a closed walk tree.
proof fn lemma_walk_reaches_node(s: SpLevel, b: LevelView, nodes: Seq<PathNode>, moves: Seq<Move>, p: Vector)
    requires
        nodes_ok(s, b, nodes),
        closed_upto(s, b, nodes, nodes.len() as int),
        walk_end(s, b, human_cell(s), moves) == Some(p),
    ensures
        has_pt(nodes, p),
    decreases moves.len(),
{
    if moves.len() == 0 {
        assert(nodes[0].pt == p);
    } else {
        let q = walk_end(s, b, human_cell(s), moves.drop_last())->0;
        lemma_walk_reaches_node(s, b, nodes, moves.drop_last(), q);
        let j = choose|j: int| 0 <= j < nodes.len() && (#[trigger] nodes[j]).pt == q;
        assert(walkable(s, b, step(nodes[j].pt, moves.last())));
    }
}

/// A key move of node `j` in direction `m` is among the key moves of its first `k`
/// directions tried, once `m`'s turn has come.
proof fn lemma_node_keys_has(s: SpLevel, b: LevelView, p: Vector, j: int, pulls: bool, k: int, i: int)
    requires
        0 <= i < k <= 4,
        key_ok(s, b, p, pulls, key_dir(pulls, i)),
    ensures
        node_keys(s, b, p, j, pulls, k).contains(KeyMove { pni: j as u16, move_dir: key_dir(pulls, i) }),
    decreases k,
{
    let km = KeyMove { pni: j as u16, move_dir: key_dir(pulls, i) };
    let prev = node_keys(s, b, p, j, pulls, k - 1);
    if i < k - 1 {
        lemma_node_keys_has(s, b, p, j, pulls, k - 1, i);
        let u = choose|u: int| 0 <= u < prev.len() && prev[u] == km;
        assert(node_keys(s, b, p, j, pulls, k)[u] == km);
    } else {
        assert(node_keys(s, b, p, j, pulls, k)[prev.len() as int] == km);
    }
}

/// The key moves of the first `n` nodes hold those of each of them.
proof fn lemma_keys_upto_has(s: SpLevel, b: LevelView, nodes: Seq<PathNode>, n: int, pulls: bool, j: int, km: KeyMove)
    requires
        0 <= j < n <= nodes.len(),
        node_keys(s, b, nodes[j].pt, j, pulls, 4).contains(km),
    ensures
        keys_upto(s, b, nodes, n, pulls).contains(km),
    decreases n,
{
    let prev = keys_upto(s, b, nodes, n - 1, pulls);
    let all = keys_upto(s, b, nodes, n, pulls);
    if j < n - 1 {
        lemma_keys_upto_has(s, b, nodes, n - 1, pulls, j, km);
        let u = choose|u: int| 0 <= u < prev.len() && prev[u] == km;
        assert(all[u] == km);
    } else {
        let nk = node_keys(s, b, nodes[j].pt, j, pulls, 4);
        let u = choose|u: int| 0 <= u < nk.len() && nk[u] == km;
        assert(all[prev.len() + u] == km);
    }
}

/// The walk map misses nothing: for every cell the human can walk to and every direction
/// in which a key move can be made from it (a pull, or a push worth trying), the key move
/// is listed, from the node standing on that cell.
pub proof fn lemma_flood_complete(s: SpLevel, b: LevelView, pnm: PathNodeMap, pulls: bool, moves: Seq<Move>, m: Move)
    requires
        flooded(s, b, pnm, pulls),
        walk_end(s, b, human_cell(s), moves) is Some,
        key_ok(s, b, walk_end(s, b, human_cell(s), moves)->0, pulls, m),
    ensures
        exists|t: int| 0 <= t < pnm.key_moves@.len()
            && pnm.nodes@[(#[trigger] pnm.key_moves@[t]).pni as int].pt == walk_end(s, b, human_cell(s), moves)->0
            && pnm.key_moves@[t].move_dir == m,
{
    let nodes = pnm.nodes@;
    let p = walk_end(s, b, human_cell(s), moves)->0;
    lemma_walk_reaches_node(s, b, nodes, moves, p);
    let j = choose|j: int| 0 <= j < nodes.len() && (#[trigger] nodes[j]).pt == p;
    let i: int = if pulls {
        if m == Move::Down { 0 } else if m == Move::Left { 1 } else if m == Move::Up { 2 } else { 3 }
    } else {
        if m == Move::Up { 0 } else if m == Move::Right { 1 } else if m == Move::Down { 2 } else { 3 }
    };
    assert(key_dir(pulls, i) == m);
    let km = KeyMove { pni: j as u16, move_dir: m };
    lemma_node_keys_has(s, b, p, j, pulls, 4, i);
    lemma_keys_upto_has(s, b, nodes, nodes.len() as int, pulls, j, km);
    let keys = pnm.key_moves@;
    let t = choose|t: int| 0 <= t < keys.len() && keys[t] == km;
    assert(j < 256);
    assert(km.pni as int == j);
    assert(nodes[keys[t].pni as int].pt == p);
}

/// The walk tree and key moves of a state: a breadth-first tree of every walkable cell
/// the human reaches, and the key moves from its nodes in order.
pub open spec fn flooded(s: SpLevel, b: LevelView, pnm: PathNodeMap, pulls: bool) -> bool {
    &&& nodes_ok(s, b, pnm.nodes@)
    &&& closed_upto(s, b, pnm.nodes@, pnm.nodes@.len() as int)
    &&& short_closed(s, b, pnm.nodes@, pnm.nodes@.len() as int)
    &&& pnm.key_moves@ == keys_upto(s, b, pnm.nodes@, pnm.nodes@.len() as int, pulls)
}

/// The key moves whose new path fits in the path store.
pub open spec fn fitting(pm: PathMap, nodes: Seq<PathNode>, keys: Seq<KeyMove>) -> Seq<KeyMove>
    decreases keys.len(),
{
    if keys.len() == 0 {
        Seq::empty()
    } else {
        let rest = fitting(pm, nodes, keys.drop_last());
        if pm.path.fits(trace(nodes, keys.last().pni as int).len() + 1int) { rest.push(keys.last()) } else { rest }
    }
}

/// `maps` are the new states of the fitting key moves, in order.
pub open spec fn made_all(pm: PathMap, pnm: PathNodeMap, maps: Seq<PathMap>, pulls: bool, depth: u16) -> bool {
    let keys = fitting(pm, pnm.nodes@, pnm.key_moves@);
    &&& maps.len() == keys.len()
    &&& forall|t: int| 0 <= t < maps.len() ==> (if pulls {
            pull_made(pm, pnm.nodes@, keys[t], depth, #[trigger] maps[t])
        } else {
            push_made(pm, pnm.nodes@, keys[t], maps[t])
        })
}

impl PathMap {
    /// The walk tree of this state with the pushes worth trying from it.
    pub fn complete_map_solve(&self, base_level: &Level) -> (pnm: PathNodeMap)
        requires
            is_base_level(base_level@),
            fits_base(self.level, base_level@),
        ensures
            flooded(self.level, base_level@, pnm, false),
    {
        self.flood(base_level, false)
    }

    /// The walk tree of this state with the pulls that can be made from it.
    pub fn complete_map_unsolve(&self, base_level: &Level) -> (pnm: PathNodeMap)
        requires
            is_base_level(base_level@),
            fits_base(self.level, base_level@),
        ensures
            flooded(self.level, base_level@, pnm, true),
    {
        self.flood(base_level, true)
    }

    /// The new state of key move `km`, if its path fits in the path store.
    fn make_one(&self, nodes: &Vec<PathNode>, km: &KeyMove, pulls: bool, depth: u16, Ghost(b): Ghost<LevelView>) -> (r: Option<PathMap>)
        requires
            is_base_level(b),
            nodes_ok(self.level, b, nodes@),
            fits_base(self.level, b),
            (km.pni as int) < nodes@.len(),
            key_ok(self.level, b, nodes@[km.pni as int].pt, pulls, km.move_dir),
        ensures
            r is Some == self.path.fits(trace(nodes@, km.pni as int).len() + 1int),
            r matches Some(m) ==> (if pulls { pull_made(*self, nodes@, *km, depth, m) } else { push_made(*self, nodes@, *km, m) }),
    {
        let ghost s = self.level;
        proof {
            lemma_trace_walks(s, b, nodes@, km.pni as int);
            lemma_cell_ok(s, b, nodes@[km.pni as int].pt);
        }
        let moves = trace_moves(nodes, km.pni as usize);
        if !self.path.has_room(moves.len() + 1) {
            return None;
        }
        if pulls {
            proof {
                let p = nodes@[km.pni as int].pt;
                lemma_cell_ok(s, b, step(p, move_rev(km.move_dir)));
                if km.pni > 0 {
                    assert(walkable(s, b, nodes@[km.pni as int].pt));
                }
            }
            Some(self.apply_key_pull_2(nodes, km, depth))
        } else {
            proof {
                let p = nodes@[km.pni as int].pt;
                lemma_cell_ok(s, b, step(p, km.move_dir));
                lemma_cell_ok(s, b, step2(p, km.move_dir));
            }
            Some(self.apply_key_push_2(nodes, km))
        }
    }

    /// Appends the new states of the key moves of a walk tree, leaving out those whose
    /// path would not fit in the path store.
    fn make_all(&self, pnm: &PathNodeMap, maps_out: &mut Vec<PathMap>, pulls: bool, depth: u16)
        requires
            exists|b: LevelView| #[trigger] is_base_level(b) && flooded(self.level, b, *pnm, pulls)
                && fits_base(self.level, b),
        ensures
            final(maps_out)@.len() >= old(maps_out)@.len(),
            final(maps_out)@.subrange(0, old(maps_out)@.len() as int) == old(maps_out)@,
            made_all(*self, *pnm, final(maps_out)@.subrange(old(maps_out)@.len() as int, final(maps_out)@.len() as int), pulls, depth),
    {
        let ghost b = choose|b: LevelView| #[trigger] is_base_level(b) && flooded(self.level, b, *pnm, pulls)
            && fits_base(self.level, b);
        let ghost s = self.level;
        let ghost start = old(maps_out)@;
        let ghost nodes = pnm.nodes@;
        let ghost keys = pnm.key_moves@;
        let mut t: usize = 0;
        assert(keys.take(0) =~= Seq::<KeyMove>::empty());
        assert(maps_out@.subrange(start.len() as int, maps_out@.len() as int) =~= Seq::<PathMap>::empty());
        while t < pnm.key_moves.len()
            invariant
                is_base_level(b),
                nodes_ok(s, b, pnm.nodes@),
                pnm.key_moves@ == keys_upto(s, b, pnm.nodes@, pnm.nodes@.len() as int, pulls),
                fits_base(s, b),
                s == self.level,
                nodes == pnm.nodes@,
                keys == pnm.key_moves@,
                t <= keys.len(),
                maps_out@.len() >= start.len(),
                maps_out@.subrange(0, start.len() as int) == start,
                ({
                    let made = maps_out@.subrange(start.len() as int, maps_out@.len() as int);
                    let want = fitting(*self, nodes, keys.take(t as int));
                    &&& made.len() == want.len()
                    &&& forall|u: int| 0 <= u < made.len() ==> (if pulls {
                            pull_made(*self, nodes, want[u], depth, #[trigger] made[u])
                        } else {
                            push_made(*self, nodes, want[u], made[u])
                        })
                }),
            decreases keys.len() - t,
        {
            let km = pnm.key_moves[t];
            proof {
                lemma_keys_valid(s, b, nodes, nodes.len() as int, pulls, t as int);
                assert(keys.take(t as int + 1).drop_last() =~= keys.take(t as int));
            }
            let ghost before = maps_out@;
            let made = self.make_one(&pnm.nodes, &km, pulls, depth, Ghost(b));
            match made {
                Some(r) => {
                    maps_out.push(r);
                    proof {
                        assert(maps_out@.subrange(0, start.len() as int) =~= before.subrange(0, start.len() as int));
                        assert(maps_out@.subrange(start.len() as int, maps_out@.len() as int)
                            =~= before.subrange(start.len() as int, before.len() as int).push(r));
                    }
                },
                None => {},
            }
            t = t + 1;
        }
        assert(keys.take(keys.len() as int) =~= keys);
    }

    /// Appends the states reached by every push worth trying from this state (leaving out
    /// those whose path would not fit in the path store).
    pub fn complete_solve_2(&self, base_level: &Level, maps_out: &mut Vec<PathMap>)
        requires
            is_base_level(base_level@),
            fits_base(self.level, base_level@),
        ensures
            final(maps_out)@.len() >= old(maps_out)@.len(),
            final(maps_out)@.subrange(0, old(maps_out)@.len() as int) == old(maps_out)@,
            exists|pnm: PathNodeMap| flooded(self.level, base_level@, pnm, false)
                && #[trigger] made_all(*self, pnm, final(maps_out)@.subrange(old(maps_out)@.len() as int, final(maps_out)@.len() as int), false, self.depth),
    {
        let pnm = self.flood(base_level, false);
        self.make_all(&pnm, maps_out, false, self.depth);
    }

    /// Appends the states reached by every pull that can be made from this state (leaving
    /// out those whose path would not fit in the path store), at search depth `depth`.
    pub fn complete_unsolve_2(&self, base_level: &Level, maps_out: &mut Vec<PathMap>, depth: u16)
        requires
            is_base_level(base_level@),
            fits_base(self.level, base_level@),
        ensures
            final(maps_out)@.len() >= old(maps_out)@.len(),
            final(maps_out)@.subrange(0, old(maps_out)@.len() as int) == old(maps_out)@,
            exists|pnm: PathNodeMap| flooded(self.level, base_level@, pnm, true)
                && #[trigger] made_all(*self, pnm, final(maps_out)@.subrange(old(maps_out)@.len() as int, final(maps_out)@.len() as int), true, depth),
    {
        let pnm = self.flood(base_level, true);
        self.make_all(&pnm, maps_out, true, depth);
    }
}


impl PathNodeMap {
    /// The new states of all the key moves (pushes) of this walk map, from the state
    /// `base_path_map`.
    pub fn apply_key_pushes(&self, base_path_map: &PathMap) -> (maps: Vec<PathMap>)
        requires
            tree_ok(self.nodes@),
            forall|t: int| 0 <= t < self.key_moves@.len() ==> {
                let km = #[trigger] self.key_moves@[t];
                &&& (km.pni as int) < self.nodes@.len()
                &&& push_applies(base_path_map.level, self.nodes@[km.pni as int].pt, km.move_dir)
                &&& base_path_map.path.fits(trace(self.nodes@, km.pni as int).len() + 1int)
            },
        ensures
            maps@.len() == self.key_moves@.len(),
            forall|t: int| 0 <= t < maps@.len() ==> push_made(*base_path_map, self.nodes@, self.key_moves@[t], #[trigger] maps@[t]),
    {
        let mut nmaps: Vec<PathMap> = Vec::new();
        let mut t: usize = 0;
        while t < self.key_moves.len()
            invariant
                tree_ok(self.nodes@),
                forall|u: int| 0 <= u < self.key_moves@.len() ==> {
                    let km = #[trigger] self.key_moves@[u];
                    &&& (km.pni as int) < self.nodes@.len()
                    &&& push_applies(base_path_map.level, self.nodes@[km.pni as int].pt, km.move_dir)
                    &&& base_path_map.path.fits(trace(self.nodes@, km.pni as int).len() + 1int)
                },
                t <= self.key_moves@.len(),
                nmaps@.len() == t,
                forall|u: int| 0 <= u < t ==> push_made(*base_path_map, self.nodes@, self.key_moves@[u], #[trigger] nmaps@[u]),
            decreases self.key_moves@.len() - t,
        {
            let km = self.key_moves[t];
            nmaps.push(PathMap::new_by_applying_key_push(self, base_path_map, &km));
            t = t + 1;
        }
        nmaps
    }

    /// The new states of all the key moves (pulls) of this walk map, from the state
    /// `base_path_map`, at search depth 0.
    pub fn apply_key_pulls(&self, base_path_map: &PathMap) -> (maps: Vec<PathMap>)
        requires
            tree_ok(self.nodes@),
            forall|t: int| 0 <= t < self.key_moves@.len() ==> {
                let km = #[trigger] self.key_moves@[t];
                &&& (km.pni as int) < self.nodes@.len()
                &&& pull_applies(base_path_map.level, self.nodes@[km.pni as int].pt, km.move_dir)
                &&& base_path_map.path.fits(trace(self.nodes@, km.pni as int).len() + 1int)
            },
        ensures
            maps@.len() == self.key_moves@.len(),
            forall|t: int| 0 <= t < maps@.len() ==> pull_made(*base_path_map, self.nodes@, self.key_moves@[t], 0, #[trigger] maps@[t]),
    {
        let mut nmaps: Vec<PathMap> = Vec::new();
        let mut t: usize = 0;
        while t < self.key_moves.len()
            invariant
                tree_ok(self.nodes@),
                forall|u: int| 0 <= u < self.key_moves@.len() ==> {
                    let km = #[trigger] self.key_moves@[u];
                    &&& (km.pni as int) < self.nodes@.len()
                    &&& pull_applies(base_path_map.level, self.nodes@[km.pni as int].pt, km.move_dir)
                    &&& base_path_map.path.fits(trace(self.nodes@, km.pni as int).len() + 1int)
                },
                t <= self.key_moves@.len(),
                nmaps@.len() == t,
                forall|u: int| 0 <= u < t ==> pull_made(*base_path_map, self.nodes@, self.key_moves@[u], 0, #[trigger] nmaps@[u]),
            decreases self.key_moves@.len() - t,
        {
            let km = self.key_moves[t];
            nmaps.push(PathMap::new_by_applying_key_pull(self, base_path_map, &km, 0));
            t = t + 1;
        }
        nmaps
    }
}

/// `s` with the human moved to (x, y).
pub open spec fn moved_human(s: SpLevel, x: i8, y: i8) -> SpLevel {
    SpLevel { w: s.w, h: s.h, cmp_data: CmpData { human_x: x, human_y: y, blocks: s.cmp_data.blocks } }
}

/// One move of the game on a search state: the human steps onto a walkable cell, or
/// pushes the box on the next cell onto a free cell.
pub open spec fn play_step(s: SpLevel, b: LevelView, m: Move, r: SpLevel) -> bool {
    let p = human_cell(s);
    let np = step(p, m);
    ||| walkable(s, b, np) && r == moved_human(s, np.0 as i8, np.1 as i8)
    ||| push_ok(s, b, p, m) && pushed(s, p, m, r)
}

/// `states` are the states passed through when the moves are played from `s` to `r`,
/// each move a move of the game.
pub open spec fn play_chain(states: Seq<SpLevel>, s: SpLevel, b: LevelView, moves: Seq<Move>, r: SpLevel) -> bool {
    &&& states.len() == moves.len() + 1
    &&& states[0] == s
    &&& states[moves.len() as int] == r
    &&& forall|i: int| 0 <= i < moves.len() ==> play_step(#[trigger] states[i], b, moves[i], states[i + 1])
}

/// Playing the moves from `s`, each a move of the game, can end in `r`.
pub open spec fn plays(s: SpLevel, b: LevelView, moves: Seq<Move>, r: SpLevel) -> bool {
    exists|states: Seq<SpLevel>| #[trigger] play_chain(states, s, b, moves, r)
}

/// Playing no move stays.
pub proof fn lemma_plays_none(s: SpLevel, b: LevelView)
    ensures
        plays(s, b, Seq::empty(), s),
{
    assert(play_chain(seq![s], s, b, Seq::empty(), s));
}

/// Playing some moves and then one more move of the game.
pub proof fn lemma_plays_push(s: SpLevel, b: LevelView, moves: Seq<Move>, q: SpLevel, m: Move, r: SpLevel)
    requires
        plays(s, b, moves, q),
        play_step(q, b, m, r),
    ensures
        plays(s, b, moves.push(m), r),
{
    let states = choose|states: Seq<SpLevel>| #[trigger] play_chain(states, s, b, moves, q);
    let st2 = states.push(r);
    assert forall|i: int| 0 <= i < moves.push(m).len() implies play_step(#[trigger] st2[i], b, moves.push(m)[i], st2[i + 1]) by {
        if i < moves.len() {
            assert(st2[i] == states[i] && st2[i + 1] == states[i + 1]);
        }
    }
    assert(play_chain(st2, s, b, moves.push(m), r));
}

/// Playing one sequence of moves and then another plays the two together.
pub proof fn lemma_plays_concat(s: SpLevel, b: LevelView, a: Seq<Move>, q: SpLevel, c: Seq<Move>, r: SpLevel)
    requires
        plays(s, b, a, q),
        plays(q, b, c, r),
    ensures
        plays(s, b, a + c, r),
{
    let x = choose|x: Seq<SpLevel>| #[trigger] play_chain(x, s, b, a, q);
    let y = choose|y: Seq<SpLevel>| #[trigger] play_chain(y, q, b, c, r);
    let z = x + y.drop_first();
    assert forall|i: int| 0 <= i < (a + c).len() implies play_step(#[trigger] z[i], b, (a + c)[i], z[i + 1]) by {
        if i < a.len() {
            assert(z[i] == x[i]);
            assert(z[i + 1] == x[i + 1]);
            assert((a + c)[i] == a[i]);
        } else {
            let j = i - a.len();
            assert(z[i] == y[j]);
            assert(z[i + 1] == y[j + 1]);
            assert((a + c)[i] == c[j]);
        }
    }
    assert(play_chain(z, s, b, a + c, r));
}

/// A walk of the walk tree plays from the state to the state with the human at its end.
#[verifier::spinoff_prover]
#[verifier::rlimit(30)]
pub proof fn lemma_walk_plays(s: SpLevel, b: LevelView, moves: Seq<Move>, q: Vector)
    requires
        fits_base(s, b),
        walk_end(s, b, human_cell(s), moves) == Some(q),
    ensures
        plays(s, b, moves, moved_human(s, q.0 as i8, q.1 as i8)),
        in_bounds(b.w as int, b.h as int, q),
    decreases moves.len(),
{
    if moves.len() == 0 {
        assert(moved_human(s, q.0 as i8, q.1 as i8) == s);
        lemma_plays_none(s, b);
        assert(moves =~= Seq::<Move>::empty());
    } else {
        let q1 = walk_end(s, b, human_cell(s), moves.drop_last())->0;
        lemma_walk_plays(s, b, moves.drop_last(), q1);
        let t = moved_human(s, q1.0 as i8, q1.1 as i8);
        assert(human_cell(t) == q1);
        assert(play_step(t, b, moves.last(), moved_human(s, q.0 as i8, q.1 as i8)));
        lemma_plays_push(s, b, moves.drop_last(), t, moves.last(), moved_human(s, q.0 as i8, q.1 as i8));
        assert(moves.drop_last().push(moves.last()) =~= moves);
    }
}

/// The new state of a push worth trying is reached by playing the way to the node and
/// then the push.
pub proof fn lemma_push_made_plays(pm: PathMap, b: LevelView, nodes: Seq<PathNode>, km: KeyMove, r: PathMap)
    requires
        is_base_level(b),
        fits_base(pm.level, b),
        nodes_ok(pm.level, b, nodes),
        (km.pni as int) < nodes.len(),
        push_ok(pm.level, b, nodes[km.pni as int].pt, km.move_dir),
        push_made(pm, nodes, km, r),
    ensures
        plays(pm.level, b, trace(nodes, km.pni as int).push(km.move_dir), r.level),
{
    let s = pm.level;
    let p = nodes[km.pni as int].pt;
    let w = trace(nodes, km.pni as int);
    lemma_trace_walks(s, b, nodes, km.pni as int);
    lemma_walk_plays(s, b, w, p);
    let t = moved_human(s, p.0 as i8, p.1 as i8);
    assert(human_cell(t) == p);
    assert(play_step(t, b, km.move_dir, r.level));
    lemma_plays_push(s, b, w, t, km.move_dir, r.level);
}

/// Which moves of a play push a box: the move from each state onto a cell with a box.
pub open spec fn push_flags(states: Seq<SpLevel>, moves: Seq<Move>) -> Seq<bool> {
    Seq::new(moves.len(), |i: int| states[i].box_at(step(human_cell(states[i]), moves[i])))
}

/// The number of `true`s.
pub open spec fn count_true(f: Seq<bool>) -> nat
    decreases f.len(),
{
    if f.len() == 0 { 0 } else { count_true(f.drop_last()) + (if f.last() { 1nat } else { 0nat }) }
}

/// Counting over two parts adds up.
proof fn lemma_count_true_concat(a: Seq<bool>, c: Seq<bool>)
    ensures
        count_true(a + c) == count_true(a) + count_true(c),
    decreases c.len(),
{
    if c.len() == 0 {
        assert(a + c =~= a);
    } else {
        lemma_count_true_concat(a, c.drop_last());
        assert((a + c).drop_last() =~= a + c.drop_last());
    }
}

/// Playing the moves from `s`, each a move of the game, can end in `r` with `n` of them
/// pushing a box.
pub open spec fn plays_pushing(s: SpLevel, b: LevelView, moves: Seq<Move>, r: SpLevel, n: nat) -> bool {
    exists|states: Seq<SpLevel>| #[trigger] play_chain(states, s, b, moves, r) && count_true(push_flags(states, moves)) == n
}

/// Playing no move stays, pushing nothing.
pub proof fn lemma_pushing_none(s: SpLevel, b: LevelView)
    ensures
        plays_pushing(s, b, Seq::empty(), s, 0),
{
    assert(play_chain(seq![s], s, b, Seq::empty(), s));
    assert(push_flags(seq![s], Seq::<Move>::empty()) =~= Seq::<bool>::empty());
}

/// Playing some moves and then one more: the push count grows by one if that move pushes.
pub proof fn lemma_pushing_step(s: SpLevel, b: LevelView, moves: Seq<Move>, q: SpLevel, n: nat, m: Move, r: SpLevel)
    requires
        plays_pushing(s, b, moves, q, n),
        play_step(q, b, m, r),
    ensures
        plays_pushing(s, b, moves.push(m), r,
            n + (if q.box_at(step(human_cell(q), m)) { 1nat } else { 0nat })),
{
    let states = choose|states: Seq<SpLevel>| #[trigger] play_chain(states, s, b, moves, q)
        && count_true(push_flags(states, moves)) == n;
    let st2 = states.push(r);
    let ms2 = moves.push(m);
    assert forall|i: int| 0 <= i < ms2.len() implies play_step(#[trigger] st2[i], b, ms2[i], st2[i + 1]) by {
        if i < moves.len() {
            assert(st2[i] == states[i] && st2[i + 1] == states[i + 1]);
        }
    }
    assert(play_chain(st2, s, b, ms2, r));
    assert(push_flags(st2, ms2).drop_last() =~= push_flags(states, moves));
    assert(st2[moves.len() as int] == q);
}

/// Playing one sequence of moves and then another: the pushes add up.
pub proof fn lemma_pushing_concat(s: SpLevel, b: LevelView, a: Seq<Move>, q: SpLevel, n1: nat, c: Seq<Move>, r: SpLevel, n2: nat)
    requires
        plays_pushing(s, b, a, q, n1),
        plays_pushing(q, b, c, r, n2),
    ensures
        plays_pushing(s, b, a + c, r, n1 + n2),
{
    let x = choose|x: Seq<SpLevel>| #[trigger] play_chain(x, s, b, a, q) && count_true(push_flags(x, a)) == n1;
    let y = choose|y: Seq<SpLevel>| #[trigger] play_chain(y, q, b, c, r) && count_true(push_flags(y, c)) == n2;
    let z = x + y.drop_first();
    assert forall|i: int| 0 <= i < (a + c).len() implies play_step(#[trigger] z[i], b, (a + c)[i], z[i + 1]) by {
        if i < a.len() {
            assert(z[i] == x[i]);
            assert(z[i + 1] == x[i + 1]);
            assert((a + c)[i] == a[i]);
        } else {
            let j = i - a.len();
            assert(z[i] == y[j]);
            assert(z[i + 1] == y[j + 1]);
            assert((a + c)[i] == c[j]);
        }
    }
    assert(play_chain(z, s, b, a + c, r));
    assert forall|i: int| 0 <= i < (a + c).len() implies #[trigger] push_flags(z, a + c)[i] == (push_flags(x, a) + push_flags(y, c))[i] by {
        if i < a.len() {
            assert(z[i] == x[i]);
        } else {
            assert(z[i] == y[i - a.len()]);
        }
    }
    assert(push_flags(z, a + c) =~= push_flags(x, a) + push_flags(y, c));
    lemma_count_true_concat(push_flags(x, a), push_flags(y, c));
}

/// A walk of the walk tree pushes nothing.
#[verifier::spinoff_prover]
#[verifier::rlimit(30)]
pub proof fn lemma_walk_pushing(s: SpLevel, b: LevelView, moves: Seq<Move>, q: Vector)
    requires
        fits_base(s, b),
        walk_end(s, b, human_cell(s), moves) == Some(q),
    ensures
        plays_pushing(s, b, moves, moved_human(s, q.0 as i8, q.1 as i8), 0),
    decreases moves.len(),
{
    if moves.len() == 0 {
        assert(moved_human(s, q.0 as i8, q.1 as i8) == s);
        lemma_pushing_none(s, b);
        assert(moves =~= Seq::<Move>::empty());
    } else {
        let q1 = walk_end(s, b, human_cell(s), moves.drop_last())->0;
        lemma_walk_pushing(s, b, moves.drop_last(), q1);
        let t = moved_human(s, q1.0 as i8, q1.1 as i8);
        assert(human_cell(t) == q1);
        assert(play_step(t, b, moves.last(), moved_human(s, q.0 as i8, q.1 as i8)));
        assert(!t.box_at(step(human_cell(t), moves.last())));
        lemma_pushing_step(s, b, moves.drop_last(), t, 0, moves.last(), moved_human(s, q.0 as i8, q.1 as i8));
        assert(moves.drop_last().push(moves.last()) =~= moves);
    }
}

/// The new state of a push worth trying is reached by the way to the node, which pushes
/// nothing, and then the push.
pub proof fn lemma_push_made_pushing(pm: PathMap, b: LevelView, nodes: Seq<PathNode>, km: KeyMove, r: PathMap)
    requires
        is_base_level(b),
        fits_base(pm.level, b),
        nodes_ok(pm.level, b, nodes),
        (km.pni as int) < nodes.len(),
        push_ok(pm.level, b, nodes[km.pni as int].pt, km.move_dir),
        push_made(pm, nodes, km, r),
    ensures
        plays_pushing(pm.level, b, trace(nodes, km.pni as int).push(km.move_dir), r.level, 1),
{
    let s = pm.level;
    let p = nodes[km.pni as int].pt;
    let w = trace(nodes, km.pni as int);
    lemma_trace_walks(s, b, nodes, km.pni as int);
    lemma_walk_pushing(s, b, w, p);
    lemma_walk_plays(s, b, w, p);
    let t = moved_human(s, p.0 as i8, p.1 as i8);
    assert(human_cell(t) == p);
    assert(play_step(t, b, km.move_dir, r.level));
    assert(t.box_at(step(human_cell(t), km.move_dir)));
    lemma_pushing_step(s, b, w, t, 0, km.move_dir, r.level);
}

} // verus!
