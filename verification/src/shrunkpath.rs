//! Paths kept small: 2 bits per move in 128-bit blocks, and a tree of moves in which
//! paths with a common beginning share their nodes.
use vstd::prelude::*;
use crate::stackstack::{StackStack, STACKMAX};
use crate::vector::{Move, move_of, move_code, moves_text, moves_to_text, blocks_needed, lemma_move_code_roundtrip};

pub use crate::vector::ShrunkPath;

verus! {

/// A path store: a sequence of moves with push, append and text.
pub trait PathTrait: Sized {
    /// The moves of the path.
    spec fn path(&self) -> Seq<Move>;

    /// The store is in its regular shape (see the implementations).
    spec fn consistent(&self) -> bool;

    /// Whether `k` more moves fit.
    spec fn fits(&self, k: int) -> bool;

    /// How many moves an empty store holds.
    spec fn capacity() -> int;

    fn new() -> (r: Self)
        ensures
            r.path() == Seq::<Move>::empty(),
            r.consistent(),
            forall|k: int| 0 <= k ==> (#[trigger] r.fits(k) <==> k <= Self::capacity());

    fn len(&self) -> (r: u16)
        ensures
            r == self.path().len();

    fn push(&mut self, move1: &Move)
        requires
            old(self).fits(1),
        ensures
            forall|k: int| k >= 0 ==> (#[trigger] final(self).fits(k) <==> old(self).fits(k + 1)),
            final(self).path().len() == old(self).path().len() + 1,
            old(self).consistent() ==> final(self).consistent() && final(self).path() == old(self).path().push(*move1);

    /// Pushes the move numbered `move1` (0 Up, 1 Right, 2 Down, 3 Left).
    fn push_u8(&mut self, move1: u8)
        requires
            old(self).fits(1),
        ensures
            forall|k: int| k >= 0 ==> (#[trigger] final(self).fits(k) <==> old(self).fits(k + 1)),
            final(self).path().len() == old(self).path().len() + 1,
            old(self).consistent() && move1 < 4 ==> final(self).consistent() && final(self).path() == old(self).path().push(move_of(move1 as int));

    fn append_path(&mut self, path: &Vec<Move>)
        requires
            old(self).fits(path@.len() as int),
        ensures
            forall|k: int| k >= 0 ==> (#[trigger] final(self).fits(k) <==> old(self).fits(k + path@.len())),
            final(self).path().len() == old(self).path().len() + path@.len(),
            old(self).consistent() ==> final(self).consistent() && final(self).path() == old(self).path() + path@;

    /// The letters of the moves, e.g. "UURDL".
    fn to_string(&self) -> (s: String)
        ensures
            s@ == moves_text(self.path());
}

/// A path kept as 2 bits per move, 64 moves to a 128-bit block, in a fixed-size store
/// of `STACKMAX` blocks (at most 512 moves).
#[derive(Clone, Copy)]
pub struct ShrunkPath128 {
    count: u16,
    data: StackStack<u128>,
}

impl ShrunkPath128 {
    #[verifier::type_invariant]
    spec fn inv(&self) -> bool {
        self.count <= 512 && self.data.next <= STACKMAX
    }

    /// The move stored at position `i`.
    pub closed spec fn move_at(&self, i: int) -> Move {
        move_of(crate::bits::field128(self.data.stack@[i / 64], i % 64) as int)
    }

    /// The moves of the path, first move first.
    pub closed spec fn moves(&self) -> Seq<Move> {
        Seq::new(self.count as nat, |i: int| self.move_at(i))
    }

    /// The store is in its regular shape: one block per 64 moves, and no stray bits
    /// after the last move. A path built only by `new`, `push` and `append_path` keeps
    /// this shape; `clear` may leave it.
    pub closed spec fn wf(&self) -> bool {
        &&& self.data.next == (self.count + 63) / 64
        &&& (self.count % 64 != 0 ==> self.data.stack@[(self.count / 64) as int] >> ((2 * (self.count % 64)) as u128) == 0)
    }

    /// Whether `k` more moves can be pushed without overflowing the store.
    pub closed spec fn room(&self, k: int) -> bool {
        &&& self.count + k <= 512
        &&& self.data.next + blocks_needed(self.count as int, 64, k) <= STACKMAX
    }

    /// The exact change of the store made by pushing the 2-bit code `c`.
    closed spec fn pushed_code(&self, new: Self, c: u128) -> bool {
        &&& new.count == self.count + 1
        &&& if self.count % 64 == 0 {
            &&& new.data.next == self.data.next + 1
            &&& new.data.stack@ == self.data.stack@.update(self.data.next as int, c)
        } else {
            &&& new.data.next == self.data.next
            &&& new.data.stack@ == self.data.stack@.update(
                (self.count / 64) as int,
                self.data.stack@[(self.count / 64) as int] | (c << ((2 * (self.count % 64)) as u128)),
            )
        }
    }

    proof fn lemma_wf_room(&self, k: int)
        requires
            self.inv(),
            self.wf(),
            k >= 0,
        ensures
            self.room(k) <==> self.count + k <= 512,
    {
        let c = self.count as int;
        assert((c + 63) / 64 + ((c + k + 63) / 64 - (c + 63) / 64) == (c + k + 63) / 64);
        if c + k <= 512 {
            assert((c + k + 63) / 64 <= 8);
        }
    }

    proof fn lemma_push_room(&self, new: Self, c: u128)
        requires
            self.pushed_code(new, c),
        ensures
            forall|k: int| k >= 0 ==> (#[trigger] new.room(k) <==> self.room(k + 1)),
    {
        assert forall|k: int| k >= 0 implies (#[trigger] new.room(k) <==> self.room(k + 1)) by {
            let n = self.count as int;
            if n % 64 == 0 {
                assert((n + 1 + k + 63) / 64 - (n + 1 + 63) / 64 + 1 == (n + k + 1 + 63) / 64 - (n + 63) / 64);
            } else {
                assert((n + 1 + k + 63) / 64 - (n + 1 + 63) / 64 == (n + k + 1 + 63) / 64 - (n + 63) / 64);
            }
        }
    }

    proof fn lemma_push_view(&self, new: Self, c: u128)
        requires
            self.inv(),
            new.inv(),
            self.wf(),
            self.pushed_code(new, c),
            c < 4,
        ensures
            new.wf(),
            new.moves() == self.moves().push(move_of(c as int)),
    {
        let n = self.count as int;
        if n % 64 == 0 {
            crate::bits::lemma128_fresh(c);
            assert forall|i: int| 0 <= i < n implies #[trigger] new.move_at(i) == self.move_at(i) by {
                assert(i / 64 < n / 64);
            }
            assert(new.move_at(n) == move_of(c as int)) by {
                assert(n / 64 == self.data.next);
                assert(2 * (n % 64) == 0);
            }
            if (n + 1) % 64 != 0 {
                assert((n + 1) / 64 == n / 64);
                assert(2 * ((n + 1) % 64) == 2);
            }
        } else {
            let b = self.data.stack@[n / 64];
            let k = (n % 64) as u128;
            crate::bits::lemma128_or_same(b, c, k);
            assert forall|i: int| 0 <= i < n implies #[trigger] new.move_at(i) == self.move_at(i) by {
                if i / 64 == n / 64 {
                    crate::bits::lemma128_or_other(b, c, (i % 64) as u128, k);
                }
            }
            assert(new.move_at(n) == move_of(c as int));
            if (n + 1) % 64 != 0 {
                assert((n + 1) / 64 == n / 64);
                assert((n + 1) % 64 == k + 1);
            } else {
                assert((n + 1 + 63) / 64 == n / 64 + 1);
            }
        }
        assert(new.moves() =~= self.moves().push(move_of(c as int)));
    }

    fn push_code(&mut self, c: u128)
        requires
            old(self).room(1),
        ensures
            old(self).pushed_code(*final(self), c),
            forall|k: int| k >= 0 ==> (#[trigger] final(self).room(k) <==> old(self).room(k + 1)),
            old(self).wf() && c < 4 ==> final(self).wf() && final(self).moves() == old(self).moves().push(move_of(c as int)),
    {
        proof { use_type_invariant(&*self); }
        let mut d = self.data;
        if self.count % 64 == 0 {
            d.push(c);
        } else {
            let idx = (self.count / 64) as usize;
            let shift: u128 = (2 * (self.count % 64)) as u128;
            let x = d.stack[idx] | (c << shift);
            d.stack.set(idx, x);
        }
        self.data = d;
        self.count = self.count + 1;
        proof {
            old(self).lemma_push_room(*self, c);
            if old(self).wf() && c < 4 {
                old(self).lemma_push_view(*self, c);
            }
        }
    }
}

impl PathTrait for ShrunkPath128 {
    open spec fn path(&self) -> Seq<Move> {
        self.moves()
    }

    open spec fn consistent(&self) -> bool {
        self.wf()
    }

    open spec fn fits(&self, k: int) -> bool {
        self.room(k)
    }

    open spec fn capacity() -> int {
        512
    }

    fn new() -> (r: Self) {
        let r = Self { count: 0, data: StackStack::<u128>::new() };
        proof {
            assert(r.moves() =~= Seq::<Move>::empty());
            assert forall|k: int| 0 <= k implies (#[trigger] r.room(k) <==> k <= 512) by {
                r.lemma_wf_room(k);
            }
        }
        r
    }

    fn len(&self) -> (r: u16) {
        self.count
    }

    fn push(&mut self, move1: &Move) {
        let c = move1.to_u8() as u128;
        self.push_code(c);
        proof { lemma_move_code_roundtrip(*move1); }
    }

    fn push_u8(&mut self, move1: u8) {
        self.push_code(move1 as u128);
    }

    fn append_path(&mut self, path: &Vec<Move>) {
        let ghost start = *self;
        let mut i: usize = 0;
        while i < path.len()
            invariant
                i <= path@.len(),
                self.count == start.count + i,
                forall|k: int| k >= 0 ==> (#[trigger] self.room(k) <==> start.room(k + i)),
                start.room(path@.len() as int),
                start.wf() ==> self.wf() && self.moves() == start.moves() + path@.take(i as int),
            decreases path@.len() - i,
        {
            assert(self.room(1) <==> start.room(1 + i));
            let ghost before = *self;
            let c = path[i].to_u8() as u128;
            proof { lemma_move_code_roundtrip(path@[i as int]); }
            self.push_code(c);
            proof {
                assert forall|k: int| k >= 0 implies (#[trigger] self.room(k) <==> start.room(k + i + 1)) by {
                    assert(self.room(k) <==> before.room(k + 1));
                    assert(before.room(k + 1) <==> start.room(k + 1 + i));
                }
                if start.wf() {
                    assert(start.moves() + path@.take(i + 1) =~= (start.moves() + path@.take(i as int)).push(path@[i as int]));
                }
            }
            i = i + 1;
        }
        proof {
            assert(path@.take(path@.len() as int) =~= path@);
        }
    }

    fn to_string(&self) -> (s: String) {
        let path = self.to_path();
        moves_to_text(&path)
    }
}

impl ShrunkPath128 {
    /// The moves of the path.
    pub fn to_path(&self) -> (path: Vec<Move>)
        ensures
            path@ == self.moves(),
    {
        proof { use_type_invariant(self); }
        let mut path: Vec<Move> = Vec::new();
        let n = self.count as usize;
        let mut i: usize = 0;
        while i < n
            invariant
                n == self.count <= 512,
                i <= n,
                path@ == self.moves().take(i as int),
            decreases n - i,
        {
            let block = self.data.stack[i / 64];
            let shr = block >> ((2 * (i % 64)) as u128);
            path.push(Move::from_u128_unchecked(shr & 0x03u128));
            assert(path@ =~= self.moves().take(i + 1));
            i = i + 1;
        }
        assert(self.moves().take(n as int) =~= self.moves());
        path
    }

    /// Number of blocks of the store in use.
    pub closed spec fn blocks_used(&self) -> int {
        self.data.next as int
    }

    /// Forgets the moves: the store is empty again, in its regular shape, with all its
    /// room.
    pub fn clear(&mut self)
        ensures
            final(self).moves() == Seq::<Move>::empty(),
            final(self).wf(),
            final(self).blocks_used() == 0,
            forall|k: int| 0 <= k ==> (#[trigger] final(self).room(k) <==> k <= 512),
    {
        let r = Self { count: 0, data: StackStack::<u128>::new() };
        proof {
            assert(r.moves() =~= Seq::<Move>::empty());
            assert forall|k: int| 0 <= k implies (#[trigger] r.room(k) <==> k <= 512) by {
                r.lemma_wf_room(k);
            }
        }
        *self = r;
    }
}

} // verus!

verus! {

/// A handle on a node of a `PathTree`: the node's place in the tree's store.
#[derive(Clone, Copy, PartialEq, Eq, Structural, Debug)]
pub struct TreeNodeRef {
    index: usize,
}

/// A handle on a node's parent, as the node keeps it.
#[derive(Clone, Copy, PartialEq, Eq, Structural, Debug)]
pub struct TreeNodeWeak {
    index: usize,
}

/// A node of a tree of moves: the move that leads to it (0 Up, 1 Right, 2 Down, 3 Left;
/// 0 at a root), its distance from the root, the node reached by each of the four moves
/// from it, if any, and its parent (none at a root).
#[derive(Clone, Copy)]
pub struct TreeNode {
    pub value: u8,
    pub length: u16,
    pub children: [Option<TreeNodeRef>; 4],
    pub parent: Option<TreeNodeWeak>,
}

/// A store of trees of moves: a node stands for the path of moves from its root to it,
/// and paths that begin alike share the nodes of their common beginning.
pub struct PathTree {
    nodes: Vec<TreeNode>,
}

/// The move codes from the root of node `i` to `i`.
spec fn codes_of(nodes: Seq<TreeNode>, i: int) -> Seq<u8>
    decreases i,
{
    if 0 <= i < nodes.len() {
        match nodes[i].parent {
            Some(p) => if p.index < i { codes_of(nodes, p.index as int).push(nodes[i].value) } else { Seq::empty() },
            None => Seq::empty(),
        }
    } else {
        Seq::empty()
    }
}

/// Node `i` is linked rightly to its parent and to its children.
spec fn node_ok(nodes: Seq<TreeNode>, i: int) -> bool {
    let n = nodes[i];
    &&& match n.parent {
        None => n.length == 0 && n.value == 0,
        Some(p) => {
            &&& p.index < i
            &&& n.value < 4
            &&& nodes[p.index as int].length + 1 == n.length
            &&& nodes[p.index as int].children@[n.value as int] == Some(TreeNodeRef { index: i as usize })
        },
    }
    &&& forall|k: int| 0 <= k < 4 ==> match #[trigger] n.children@[k] {
        Some(c) => i < c.index < nodes.len() && nodes[c.index as int].parent == Some(TreeNodeWeak { index: i as usize })
            && nodes[c.index as int].value == k,
        None => true,
    }
}

/// Every node is linked rightly.
spec fn nodes_ok(nodes: Seq<TreeNode>) -> bool {
    forall|i: int| 0 <= i < nodes.len() ==> #[trigger] node_ok(nodes, i)
}

/// The paths of the first `n` nodes stay as they were when their values and parents do.
proof fn lemma_codes_kept(a: Seq<TreeNode>, b: Seq<TreeNode>, n: int, i: int)
    requires
        0 <= i < n <= a.len(),
        n <= b.len(),
        forall|j: int| 0 <= j < n ==> (#[trigger] b[j]).value == a[j].value && b[j].parent == a[j].parent,
    ensures
        codes_of(b, i) == codes_of(a, i),
    decreases i,
{
    match a[i].parent {
        Some(p) => {
            if p.index < i {
                lemma_codes_kept(a, b, n, p.index as int);
            }
        },
        None => {},
    }
}

/// A node's length is the length of its path, and its value the last move of the path.
proof fn lemma_codes_len(nodes: Seq<TreeNode>, i: int)
    requires
        nodes_ok(nodes),
        0 <= i < nodes.len(),
    ensures
        codes_of(nodes, i).len() == nodes[i].length,
        nodes[i].length > 0 ==> codes_of(nodes, i).last() == nodes[i].value && nodes[i].parent is Some,
        nodes[i].length == 0 ==> nodes[i].parent is None && nodes[i].value == 0,
        forall|k: int| 0 <= k < codes_of(nodes, i).len() ==> #[trigger] codes_of(nodes, i)[k] < 4,
    decreases i,
{
    assert(node_ok(nodes, i));
    match nodes[i].parent {
        Some(p) => {
            lemma_codes_len(nodes, p.index as int);
        },
        None => {},
    }
}

impl PathTree {
    /// The nodes are linked rightly.
    pub closed spec fn wf(&self) -> bool {
        nodes_ok(self.nodes@)
    }

    /// Number of nodes.
    pub closed spec fn size(&self) -> nat {
        self.nodes@.len()
    }

    /// The handle points at a node of this store.
    pub closed spec fn holds(&self, r: TreeNodeRef) -> bool {
        r.index < self.nodes@.len()
    }

    /// The moves from the root of `r` to `r`.
    pub closed spec fn path_of(&self, r: TreeNodeRef) -> Seq<Move> {
        codes_of(self.nodes@, r.index as int).map_values(|c: u8| move_of(c as int))
    }

    /// The child of `r` reached by the move numbered `u`, if it was made.
    pub closed spec fn child(&self, r: TreeNodeRef, u: int) -> Option<TreeNodeRef> {
        self.nodes@[r.index as int].children@[u]
    }

    /// The node one move back from `r`, if `r` is not a root.
    pub closed spec fn parent_of(&self, r: TreeNodeRef) -> Option<TreeNodeRef> {
        match self.nodes@[r.index as int].parent {
            Some(p) => Some(TreeNodeRef { index: p.index }),
            None => None,
        }
    }

    /// The node reached from `r` by following the moves of `path` through children already
    /// made, if they all are.
    pub closed spec fn descend(&self, r: TreeNodeRef, path: Seq<Move>) -> Option<TreeNodeRef>
        decreases path.len(),
    {
        if path.len() == 0 {
            Some(r)
        } else {
            match self.descend(r, path.drop_last()) {
                Some(q) => self.child(q, move_code(path.last())),
                None => None,
            }
        }
    }

    /// A path that can be followed can be followed in each of its beginnings.
    proof fn lemma_descend_prefix(&self, r: TreeNodeRef, path: Seq<Move>, k: int)
        requires
            self.descend(r, path) is Some,
            0 <= k <= path.len(),
        ensures
            self.descend(r, path.take(k)) is Some,
        decreases path.len() - k,
    {
        if k == path.len() {
            assert(path.take(k) =~= path);
        } else {
            self.lemma_descend_prefix(r, path, k + 1);
            assert(path.take(k + 1).drop_last() =~= path.take(k));
        }
    }

    /// Every node of `self` is a node of `t`, with the same path.
    pub open spec fn kept_in(&self, t: PathTree) -> bool {
        &&& self.size() <= t.size()
        &&& forall|r: TreeNodeRef| self.holds(r) ==> #[trigger] t.holds(r) && t.path_of(r) == self.path_of(r)
    }

    /// An empty store.
    pub fn new() -> (t: Self)
        ensures
            t.wf(),
            t.size() == 0,
    {
        PathTree { nodes: Vec::new() }
    }

    proof fn lemma_path(&self, r: TreeNodeRef)
        requires
            self.wf(),
            self.holds(r),
        ensures
            self.path_of(r).len() == self.nodes@[r.index as int].length,
            self.nodes@[r.index as int].length > 0 ==> self.path_of(r).last() == move_of(self.nodes@[r.index as int].value as int),
            self.nodes@[r.index as int].length == 0 ==> self.nodes@[r.index as int].value == 0,
    {
        lemma_codes_len(self.nodes@, r.index as int);
    }
}

impl TreeNodeWeak {
    /// The place of the node in its store.
    pub closed spec fn id(&self) -> int {
        self.index as int
    }

    /// The strong handle on the node this handle is on.
    pub closed spec fn strong(&self) -> TreeNodeRef {
        TreeNodeRef { index: self.index }
    }

    /// The strong handle on the same node.
    pub fn upgrade(self) -> (r: TreeNodeRef)
        ensures
            r.id() == self.id(),
            r == self.strong(),
    {
        TreeNodeRef { index: self.index }
    }
}

impl TreeNodeRef {
    /// The place of the node in its store.
    pub closed spec fn id(&self) -> int {
        self.index as int
    }

    /// The move that leads to this node (0 at a root).
    pub fn val(&self, tree: &PathTree) -> (r: u8)
        requires
            tree.wf(),
            tree.holds(*self),
        ensures
            tree.path_of(*self).len() == 0 ==> r == 0,
            tree.path_of(*self).len() > 0 ==> r == move_code(tree.path_of(*self).last()),
    {
        proof { tree.lemma_path(*self); lemma_codes_len(tree.nodes@, self.index as int); }
        tree.nodes[self.index].value
    }

    /// The node one move back; this node must not be a root.
    pub fn parent(&self, tree: &PathTree) -> (r: TreeNodeRef)
        requires
            tree.wf(),
            tree.holds(*self),
            tree.path_of(*self).len() > 0,
        ensures
            tree.holds(r),
            tree.parent_of(*self) == Some(r),
            tree.path_of(r) == tree.path_of(*self).drop_last(),
    {
        proof {
            tree.lemma_path(*self);
            lemma_codes_len(tree.nodes@, self.index as int);
            assert(node_ok(tree.nodes@, self.index as int));
        }
        let p = tree.nodes[self.index].parent.unwrap();
        let r = p.upgrade();
        proof {
            let cs = codes_of(tree.nodes@, self.index as int);
            assert(cs.drop_last() == codes_of(tree.nodes@, r.index as int));
            assert(tree.path_of(r) =~= tree.path_of(*self).drop_last());
        }
        r
    }

    /// The number of moves from the root to this node.
    pub fn len(&self, tree: &PathTree) -> (r: u16)
        requires
            tree.wf(),
            tree.holds(*self),
        ensures
            r == tree.path_of(*self).len(),
    {
        proof { tree.lemma_path(*self); }
        tree.nodes[self.index].length
    }

    /// A new root in the store: a tree of its own, with the empty path.
    pub fn new_root(tree: &mut PathTree) -> (r: TreeNodeRef)
        requires
            old(tree).wf(),
        ensures
            final(tree).wf(),
            old(tree).kept_in(*final(tree)),
            final(tree).size() == old(tree).size() + 1,
            final(tree).holds(r),
            !old(tree).holds(r),
            final(tree).path_of(r) == Seq::<Move>::empty(),
    {
        let ghost a = tree.nodes@;
        let n = TreeNode { value: 0, length: 0, children: [None, None, None, None], parent: None };
        let r = TreeNodeRef { index: tree.nodes.len() };
        tree.nodes.push(n);
        proof {
            let b = tree.nodes@;
            assert forall|j: int| 0 <= j < a.len() implies (#[trigger] b[j]).value == a[j].value && b[j].parent == a[j].parent by {
                assert(b[j] == a[j]);
            }
            assert forall|i: int| 0 <= i < b.len() implies #[trigger] node_ok(b, i) by {
                if i < a.len() {
                    assert(node_ok(a, i));
                    assert(b[i] == a[i]);
                    let ni = a[i];
                    match ni.parent {
                        Some(p) => { assert(b[p.index as int] == a[p.index as int]); },
                        None => {},
                    }
                    assert forall|k: int| 0 <= k < 4 implies match #[trigger] b[i].children@[k] {
                        Some(c) => i < c.index < b.len() && b[c.index as int].parent == Some(TreeNodeWeak { index: i as usize })
                            && b[c.index as int].value == k,
                        None => true,
                    } by {
                        match a[i].children@[k] {
                            Some(c) => { assert(b[c.index as int] == a[c.index as int]); },
                            None => {},
                        }
                    }
                } else {
                    assert(b[i].children@[0] is None);
                }
            }
            assert forall|q: TreeNodeRef| old(tree).holds(q) implies #[trigger] tree.holds(q) && tree.path_of(q) == old(tree).path_of(q) by {
                lemma_codes_kept(a, b, a.len() as int, q.index as int);
            }
            assert(tree.path_of(r) =~= Seq::<Move>::empty());
        }
        r
    }

    /// The node one move further, by the move numbered `u`: the one already made, or a
    /// new one. This node must be less than 65535 moves from its root.
    pub fn push(&mut self, tree: &mut PathTree, u: u8) -> (r: TreeNodeRef)
        requires
            old(tree).wf(),
            old(tree).holds(*old(self)),
            u < 4,
            old(tree).path_of(*old(self)).len() < 65535,
        ensures
            *final(self) == *old(self),
            final(tree).wf(),
            old(tree).kept_in(*final(tree)),
            final(tree).holds(r),
            final(tree).path_of(r) == old(tree).path_of(*old(self)).push(move_of(u as int)),
            final(tree).child(*old(self), u as int) == Some(r),
            final(tree).parent_of(r) == Some(*old(self)),
            old(tree).child(*old(self), u as int) is Some ==> *final(tree) == *old(tree) && Some(r) == old(tree).child(*old(self), u as int),
            old(tree).child(*old(self), u as int) is None ==> final(tree).size() == old(tree).size() + 1,
    {
        let ghost a = tree.nodes@;
        let i = self.index;
        proof {
            tree.lemma_path(*self);
            assert(node_ok(a, i as int));
        }
        let node = tree.nodes[i];
        let len = node.length + 1;
        match node.children[u as usize] {
            Some(c) => {
                proof {
                    assert(node_ok(a, c.index as int));
                    let cs = codes_of(a, c.index as int);
                    assert(cs == codes_of(a, i as int).push(u));
                    assert(tree.path_of(c) =~= tree.path_of(*self).push(move_of(u as int)));
                    assert(old(tree).kept_in(*tree));
                }
                return c;
            },
            None => {},
        }
        let ni = tree.nodes.len();
        let r = TreeNodeRef { index: ni };
        let n = TreeNode { value: u, length: len, children: [None, None, None, None], parent: Some(self.downgrade()) };
        let mut pnode = node;
        pnode.children.set(u as usize, Some(r));
        tree.nodes.set(i, pnode);
        tree.nodes.push(n);
        proof {
            let b = tree.nodes@;
            assert(b.len() == a.len() + 1);
            assert forall|j: int| 0 <= j < a.len() implies (#[trigger] b[j]).value == a[j].value && b[j].parent == a[j].parent by {
                if j != i { assert(b[j] == a[j]); }
            }
            assert forall|x: int| 0 <= x < b.len() implies #[trigger] node_ok(b, x) by {
                if x < a.len() {
                    assert(node_ok(a, x));
                    match a[x].parent {
                        Some(p) => {
                            if p.index as int == i as int {
                                assert(a[x].value != u || x == ni) by {
                                    if a[x].value == u {
                                        assert(a[i as int].children@[u as int] == Some(TreeNodeRef { index: x as usize }));
                                    }
                                }
                                assert(b[i as int].children@[a[x].value as int] == a[i as int].children@[a[x].value as int]);
                            } else {
                                assert(b[p.index as int] == a[p.index as int]);
                            }
                        },
                        None => {},
                    }
                    assert forall|k: int| 0 <= k < 4 implies match #[trigger] b[x].children@[k] {
                        Some(c) => x < c.index < b.len() && b[c.index as int].parent == Some(TreeNodeWeak { index: x as usize })
                            && b[c.index as int].value == k,
                        None => true,
                    } by {
                        if x == i as int && k == u as int {
                            assert(b[x].children@[k] == Some(r));
                            assert(b[ni as int] == n);
                        } else {
                            if x == i as int {
                                assert(b[x].children@[k] == a[x].children@[k]);
                            } else {
                                assert(b[x] == a[x]);
                            }
                            match a[x].children@[k] {
                                Some(c) => {
                                    assert(c.index < a.len());
                                    if c.index as int == i as int {
                                        assert(b[c.index as int].parent == a[c.index as int].parent);
                                    } else {
                                        assert(b[c.index as int] == a[c.index as int]);
                                    }
                                },
                                None => {},
                            }
                        }
                    }
                } else {
                    assert(x == ni);
                    assert(b[x] == n);
                    assert(b[i as int].children@[u as int] == Some(r));
                    assert(b[x].children@[0] is None);
                    assert(b[x].children@[1] is None);
                    assert(b[x].children@[2] is None);
                    assert(b[x].children@[3] is None);
                }
            }
            assert forall|q: TreeNodeRef| old(tree).holds(q) implies #[trigger] tree.holds(q) && tree.path_of(q) == old(tree).path_of(q) by {
                lemma_codes_kept(a, b, a.len() as int, q.index as int);
            }
            lemma_codes_kept(a, b, a.len() as int, i as int);
            assert(codes_of(b, ni as int) == codes_of(b, i as int).push(u));
            assert(tree.path_of(r) =~= old(tree).path_of(*self).push(move_of(u as int)));
        }
        r
    }

    /// The node reached by the moves of `path` from this node, made where missing. The
    /// node must stay within 65535 moves of its root. A path already in the tree gives its
    /// node back and leaves the tree as it was; the empty path gives this node.
    pub fn push_path(&mut self, tree: &mut PathTree, path: &Vec<Move>) -> (r: TreeNodeRef)
        requires
            old(tree).wf(),
            old(tree).holds(*old(self)),
            old(tree).path_of(*old(self)).len() + path@.len() <= 65535,
        ensures
            *final(self) == *old(self),
            final(tree).wf(),
            old(tree).kept_in(*final(tree)),
            final(tree).holds(r),
            final(tree).path_of(r) == old(tree).path_of(*old(self)) + path@,
            old(tree).descend(*old(self), path@) matches Some(q) ==> r == q && *final(tree) == *old(tree),
            path@.len() == 0 ==> r == *old(self),
    {
        let ghost t0 = *tree;
        if path.len() < 1 {
            assert(t0.path_of(*self) + path@ =~= t0.path_of(*self));
            return *self;
        }
        let mut ptr = *self;
        let mut i: usize = 0;
        proof {
            assert(path@.take(0) =~= Seq::<Move>::empty());
            if t0.descend(*self, path@) is Some {
                t0.lemma_descend_prefix(*self, path@, 0);
            }
        }
        while i < path.len()
            invariant
                i <= path@.len(),
                tree.wf(),
                t0.kept_in(*tree),
                tree.holds(ptr),
                tree.path_of(ptr) == t0.path_of(*self) + path@.take(i as int),
                t0.path_of(*self).len() + path@.len() <= 65535,
                t0.descend(*self, path@) is Some ==> *tree == t0 && t0.descend(*self, path@.take(i as int)) == Some(ptr),
            decreases path@.len() - i,
        {
            let ghost before = *tree;
            let ghost p0 = ptr;
            let u = path[i].to_u8();
            proof { lemma_move_code_roundtrip(path@[i as int]); }
            ptr = ptr.push(tree, u);
            proof {
                if t0.descend(*self, path@) is Some {
                    t0.lemma_descend_prefix(*self, path@, i + 1);
                    assert(path@.take(i + 1).drop_last() =~= path@.take(i as int));
                    assert(path@.take(i + 1).last() == path@[i as int]);
                    assert(t0.child(p0, u as int) is Some);
                }
                assert forall|q: TreeNodeRef| t0.holds(q) implies #[trigger] tree.holds(q) && tree.path_of(q) == t0.path_of(q) by {
                    assert(before.holds(q) && before.path_of(q) == t0.path_of(q));
                }
                assert(t0.path_of(*self) + path@.take(i + 1) =~= (t0.path_of(*self) + path@.take(i as int)).push(path@[i as int]));
            }
            i = i + 1;
        }
        assert(path@.take(path@.len() as int) =~= path@);
        ptr
    }

    /// The moves from the root to this node.
    pub fn to_path(&self, tree: &PathTree) -> (moves: Vec<Move>)
        requires
            tree.wf(),
            tree.holds(*self),
        ensures
            moves@ == tree.path_of(*self),
    {
        let ghost full = tree.path_of(*self);
        let mut back: Vec<Move> = Vec::new();
        let mut nptr = *self;
        proof { tree.lemma_path(nptr); }
        while nptr.len(tree) > 0
            invariant
                tree.wf(),
                tree.holds(nptr),
                full == tree.path_of(*self),
                tree.path_of(nptr).len() + back@.len() == full.len(),
                tree.path_of(nptr) == full.take(tree.path_of(nptr).len() as int),
                forall|j: int| 0 <= j < back@.len() ==> #[trigger] back@[j] == full[full.len() - 1 - j],
            decreases tree.path_of(nptr).len(),
        {
            let ghost pn = tree.path_of(nptr);
            let v = nptr.val(tree);
            let m = Move::from_u8_unchecked(v);
            proof {
                lemma_move_code_roundtrip(pn.last());
                assert(m == pn.last());
                assert(pn.last() == full[pn.len() - 1]);
                assert(node_ok(tree.nodes@, nptr.index as int));
                lemma_codes_len(tree.nodes@, nptr.index as int);
            }
            back.push(m);
            nptr = nptr.parent(tree);
            proof {
                assert(tree.path_of(nptr) =~= full.take(tree.path_of(nptr).len() as int));
            }
        }
        let n = back.len();
        let mut moves: Vec<Move> = Vec::new();
        let mut j: usize = 0;
        while j < n
            invariant
                n == back@.len() == full.len(),
                j <= n,
                forall|q: int| 0 <= q < n ==> #[trigger] back@[q] == full[full.len() - 1 - q],
                moves@ == full.take(j as int),
            decreases n - j,
        {
            moves.push(back[n - 1 - j]);
            assert(moves@ =~= full.take(j + 1));
            j = j + 1;
        }
        assert(full.take(n as int) =~= full);
        moves
    }

    /// The letters of the moves from the root to this node, e.g. "UURDL".
    pub fn to_string(&self, tree: &PathTree) -> (s: String)
        requires
            tree.wf(),
            tree.holds(*self),
        ensures
            s@ == moves_text(tree.path_of(*self)),
    {
        let moves = self.to_path(tree);
        moves_to_text(&moves)
    }

    /// The weak handle on the node this handle is on.
    pub closed spec fn weak(&self) -> TreeNodeWeak {
        TreeNodeWeak { index: self.index }
    }

    /// The weak handle on the same node.
    pub fn downgrade(self) -> (r: TreeNodeWeak)
        ensures
            r.id() == self.id(),
            r == self.weak(),
    {
        TreeNodeWeak { index: self.index }
    }
}

/// Upgrading the weak handle of a node gives the node's handle back.
pub proof fn lemma_upgrade_downgrade(n: TreeNodeRef)
    ensures
        n.weak().strong() == n,
        n.weak().id() == n.id(),
{
}

/// Two handles on the same place are the same handle.
pub proof fn lemma_same_id(a: TreeNodeRef, b: TreeNodeRef)
    requires
        a.id() == b.id(),
    ensures
        a == b,
{
}

} // verus!
