//! Level data and the operations on it.
use vstd::prelude::*;
use crate::obj::{Obj, obj_char, obj_code};
use crate::vector::{Vector, VectorSm, vec_lt, fits_i32};
use crate::strutil::string_push;

verus! {

/// A copy of a vector of plain values.
pub fn copy_vec<T: Copy>(v: &Vec<T>) -> (r: Vec<T>)
    ensures
        r@ == v@,
{
    let mut r: Vec<T> = Vec::new();
    let mut i: usize = 0;
    while i < v.len()
        invariant
            i <= v@.len(),
            r@ == v@.take(i as int),
        decreases v@.len() - i,
    {
        r.push(v[i]);
        assert(r@ =~= v@.take(i + 1));
        i = i + 1;
    }
    assert(v@.take(v@.len() as int) =~= v@);
    r
}

/// The bit for cell `i` of a packed bitmap: bit 63 - i % 64 of block i / 64.
pub open spec fn bitmap_bit(blocks: Seq<u64>, i: int) -> bool {
    blocks[i / 64] & (0x8000_0000_0000_0000u64 >> ((i % 64) as u64)) != 0
}

/// Bit `k` of a bitmap block, counted from the top.
pub open spec fn block_bit(a: u64, k: u64) -> bool {
    a & (0x8000_0000_0000_0000u64 >> k) != 0
}

/// Two blocks agreeing on their top `n` bits agree on the word of those bits.
proof fn lemma_top_bits_eq(a: u64, c: u64, n: u64)
    requires
        n <= 64,
        forall|k: u64| k < n ==> #[trigger] block_bit(a, k) == block_bit(c, k),
    ensures
        n > 0 ==> a >> ((64 - n) as u64) == c >> ((64 - n) as u64),
    decreases n,
{
    if n > 0 {
        lemma_top_bits_eq(a, c, (n - 1) as u64);
        let k = (n - 1) as u64;
        assert(block_bit(a, k) == block_bit(c, k));
        let s1 = (64 - n) as u64;
        assert(a >> s1 == c >> s1) by (bit_vector)
            requires
                1 <= n <= 64,
                s1 == 64 - n,
                k == n - 1,
                n == 1 || a >> (s1 + 1) == c >> (s1 + 1),
                (a & (0x8000_0000_0000_0000u64 >> k) != 0) == (c & (0x8000_0000_0000_0000u64 >> k) != 0);
    }
}

/// Two bitmaps of 4 blocks with the same bits are the same.
pub proof fn lemma_bitmaps_equal(x: Seq<u64>, y: Seq<u64>)
    requires
        x.len() == 4,
        y.len() == 4,
        forall|i: int| 0 <= i < 256 ==> #[trigger] bitmap_bit(x, i) == bitmap_bit(y, i),
    ensures
        x == y,
{
    assert forall|j: int| 0 <= j < 4 implies x[j] == y[j] by {
        assert forall|k: u64| k < 64 implies #[trigger] block_bit(x[j], k) == block_bit(y[j], k) by {
            let i = 64 * j + k;
            assert(i / 64 == j && i % 64 == k);
            assert(bitmap_bit(x, i) == bitmap_bit(y, i));
        }
        lemma_top_bits_eq(x[j], y[j], 64);
        let xa = x[j];
        let ya = y[j];
        assert(xa >> 0u64 == xa) by (bit_vector);
        assert(ya >> 0u64 == ya) by (bit_vector);
    }
    assert(x =~= y);
}

pub proof fn lemma_bit_or(b: u64, p: u64, q: u64)
    requires
        p < 64,
        q < 64,
    ensures
        ((b | (0x8000_0000_0000_0000u64 >> p)) & (0x8000_0000_0000_0000u64 >> q) != 0)
            == (p == q || b & (0x8000_0000_0000_0000u64 >> q) != 0),
        ((b & !(0x8000_0000_0000_0000u64 >> p)) & (0x8000_0000_0000_0000u64 >> q) != 0)
            == (p != q && b & (0x8000_0000_0000_0000u64 >> q) != 0),
        (0u64 & (0x8000_0000_0000_0000u64 >> q)) == 0,
{
    assert(((b | (0x8000_0000_0000_0000u64 >> p)) & (0x8000_0000_0000_0000u64 >> q) != 0)
            == (p == q || b & (0x8000_0000_0000_0000u64 >> q) != 0)
        && ((b & !(0x8000_0000_0000_0000u64 >> p)) & (0x8000_0000_0000_0000u64 >> q) != 0)
            == (p != q && b & (0x8000_0000_0000_0000u64 >> q) != 0)
        && (0u64 & (0x8000_0000_0000_0000u64 >> q)) == 0) by (bit_vector)
        requires p < 64, q < 64;
}

/// Sets the bit of cell `i` in a 4-block bitmap.
fn bitmap_set(blocks: &mut [u64; 4], i: usize)
    requires
        i < 256,
    ensures
        forall|j: int| 0 <= j < 256 ==> #[trigger] bitmap_bit(final(blocks)@, j) == (j == i || bitmap_bit(old(blocks)@, j)),
{
    let x = blocks[i / 64] | (0x8000_0000_0000_0000u64 >> ((i % 64) as u64));
    blocks.set(i / 64, x);
    assert forall|j: int| 0 <= j < 256 implies #[trigger] bitmap_bit(blocks@, j) == (j == i || bitmap_bit(old(blocks)@, j)) by {
        lemma_bit_or(old(blocks)@[j / 64], (i % 64) as u64, (j % 64) as u64);
    }
}

/// Clears the bit of cell `i` in a 4-block bitmap.
fn bitmap_clear(blocks: &mut [u64; 4], i: usize)
    requires
        i < 256,
    ensures
        forall|j: int| 0 <= j < 256 ==> #[trigger] bitmap_bit(final(blocks)@, j) == (j != i && bitmap_bit(old(blocks)@, j)),
{
    let x = blocks[i / 64] & !(0x8000_0000_0000_0000u64 >> ((i % 64) as u64));
    blocks.set(i / 64, x);
    assert forall|j: int| 0 <= j < 256 implies #[trigger] bitmap_bit(blocks@, j) == (j != i && bitmap_bit(old(blocks)@, j)) by {
        lemma_bit_or(old(blocks)@[j / 64], (i % 64) as u64, (j % 64) as u64);
    }
}

/// Whether an object holds a box.
pub open spec fn is_box_obj(o: Obj) -> bool {
    o == Obj::Boxx || o == Obj::BoxxInHole
}

/// Whether an object lies on a hole.
pub open spec fn is_hole_obj(o: Obj) -> bool {
    o == Obj::Hole || o == Obj::BoxxInHole || o == Obj::HumanInHole
}

/// The object test of a bitmap: holes, or boxes.
pub open spec fn pack_pred(holes: bool, o: Obj) -> bool {
    if holes { is_hole_obj(o) } else { is_box_obj(o) }
}

/// `blocks` has one bit per cell of `data`, set where the object is a hole (`holes`)
/// or a box (otherwise); the bits past the data are clear.
pub open spec fn packs(blocks: Seq<u64>, data: Seq<Obj>, holes: bool) -> bool {
    &&& blocks.len() == 4
    &&& forall|i: int| 0 <= i < 256 ==> #[trigger] bitmap_bit(blocks, i) == (i < data.len() && pack_pred(holes, data[i]))
}

/// A bitmap of 4 blocks with a bit set for each hole (`holes`) or box of `data`.
fn pack_bits(data: &Vec<Obj>, holes: bool) -> (blocks: [u64; 4])
    requires
        data@.len() <= 256,
    ensures
        packs(blocks@, data@, holes),
{
    let mut blocks: [u64; 4] = [0u64; 4];
    let mut i: usize = 0;
    assert forall|j: int| 0 <= j < 256 implies !#[trigger] bitmap_bit(blocks@, j) by {
        lemma_bit_or(0, 0, (j % 64) as u64);
    }
    while i < data.len()
        invariant
            data@.len() <= 256,
            i <= data@.len(),
            forall|j: int| 0 <= j < 256 ==> #[trigger] bitmap_bit(blocks@, j) == (j < i && pack_pred(holes, data@[j])),
        decreases data@.len() - i,
    {
        let o = data[i];
        let set = if holes {
            o == Obj::Hole || o == Obj::BoxxInHole || o == Obj::HumanInHole
        } else {
            o == Obj::Boxx || o == Obj::BoxxInHole
        };
        if set {
            bitmap_set(&mut blocks, i);
        }
        i = i + 1;
    }
    blocks
}

/// The human's position and the boxes of a level, packed: one bit per cell
/// (in row-major order, most significant bit first), set where a box is.
#[derive(Copy, Clone, PartialEq, PartialOrd, Ord, Eq, Hash)]
pub struct CmpData {
    pub human_x: i8,
    pub human_y: i8,
    pub blocks: [u64; 4],
}

impl CmpData {
    pub fn new() -> (r: CmpData)
        ensures
            r.human_x == 0,
            r.human_y == 0,
            r.blocks@ == seq![0u64, 0u64, 0u64, 0u64],
    {
        let r = CmpData { human_x: 0, human_y: 0, blocks: [0u64; 4] };
        assert(r.blocks@ =~= seq![0u64, 0u64, 0u64, 0u64]);
        r
    }

    /// The packed form of a human position and level data (at most 256 cells).
    pub fn from_data(human_pos: &Vector, ldata: &Vec<Obj>) -> (r: CmpData)
        requires
            ldata@.len() <= 256,
        ensures
            r.human_x == human_pos.0 as i8,
            r.human_y == human_pos.1 as i8,
            packs(r.blocks@, ldata@, false),
    {
        let blocks = pack_bits(ldata, false);
        CmpData { human_x: human_pos.0 as i8, human_y: human_pos.1 as i8, blocks }
    }

    /// Whether two packed states are the same (same human position, same boxes).
    pub fn same(&self, other: &CmpData) -> (r: bool)
        ensures
            r == (self.human_x == other.human_x && self.human_y == other.human_y && self.blocks@ == other.blocks@),
    {
        let r = self.human_x == other.human_x && self.human_y == other.human_y
            && self.blocks[0] == other.blocks[0] && self.blocks[1] == other.blocks[1]
            && self.blocks[2] == other.blocks[2] && self.blocks[3] == other.blocks[3];
        proof {
            if self.blocks[0] == other.blocks[0] && self.blocks[1] == other.blocks[1]
                && self.blocks[2] == other.blocks[2] && self.blocks[3] == other.blocks[3] {
                assert(self.blocks@ =~= other.blocks@);
            }
        }
        r
    }

    /// Whether `self` comes strictly before `other` in the order of packed states
    /// (human x, then human y, then the blocks in turn).
    pub fn less(&self, other: &CmpData) -> (r: bool)
        ensures
            r == cmp_less(*self, *other),
    {
        if self.human_x != other.human_x {
            return self.human_x < other.human_x;
        }
        if self.human_y != other.human_y {
            return self.human_y < other.human_y;
        }
        let mut i: usize = 0;
        while i < 4
            invariant
                i <= 4,
                self.human_x == other.human_x,
                self.human_y == other.human_y,
                forall|j: int| 0 <= j < i ==> self.blocks@[j] == other.blocks@[j],
            decreases 4 - i,
        {
            if self.blocks[i] != other.blocks[i] {
                return self.blocks[i] < other.blocks[i];
            }
            i = i + 1;
        }
        false
    }
}

/// The order of packed states: human x, then human y, then the blocks in turn.
pub open spec fn cmp_less(a: CmpData, b: CmpData) -> bool {
    if a.human_x != b.human_x {
        a.human_x < b.human_x
    } else if a.human_y != b.human_y {
        a.human_y < b.human_y
    } else {
        exists|i: int| 0 <= i < 4 && a.blocks@[i] < b.blocks@[i]
            && forall|j: int| 0 <= j < i ==> a.blocks@[j] == b.blocks@[j]
    }
}

/// A key and its value, as text.
pub type KeyVal = (Seq<char>, Seq<char>);

/// The value stored under `key` (the keys are distinct).
pub open spec fn kv_get(kvs: Seq<KeyVal>, key: Seq<char>) -> Option<Seq<char>>
    decreases kvs.len(),
{
    if kvs.len() == 0 {
        None
    } else if kvs[0].0 == key {
        Some(kvs[0].1)
    } else {
        kv_get(kvs.drop_first(), key)
    }
}

/// `kvs` with `key` set to `val`: replaced where the key is, appended otherwise.
pub open spec fn kv_set(kvs: Seq<KeyVal>, key: Seq<char>, val: Seq<char>) -> Seq<KeyVal>
    decreases kvs.len(),
{
    if kvs.len() == 0 {
        seq![(key, val)]
    } else if kvs[0].0 == key {
        kvs.update(0, (key, val))
    } else {
        seq![kvs[0]] + kv_set(kvs.drop_first(), key, val)
    }
}

/// The keys and values of a list of string pairs, as character sequences.
pub open spec fn kv_view(kvs: Seq<(String, String)>) -> Seq<KeyVal> {
    kvs.map_values(|p: (String, String)| (p.0@, p.1@))
}

/// Sets `k` to `v` in the list: replaced where the key is, appended otherwise.
pub(crate) fn kv_store(kvs: &mut Vec<(String, String)>, k: String, v: String)
    ensures
        kv_view(final(kvs)@) == kv_set(kv_view(old(kvs)@), k@, v@),
{
    let ghost key = k@;
    let ghost val = v@;
    let ghost start = kv_view(kvs@);
    let mut i: usize = 0;
    while i < kvs.len()
        invariant
            k@ == key,
            v@ == val,
            start == kv_view(kvs@),
            kvs@ == old(kvs)@,
            i <= start.len(),
            forall|j: int| 0 <= j < i ==> (#[trigger] start[j]).0 != key,
        decreases start.len() - i,
    {
        proof { assert(start[i as int].0 == kvs@[i as int].0@); }
        if kvs[i].0 == k {
            kvs.set(i, (k, v));
            proof {
                lemma_kv_set_at(start, key, val, i as int);
                assert(kv_view(kvs@) =~= start.update(i as int, (key, val)));
            }
            return;
        }
        i = i + 1;
    }
    kvs.push((k, v));
    proof {
        lemma_kv_set_absent(start, key, val);
        assert(kv_view(kvs@) =~= start.push((key, val)));
    }
}

/// What a level holds, as mathematical values.
pub struct LevelView {
    pub w: u16,
    pub h: u16,
    pub human_pos: Vector,
    pub win_data: Seq<u64>,
    pub data: Seq<Obj>,
    pub keyvals: Seq<KeyVal>,
    pub noboxx_pts: Seq<Vector>,
    pub boxx_pts: Seq<Vector>,
    pub hole_pts: Seq<Vector>,
    pub wall_pts: Seq<Vector>,
    pub cleared_of_human: bool,
}

/// A level: its grid of objects (row-major, `w` by `h`), the human's position,
/// its key/value annotations and some points worked out from the grid.
pub struct Level {
    pub w: u16,
    pub h: u16,
    pub human_pos: Vector,
    win_data: [u64; 4],
    data: Vec<Obj>,
    keyvals: Vec<(String, String)>,
    noboxx_pts: Vec<Vector>,
    boxx_pts: Vec<Vector>,
    hole_pts: Vec<Vector>,
    wall_pts: Vec<Vector>,
    cleared_of_human: bool,
}

impl View for Level {
    type V = LevelView;

    closed spec fn view(&self) -> LevelView {
        LevelView {
            w: self.w,
            h: self.h,
            human_pos: self.human_pos,
            win_data: self.win_data@,
            data: self.data@,
            keyvals: kv_view(self.keyvals@),
            noboxx_pts: self.noboxx_pts@,
            boxx_pts: self.boxx_pts@,
            hole_pts: self.hole_pts@,
            wall_pts: self.wall_pts@,
            cleared_of_human: self.cleared_of_human,
        }
    }
}

/// Whether a point lies inside a `w` by `h` grid.
pub open spec fn in_bounds(w: int, h: int, p: Vector) -> bool {
    0 <= p.0 < w && 0 <= p.1 < h
}

/// Row-major index of a point in a grid of width `w`.
pub open spec fn cell_index(w: int, p: Vector) -> int {
    p.0 + p.1 * w
}

impl LevelView {
    /// The grid holds exactly one object per cell.
    pub open spec fn wf(&self) -> bool {
        self.data.len() == self.w * self.h
    }

    /// The object at an in-bounds point.
    pub open spec fn obj_at(&self, p: Vector) -> Obj {
        self.data[cell_index(self.w as int, p)]
    }

    /// The object at a point, or a wall outside the grid.
    pub open spec fn obj_at_checked(&self, p: Vector) -> Obj {
        if in_bounds(self.w as int, self.h as int, p) { self.obj_at(p) } else { Obj::Wall }
    }

    /// The value stored under `key`.
    pub open spec fn keyval(&self, key: Seq<char>) -> Option<Seq<char>> {
        kv_get(self.keyvals, key)
    }

    /// No box and no empty hole is left: every hole is filled.
    pub open spec fn won(&self) -> bool {
        forall|i: int| 0 <= i < self.data.len() ==> #[trigger] self.data[i] != Obj::Boxx && self.data[i] != Obj::Hole
    }
}

} // verus!

verus! {

/// A kind of point listed by a level.
pub enum PtKind {
    Boxes,
    Holes,
    Walls,
}

/// Whether object `o` is of the kind.
pub open spec fn kind_obj(kind: PtKind, o: Obj) -> bool {
    match kind {
        PtKind::Boxes => is_box_obj(o),
        PtKind::Holes => is_hole_obj(o),
        PtKind::Walls => o == Obj::Wall,
    }
}

/// `v` is strictly increasing in the order of points (so it has no repeats).
pub open spec fn strictly_sorted(v: Seq<Vector>) -> bool {
    forall|i: int, j: int| 0 <= i < j < v.len() ==> vec_lt(#[trigger] v[i], #[trigger] v[j])
}

/// The number of boxes in `data`.
pub open spec fn count_boxes(data: Seq<Obj>) -> nat
    decreases data.len(),
{
    if data.len() == 0 {
        0
    } else {
        count_boxes(data.drop_last()) + (if is_box_obj(data.last()) { 1nat } else { 0nat })
    }
}

pub proof fn lemma_count_boxes_bound(data: Seq<Obj>)
    ensures
        count_boxes(data) <= data.len(),
    decreases data.len(),
{
    if data.len() > 0 {
        lemma_count_boxes_bound(data.drop_last());
    }
}

/// A point is outside the grid exactly when one of the four numbers is negative.
pub proof fn lemma_or_sign(a: i32, b: i32, c: i32, d: i32)
    ensures
        ((a | b | c | d) < 0) == (a < 0 || b < 0 || c < 0 || d < 0),
{
    assert(((a | b | c | d) < 0) == (a < 0 || b < 0 || c < 0 || d < 0)) by (bit_vector);
}

/// The text of a level grid: a border of walls around the rows of object characters.
pub open spec fn level_text(v: LevelView) -> Seq<char> {
    border_line(v.w as nat + 2) + rows_text(v, v.h as nat) + border_line(v.w as nat + 2)
}

/// `n` walls and a line end.
pub open spec fn border_line(n: nat) -> Seq<char> {
    Seq::new(n, |i: int| '#').push('\n')
}

/// The first `n` rows of the grid, each between walls and ending with a line end.
pub open spec fn rows_text(v: LevelView, n: nat) -> Seq<char>
    decreases n,
{
    if n == 0 {
        Seq::empty()
    } else {
        rows_text(v, (n - 1) as nat) + row_text(v, n - 1)
    }
}

/// Row `y` of the grid between walls, with a line end.
pub open spec fn row_text(v: LevelView, y: int) -> Seq<char> {
    seq!['#'] + Seq::new(v.w as nat, |x: int| obj_char(v.data[y * v.w + x])) + seq!['#', '\n']
}

impl LevelView {
    /// The same level with the grid replaced by `d`.
    pub open spec fn with_data(self, d: Seq<Obj>) -> LevelView {
        LevelView { data: d, ..self }
    }

    /// The grid holds no human.
    pub open spec fn no_human(&self) -> bool {
        forall|i: int| 0 <= i < self.data.len() ==> #[trigger] self.data[i] != Obj::Human && self.data[i] != Obj::HumanInHole
    }

    /// The human stands where `human_pos` says, and nowhere else.
    pub open spec fn human_placed(&self) -> bool {
        &&& in_bounds(self.w as int, self.h as int, self.human_pos)
        &&& (self.obj_at(self.human_pos) == Obj::Human || self.obj_at(self.human_pos) == Obj::HumanInHole)
        &&& forall|i: int| 0 <= i < self.data.len() && i != cell_index(self.w as int, self.human_pos)
                ==> #[trigger] self.data[i] != Obj::Human && self.data[i] != Obj::HumanInHole
    }

    /// The points lists are in the order of points, without repeats.
    pub open spec fn pts_sorted(&self) -> bool {
        &&& strictly_sorted(self.noboxx_pts)
        &&& strictly_sorted(self.boxx_pts)
        &&& strictly_sorted(self.hole_pts)
        &&& strictly_sorted(self.wall_pts)
    }

    /// `pts` is the sorted list of the grid points whose object is of the given kind.
    pub open spec fn lists(&self, pts: Seq<Vector>, kind: PtKind) -> bool {
        &&& strictly_sorted(pts)
        &&& forall|p: Vector| pts.contains(p) <==> (in_bounds(self.w as int, self.h as int, p) && kind_obj(kind, self.obj_at(p)))
    }

    /// The grid has one object per cell and the human stands where its position says and
    /// nowhere else; the derived parts are worked out from the grid: the hole bitmap, the sorted points
    /// where no box may go (read with the human taken off), the sorted box, hole and wall
    /// lists; and the human stands on the grid.
    pub open spec fn is_built(&self) -> bool {
        &&& self.wf()
        &&& self.human_placed()
        &&& packs(self.win_data, self.data, true)
        &&& strictly_sorted(self.noboxx_pts)
        &&& forall|p: Vector| self.noboxx_pts.contains(p) <==> noboxx(grid_view(human_cleared(*self)), p)
        &&& self.lists(self.boxx_pts, PtKind::Boxes)
        &&& self.lists(self.hole_pts, PtKind::Holes)
        &&& self.lists(self.wall_pts, PtKind::Walls)
        &&& !self.cleared_of_human
    }

    /// A level whose derived parts can be worked out: one object per cell, at most
    /// 256 cells, and the human standing at its position and nowhere else.
    pub open spec fn buildable(&self) -> bool {
        &&& self.wf()
        &&& self.data.len() <= 256
        &&& self.w <= 32767
        &&& self.h <= 32767
        &&& !self.cleared_of_human
        &&& self.human_placed()
    }

    /// The grid with boxes removed (a box becomes a space, a box in a hole a hole).
    pub open spec fn boxes_cleared(&self) -> Seq<Obj> {
        self.data.map_values(|o: Obj| if o == Obj::Boxx { Obj::Space } else if o == Obj::BoxxInHole { Obj::Hole } else { o })
    }

    /// The grid with boxes and the human removed.
    pub open spec fn sprites_stripped(&self) -> Seq<Obj> {
        self.data.map_values(|o: Obj|
            if o == Obj::Human || o == Obj::Boxx { Obj::Space }
            else if o == Obj::HumanInHole || o == Obj::BoxxInHole { Obj::Hole }
            else { o })
    }
}

impl Clone for Level {
    fn clone(&self) -> (r: Self)
        ensures
            r@ == self@,
    {
        let mut kv: Vec<(String, String)> = Vec::new();
        let mut i: usize = 0;
        while i < self.keyvals.len()
            invariant
                i <= self.keyvals@.len(),
                kv@.len() == i,
                forall|j: int| 0 <= j < i ==> (#[trigger] kv@[j]).0@ == self.keyvals@[j].0@ && kv@[j].1@ == self.keyvals@[j].1@,
            decreases self.keyvals@.len() - i,
        {
            let a = self.keyvals[i].0.clone();
            let b = self.keyvals[i].1.clone();
            kv.push((a, b));
            i = i + 1;
        }
        let r = Level {
            w: self.w,
            h: self.h,
            human_pos: self.human_pos,
            win_data: self.win_data,
            data: copy_vec(&self.data),
            keyvals: kv,
            noboxx_pts: copy_vec(&self.noboxx_pts),
            boxx_pts: copy_vec(&self.boxx_pts),
            hole_pts: copy_vec(&self.hole_pts),
            wall_pts: copy_vec(&self.wall_pts),
            cleared_of_human: self.cleared_of_human,
        };
        assert(r@.keyvals =~= self@.keyvals);
        r
    }
}

proof fn lemma_list_extend(l0: Seq<Vector>, l: Seq<Vector>, pt: Vector, nxt: Vector, c: bool, pred: spec_fn(Vector) -> bool)
    requires
        forall|p: Vector| l0.contains(p) <==> (pred(p) && vec_lt(p, pt)),
        l == (if c { l0.push(pt) } else { l0 }),
        c == pred(pt),
        forall|p: Vector| vec_lt(p, nxt) <==> (vec_lt(p, pt) || p == pt),
    ensures
        forall|p: Vector| l.contains(p) <==> (pred(p) && vec_lt(p, nxt)),
{
    assert forall|p: Vector| l.contains(p) <==> (pred(p) && vec_lt(p, nxt)) by {
        if c {
            if l.contains(p) && !l0.contains(p) {
                let k = choose|k: int| 0 <= k < l.len() && l[k] == p;
                assert(k == l0.len());
            }
            if l0.contains(p) {
                let k = choose|k: int| 0 <= k < l0.len() && l0[k] == p;
                assert(l[k] == p);
            }
            if p == pt {
                assert(l[l0.len() as int] == p);
            }
        }
    }
}

/// Whether `p` is in the strictly sorted `v` (binary search).
fn sorted_contains(v: &Vec<Vector>, p: &Vector) -> (r: bool)
    requires
        strictly_sorted(v@),
    ensures
        r == v@.contains(*p),
{
    let mut lo: usize = 0;
    let mut hi: usize = v.len();
    while lo < hi
        invariant
            strictly_sorted(v@),
            lo <= hi <= v@.len(),
            forall|i: int| 0 <= i < lo ==> vec_lt(#[trigger] v@[i], *p),
            forall|i: int| hi <= i < v@.len() ==> vec_lt(*p, #[trigger] v@[i]),
        decreases hi - lo,
    {
        let mid = lo + (hi - lo) / 2;
        let q = v[mid];
        if q.0 == p.0 && q.1 == p.1 {
            assert(v@[mid as int] == *p);
            return true;
        } else if q.0 < p.0 || (q.0 == p.0 && q.1 < p.1) {
            assert forall|i: int| 0 <= i < mid + 1 implies vec_lt(#[trigger] v@[i], *p) by {
                if i < mid {
                    assert(vec_lt(v@[i], v@[mid as int]));
                }
            }
            lo = mid + 1;
        } else {
            assert forall|i: int| mid <= i < v@.len() implies vec_lt(*p, #[trigger] v@[i]) by {
                if i > mid {
                    assert(vec_lt(v@[mid as int], v@[i]));
                }
            }
            hi = mid;
        }
    }
    assert forall|i: int| 0 <= i < v@.len() implies v@[i] != *p by {
        if i < lo { assert(vec_lt(v@[i], *p)); } else { assert(vec_lt(*p, v@[i])); }
    }
    false
}

/// Whether `p` is in `v` (linear search).
fn vec_contains(v: &Vec<Vector>, p: &Vector) -> (r: bool)
    ensures
        r == v@.contains(*p),
{
    let mut i: usize = 0;
    while i < v.len()
        invariant
            i <= v@.len(),
            forall|j: int| 0 <= j < i ==> v@[j] != *p,
        decreases v@.len() - i,
    {
        if v[i].0 == p.0 && v[i].1 == p.1 {
            assert(v@[i as int] == *p);
            return true;
        }
        i = i + 1;
    }
    false
}

/// `p` inserted into the strictly sorted `v`, unless already there.
fn sorted_insert(v: &mut Vec<Vector>, p: Vector)
    requires
        strictly_sorted(old(v)@),
    ensures
        strictly_sorted(final(v)@),
        forall|q: Vector| final(v)@.contains(q) <==> (old(v)@.contains(q) || q == p),
{
    let mut i: usize = 0;
    while i < v.len() && (v[i].0 < p.0 || (v[i].0 == p.0 && v[i].1 < p.1))
        invariant
            v@ == old(v)@,
            strictly_sorted(v@),
            i <= v@.len(),
            forall|j: int| 0 <= j < i ==> vec_lt(#[trigger] v@[j], p),
        decreases v@.len() - i,
    {
        i = i + 1;
    }
    if i < v.len() && v[i].0 == p.0 && v[i].1 == p.1 {
        assert(v@[i as int] == p);
        return;
    }
    proof {
        assert forall|j: int| i <= j < v@.len() implies vec_lt(p, #[trigger] v@[j]) by {
            if j > i {
                assert(vec_lt(v@[i as int], v@[j]));
            }
        }
    }
    v.insert(i, p);
    proof {
        assert forall|a: int, b: int| 0 <= a < b < v@.len() implies vec_lt(#[trigger] v@[a], #[trigger] v@[b]) by {
            if a < i && b < i {
                assert(v@[a] == old(v)@[a] && v@[b] == old(v)@[b]);
            } else if a < i && b == i {
            } else if a < i {
                assert(v@[b] == old(v)@[b - 1]);
                assert(vec_lt(old(v)@[a], old(v)@[b - 1]) || a == b - 1);
            } else if a == i {
                assert(v@[b] == old(v)@[b - 1]);
            } else {
                assert(v@[a] == old(v)@[a - 1] && v@[b] == old(v)@[b - 1]);
            }
        }
        assert forall|q: Vector| v@.contains(q) <==> (old(v)@.contains(q) || q == p) by {
            if v@.contains(q) {
                let k = choose|k: int| 0 <= k < v@.len() && v@[k] == q;
                if k < i { assert(old(v)@[k] == q); } else if k > i { assert(old(v)@[k - 1] == q); }
            }
            if old(v)@.contains(q) {
                let k = choose|k: int| 0 <= k < old(v)@.len() && old(v)@[k] == q;
                if k < i { assert(v@[k] == q); } else { assert(v@[k + 1] == q); }
            }
            if q == p {
                assert(v@[i as int] == p);
            }
        }
    }
}

} // verus!

verus! {

/// The level text key holding the title.
pub open spec fn title_key() -> Seq<char> {
    seq!['t', 'i', 't', 'l', 'e']
}

/// The title shown when a level has none.
pub open spec fn untitled() -> Seq<char> {
    seq!['u', 'n', 't', 'i', 't', 'l', 'e', 'd']
}

fn index_of(pt: &Vector, w: u16, len: usize) -> (r: usize)
    requires
        pt.0 >= 0,
        pt.1 >= 0,
        cell_index(w as int, *pt) < len,
    ensures
        r == cell_index(w as int, *pt),
{
    assert(0 <= pt.1 * w <= cell_index(w as int, *pt)) by (nonlinear_arith)
        requires pt.0 >= 0, pt.1 >= 0, w >= 0;
    (pt.0 as usize) + (pt.1 as usize) * (w as usize)
}

impl Level {
    /// The level's grid and settings hold together: one object per cell.
    pub open spec fn wf(&self) -> bool {
        self@.wf()
    }

    /// The object at `pt`, which must index into the grid.
    pub fn get_obj_at_pt(&self, pt: &Vector) -> (o: Obj)
        requires
            pt.0 >= 0,
            pt.1 >= 0,
            cell_index(self@.w as int, *pt) < self@.data.len(),
        ensures
            o == self@.data[cell_index(self@.w as int, *pt)],
    {
        self.data[index_of(pt, self.w, self.data.len())]
    }

    /// The object at row-major index `idx`.
    pub fn get_obj_at_idx(&self, idx: usize) -> (o: Obj)
        requires
            idx < self@.data.len(),
        ensures
            o == self@.data[idx as int],
    {
        self.data[idx]
    }

    /// Puts `obj` at `pt`, which must index into the grid.
    pub fn set_obj_at_pt(&mut self, pt: &Vector, obj: Obj)
        requires
            pt.0 >= 0,
            pt.1 >= 0,
            cell_index(old(self)@.w as int, *pt) < old(self)@.data.len(),
        ensures
            final(self)@ == old(self)@.with_data(old(self)@.data.update(cell_index(old(self)@.w as int, *pt), obj)),
    {
        let i = index_of(pt, self.w, self.data.len());
        self.data.set(i, obj);
    }

    /// Puts `obj` at row-major index `idx`.
    pub fn set_obj_at_idx(&mut self, idx: usize, obj: Obj)
        requires
            idx < old(self)@.data.len(),
        ensures
            final(self)@ == old(self)@.with_data(old(self)@.data.update(idx as int, obj)),
    {
        self.data.set(idx, obj);
    }

    /// The object at `pt`, or a wall outside the grid.
    pub fn get_obj_at_pt_checked(&self, pt: &Vector) -> (o: Obj)
        requires
            self@.wf(),
        ensures
            o == self@.obj_at_checked(*pt),
    {
        if pt.0 < 0 || pt.0 >= self.w as i32 || pt.1 < 0 || pt.1 >= self.h as i32 {
            Obj::Wall
        } else {
            assert(cell_index(self.w as int, *pt) < self.w * self.h) by (nonlinear_arith)
                requires 0 <= pt.0 < self.w, 0 <= pt.1 < self.h;
            self.data[index_of(pt, self.w, self.data.len())]
        }
    }

    /// Puts `obj` at `pt`, which must lie inside the grid.
    pub fn set_obj_at_pt_checked(&mut self, pt: &Vector, obj: Obj)
        requires
            old(self)@.wf(),
            in_bounds(old(self)@.w as int, old(self)@.h as int, *pt),
        ensures
            final(self)@ == old(self)@.with_data(old(self)@.data.update(cell_index(old(self)@.w as int, *pt), obj)),
    {
        assert(cell_index(self.w as int, *pt) < self.w * self.h) by (nonlinear_arith)
            requires 0 <= pt.0 < self.w, 0 <= pt.1 < self.h;
        let i = index_of(pt, self.w, self.data.len());
        self.data.set(i, obj);
    }

    /// The numbers of the objects of the grid (Wall 0 to BoxxInHole 6), row by row.
    pub fn get_data(&self) -> (r: Vec<u32>)
        ensures
            r@.len() == self@.data.len(),
            forall|i: int| 0 <= i < r@.len() ==> #[trigger] r@[i] == obj_code(self@.data[i]),
    {
        let mut r: Vec<u32> = Vec::new();
        let mut i: usize = 0;
        while i < self.data.len()
            invariant
                i <= self@.data.len(),
                r@.len() == i,
                forall|j: int| 0 <= j < i ==> #[trigger] r@[j] == obj_code(self@.data[j]),
            decreases self@.data.len() - i,
        {
            r.push(self.data[i].to_u32());
            i = i + 1;
        }
        r
    }

    /// The objects at (x, y) for y from `y0` up to `y1`, a wall where outside the grid.
    fn get_vslice(&self, x: i32, y0: i32, y1: i32) -> (rv: Vec<Obj>)
        requires
            self@.wf(),
            self@.w <= 32767,
            self@.h <= 32767,
            y0 <= y1,
            -70000 <= x <= 70000,
            -70000 <= y0,
            y1 <= 70000,
        ensures
            rv@.len() == y1 - y0,
            forall|i: int| 0 <= i < rv@.len() ==> #[trigger] rv@[i] == self@.obj_at_checked(Vector(x, (y0 + i) as i32)),
    {
        let mut rv: Vec<Obj> = Vec::new();
        let mut i = y0;
        while i < y1
            invariant
                self@.wf(),
                self@.w <= 32767,
                self@.h <= 32767,
                y0 <= i <= y1,
                -70000 <= x <= 70000,
                -70000 <= y0,
                y1 <= 70000,
                rv@.len() == i - y0,
                forall|j: int| 0 <= j < rv@.len() ==> #[trigger] rv@[j] == self@.obj_at_checked(Vector(x, (y0 + j) as i32)),
            decreases y1 - i,
        {
            let v = Vector(x, i);
            if self.vector_in_bounds(&v) {
                rv.push(self.get_obj_at_pt_checked(&v));
            } else {
                rv.push(Obj::Wall);
            }
            i = i + 1;
        }
        rv
    }

    /// The objects at (x, y) for x from `x0` up to `x1`, a wall where outside the grid.
    fn get_hslice(&self, x0: i32, x1: i32, y: i32) -> (rv: Vec<Obj>)
        requires
            self@.wf(),
            self@.w <= 32767,
            self@.h <= 32767,
            x0 <= x1,
            -70000 <= y <= 70000,
            -70000 <= x0,
            x1 <= 70000,
        ensures
            rv@.len() == x1 - x0,
            forall|i: int| 0 <= i < rv@.len() ==> #[trigger] rv@[i] == self@.obj_at_checked(Vector((x0 + i) as i32, y)),
    {
        let mut rv: Vec<Obj> = Vec::new();
        let mut i = x0;
        while i < x1
            invariant
                self@.wf(),
                self@.w <= 32767,
                self@.h <= 32767,
                x0 <= i <= x1,
                -70000 <= y <= 70000,
                -70000 <= x0,
                x1 <= 70000,
                rv@.len() == i - x0,
                forall|j: int| 0 <= j < rv@.len() ==> #[trigger] rv@[j] == self@.obj_at_checked(Vector((x0 + j) as i32, y)),
            decreases x1 - i,
        {
            let v = Vector(i, y);
            if self.vector_in_bounds(&v) {
                rv.push(self.get_obj_at_pt_checked(&v));
            } else {
                rv.push(Obj::Wall);
            }
            i = i + 1;
        }
        rv
    }

    pub fn get_level_width(&self) -> (r: u32)
        ensures
            r == self@.w,
    {
        self.w as u32
    }

    pub fn get_level_height(&self) -> (r: u32)
        ensures
            r == self@.h,
    {
        self.h as u32
    }

    /// The title, or "untitled" when the level has none.
    pub fn get_title(&self) -> (s: String)
        ensures
            s@ == (match self@.keyval(title_key()) { Some(t) => t, None => untitled() }),
    {
        self.get_title_str()
    }

    /// Whether every hole is filled: no box and no empty hole is left.
    pub fn have_win_condition(&self) -> (r: bool)
        ensures
            r == self@.won(),
    {
        let mut i: usize = 0;
        while i < self.data.len()
            invariant
                i <= self@.data.len(),
                forall|j: int| 0 <= j < i ==> #[trigger] self@.data[j] != Obj::Boxx && self@.data[j] != Obj::Hole,
            decreases self@.data.len() - i,
        {
            let o = self.data[i];
            if o == Obj::Boxx || o == Obj::Hole {
                return false;
            }
            i = i + 1;
        }
        true
    }

    /// Index of the key `key` among the key/value pairs, if it is there.
    fn find_key(&self, k: &String) -> (r: Option<usize>)
        ensures
            match r {
                Some(i) => i < self@.keyvals.len() && self@.keyvals[i as int].0 == k@
                    && kv_get(self@.keyvals, k@) == Some(self@.keyvals[i as int].1),
                None => kv_get(self@.keyvals, k@) is None,
            },
    {
        let ghost kvs = self@.keyvals;
        let mut i: usize = 0;
        assert(kvs.skip(0) =~= kvs);
        while i < self.keyvals.len()
            invariant
                kvs == self@.keyvals,
                i <= kvs.len(),
                kv_get(kvs, k@) == kv_get(kvs.skip(i as int), k@),
            decreases kvs.len() - i,
        {
            proof {
                assert(kvs.skip(i as int)[0] == kvs[i as int]);
                assert(kvs.skip(i as int).drop_first() =~= kvs.skip(i + 1));
                assert(kvs[i as int].0 == self.keyvals@[i as int].0@);
            }
            if self.keyvals[i].0 == *k {
                return Some(i);
            }
            i = i + 1;
        }
        proof {
            assert(kvs.skip(i as int).len() == 0);
        }
        None
    }

    /// The title, or "untitled" when the level has none.
    pub fn get_title_str(&self) -> (s: String)
        ensures
            s@ == (match self@.keyval(title_key()) { Some(t) => t, None => untitled() }),
    {
        let key = String::from_str("title");
        let dflt = String::from_str("untitled");
        proof {
            reveal_strlit("title");
            reveal_strlit("untitled");
            assert(key@ =~= title_key());
            assert(dflt@ =~= untitled());
        }
        match self.find_key(&key) {
            Some(i) => self.keyvals[i].1.clone(),
            None => dflt,
        }
    }

    /// Whether the level has a value for `key`.
    pub fn contains_key(&self, key: &str) -> (r: bool)
        ensures
            r == (self@.keyval(key@) is Some),
    {
        let k = String::from_str(key);
        self.find_key(&k).is_some()
    }

    /// The value for `key`, which the level must have.
    pub fn get_keyval(&self, key: &str) -> (s: String)
        requires
            self@.keyval(key@) is Some,
        ensures
            Some(s@) == self@.keyval(key@),
    {
        let k = String::from_str(key);
        match self.find_key(&k) {
            Some(i) => self.keyvals[i].1.clone(),
            None => String::new(),
        }
    }

    /// The value for `key`, or `ors` when the level has none.
    pub fn get_keyval_or(&self, key: &str, ors: &str) -> (s: String)
        ensures
            s@ == (match self@.keyval(key@) { Some(v) => v, None => ors@ }),
    {
        let k = String::from_str(key);
        match self.find_key(&k) {
            Some(i) => self.keyvals[i].1.clone(),
            None => String::from_str(ors),
        }
    }

    /// Sets the value for `key` to `val` (replacing any value it had).
    pub fn set_keyval(&mut self, key: &str, val: &str)
        ensures
            final(self)@ == (LevelView { keyvals: kv_set(old(self)@.keyvals, key@, val@), ..old(self)@ }),
    {
        let k = String::from_str(key);
        let v = String::from_str(val);
        kv_store(&mut self.keyvals, k, v);
    }
}

/// Reading a key after setting one: the value set for that key, the old value for another.
pub proof fn lemma_kv_get_set(kvs: Seq<KeyVal>, key: Seq<char>, val: Seq<char>, q: Seq<char>)
    ensures
        kv_get(kv_set(kvs, key, val), q) == (if q == key { Some(val) } else { kv_get(kvs, q) }),
    decreases kvs.len(),
{
    let r = kv_set(kvs, key, val);
    if kvs.len() == 0 {
        assert(r == seq![(key, val)]);
        assert(r[0] == (key, val));
        assert(r.drop_first() =~= Seq::<KeyVal>::empty());
        assert(kv_get(r.drop_first(), q) is None);
    } else if kvs[0].0 == key {
        assert(r == kvs.update(0, (key, val)));
        assert(r[0] == (key, val));
        assert(r.drop_first() =~= kvs.drop_first());
    } else {
        lemma_kv_get_set(kvs.drop_first(), key, val, q);
        assert(r == seq![kvs[0]] + kv_set(kvs.drop_first(), key, val));
        assert(r[0] == kvs[0]);
        assert(r.drop_first() =~= kv_set(kvs.drop_first(), key, val));
    }
}

proof fn lemma_kv_set_at(kvs: Seq<KeyVal>, key: Seq<char>, val: Seq<char>, i: int)
    requires
        0 <= i < kvs.len(),
        kvs[i].0 == key,
        forall|j: int| 0 <= j < i ==> (#[trigger] kvs[j]).0 != key,
    ensures
        kv_set(kvs, key, val) == kvs.update(i, (key, val)),
    decreases i,
{
    if i > 0 {
        lemma_kv_set_at(kvs.drop_first(), key, val, i - 1);
        assert(kvs == seq![kvs[0]] + kvs.drop_first());
        assert(seq![kvs[0]] + kvs.drop_first().update(i - 1, (key, val)) =~= kvs.update(i, (key, val)));
    }
}

proof fn lemma_kv_set_absent(kvs: Seq<KeyVal>, key: Seq<char>, val: Seq<char>)
    requires
        forall|j: int| 0 <= j < kvs.len() ==> (#[trigger] kvs[j]).0 != key,
    ensures
        kv_set(kvs, key, val) == kvs.push((key, val)),
    decreases kvs.len(),
{
    if kvs.len() > 0 {
        lemma_kv_set_absent(kvs.drop_first(), key, val);
        assert(seq![kvs[0]] + kvs.drop_first().push((key, val)) =~= kvs.push((key, val)));
    } else {
        assert(seq![(key, val)] =~= kvs.push((key, val)));
    }
}

} // verus!

verus! {

impl Level {
    /// Whether `v` lies inside the grid (straightforward form).
    pub fn vector_in_bounds_orig(&self, v: &Vector) -> (r: bool)
        ensures
            r == in_bounds(self@.w as int, self@.h as int, *v),
    {
        v.0 >= 0 && v.0 < (self.w as i32) && v.1 >= 0 && v.1 < (self.h as i32)
    }

    /// Whether `v` lies inside the grid, by the sign of an OR of four numbers.
    pub fn vector_in_bounds(&self, v: &Vector) -> (r: bool)
        requires
            fits_i32(self@.w - v.0),
            fits_i32(self@.h - v.1),
        ensures
            r == in_bounds(self@.w as int, self@.h as int, *v),
    {
        let c = self.w as i32 - v.0 - 1;
        let d = self.h as i32 - v.1 - 1;
        proof { lemma_or_sign(v.0, v.1, c, d); }
        (v.0 | v.1 | c | d) >= 0
    }

    /// Whether the small vector `v` lies inside the grid, comparing with the width and
    /// height truncated to 8 bits.
    pub fn vector_in_bounds8(&self, v: &VectorSm) -> (r: bool)
        ensures
            r == (v.0 >= 0 && v.0 < (self@.w as i8) && v.1 >= 0 && v.1 < (self@.h as i8)),
    {
        v.0 >= 0 && v.0 < (self.w as i8) && v.1 >= 0 && v.1 < (self.h as i8)
    }

    /// `v` moved to the nearest point of the grid, coordinate by coordinate.
    pub fn force_vector_in_bounds(&self, v: &Vector) -> (r: Vector)
        ensures
            r.0 == (if (if v.0 < 0 { 0 } else { v.0 as int }) >= self@.w { self@.w - 1 } else if v.0 < 0 { 0 } else { v.0 as int }),
            r.1 == (if (if v.1 < 0 { 0 } else { v.1 as int }) >= self@.h { self@.h - 1 } else if v.1 < 0 { 0 } else { v.1 as int }),
    {
        let mut v = *v;
        if v.0 < 0 { v.0 = 0; }
        if v.0 >= (self.w as i32) { v.0 = (self.w as i32) - 1; }
        if v.1 < 0 { v.1 = 0; }
        if v.1 >= (self.h as i32) { v.1 = (self.h as i32) - 1; }
        v
    }

    /// A level of the given parts, with the title set and no derived part worked out yet.
    pub(crate) fn assemble(w: u16, h: u16, human_pos: Vector, data: Vec<Obj>, keyvals: Vec<(String, String)>) -> (l: Level)
        ensures
            l@.w == w,
            l@.h == h,
            l@.human_pos == human_pos,
            l@.data == data@,
            l@.keyvals == kv_view(keyvals@),
            !l@.cleared_of_human,
    {
        Level {
            w,
            h,
            human_pos,
            win_data: [0u64; 4],
            data,
            keyvals,
            noboxx_pts: Vec::new(),
            boxx_pts: Vec::new(),
            hole_pts: Vec::new(),
            wall_pts: Vec::new(),
            cleared_of_human: false,
        }
    }

    /// Works out the derived parts of a level from its grid.
    pub(crate) fn build(&mut self)
        requires
            old(self)@.buildable(),
        ensures
            final(self)@.is_built(),
            final(self)@.w == old(self)@.w,
            final(self)@.h == old(self)@.h,
            final(self)@.human_pos == old(self)@.human_pos,
            final(self)@.data == old(self)@.data,
            final(self)@.keyvals == old(self)@.keyvals,
    {
        self.make_win_data();
        self.do_noboxx_pts();
        self.do_boxx_pts();
    }

    /// A level from its parts: the title, the size, the human's position and the grid, in
    /// which the human must stand at its position and nowhere else.
    pub fn from_parts(title: String, w: u16, h: u16, human_pos: Vector, data: Vec<Obj>) -> (l: Level)
        requires
            (LevelView {
                w,
                h,
                human_pos,
                win_data: seq![0u64, 0, 0, 0],
                data: data@,
                keyvals: Seq::empty(),
                noboxx_pts: Seq::empty(),
                boxx_pts: Seq::empty(),
                hole_pts: Seq::empty(),
                wall_pts: Seq::empty(),
                cleared_of_human: false,
            }).buildable(),
        ensures
            l@.is_built(),
            l@.w == w,
            l@.h == h,
            l@.human_pos == human_pos,
            l@.data == data@,
            l@.keyvals == seq![(title_key(), title@)],
    {
        let mut kvs: Vec<(String, String)> = Vec::new();
        let ghost t = title@;
        let key = String::from_str("title");
        proof {
            reveal_strlit("title");
            assert(key@ =~= title_key());
        }
        kvs.push((key, title));
        assert(kv_view(kvs@) =~= seq![(title_key(), t)]);
        let mut level = Level::assemble(w, h, human_pos, data, kvs);
        level.do_noboxx_pts();
        level.do_boxx_pts();
        level.make_win_data();
        level
    }

    /// Where the human stands.
    pub fn human_position(&self) -> (r: Vector)
        ensures
            r == self@.human_pos,
    {
        self.human_pos
    }

    /// Whether the grid holds no human.
    pub fn confirm_no_human(&self) -> (r: bool)
        requires
            self@.wf(),
        ensures
            r == self@.no_human(),
    {
        let mut i: usize = 0;
        while i < self.data.len()
            invariant
                i <= self@.data.len(),
                forall|j: int| 0 <= j < i ==> #[trigger] self@.data[j] != Obj::Human && self@.data[j] != Obj::HumanInHole,
            decreases self@.data.len() - i,
        {
            let o = self.data[i];
            if o == Obj::Human || o == Obj::HumanInHole {
                return false;
            }
            i = i + 1;
        }
        true
    }

    /// Takes the human off the grid (a human becomes a space, a human in a hole a hole),
    /// remembering that this was done. The human must stand at `human_pos` only, and the
    /// human must not have been taken off already.
    pub fn clear_human(&mut self)
        requires
            old(self)@.wf(),
            !old(self)@.cleared_of_human,
            old(self)@.human_placed(),
        ensures
            final(self)@ == (LevelView {
                data: old(self)@.data.update(cell_index(old(self)@.w as int, old(self)@.human_pos),
                    if old(self)@.obj_at(old(self)@.human_pos) == Obj::Human { Obj::Space } else { Obj::Hole }),
                cleared_of_human: true,
                ..old(self)@
            }),
            final(self)@.no_human(),
    {
        let pt = self.human_pos;
        assert(cell_index(self.w as int, pt) < self.w * self.h) by (nonlinear_arith)
            requires 0 <= pt.0 < self.w, 0 <= pt.1 < self.h;
        let obj = self.get_obj_at_pt(&pt);
        let obj2 = if obj == Obj::Human { Obj::Space } else { Obj::Hole };
        self.set_obj_at_pt(&pt, obj2);
        self.cleared_of_human = true;
        assert(self@.no_human());
    }

    /// Puts the human back on the grid at `human_pos` (a space becomes a human, a hole a
    /// human in a hole). The human must have been taken off, and `human_pos` must be a
    /// space or a hole inside the grid.
    pub fn place_human(&mut self)
        requires
            old(self)@.wf(),
            old(self)@.cleared_of_human,
            old(self)@.no_human(),
            in_bounds(old(self)@.w as int, old(self)@.h as int, old(self)@.human_pos),
            old(self)@.obj_at(old(self)@.human_pos) == Obj::Space || old(self)@.obj_at(old(self)@.human_pos) == Obj::Hole,
        ensures
            final(self)@ == (LevelView {
                data: old(self)@.data.update(cell_index(old(self)@.w as int, old(self)@.human_pos),
                    if old(self)@.obj_at(old(self)@.human_pos) == Obj::Space { Obj::Human } else { Obj::HumanInHole }),
                cleared_of_human: false,
                ..old(self)@
            }),
            final(self)@.human_placed(),
    {
        let pt = self.human_pos;
        assert(cell_index(self.w as int, pt) < self.w * self.h) by (nonlinear_arith)
            requires 0 <= pt.0 < self.w, 0 <= pt.1 < self.h;
        let obj = self.get_obj_at_pt(&pt);
        let obj2 = if obj == Obj::Space { Obj::Human } else { Obj::HumanInHole };
        self.set_obj_at_pt(&pt, obj2);
        self.cleared_of_human = false;
    }

    /// A copy with the human taken off the grid (see `clear_human`).
    pub fn clear_human_cloned(&self) -> (level: Level)
        requires
            self@.wf(),
            !self@.cleared_of_human,
            self@.human_placed(),
        ensures
            level@ == (LevelView {
                data: self@.data.update(cell_index(self@.w as int, self@.human_pos),
                    if self@.obj_at(self@.human_pos) == Obj::Human { Obj::Space } else { Obj::Hole }),
                cleared_of_human: true,
                ..self@
            }),
            level@.no_human(),
    {
        let mut level = self.clone();
        level.clear_human();
        level
    }

    /// A copy with the boxes taken off the grid (see `clear_boxxes`).
    pub fn clear_boxxes_cloned(&self) -> (level: Level)
        ensures
            level@ == self@.with_data(self@.boxes_cleared()),
    {
        let mut level = self.clone();
        level.clear_boxxes();
        level
    }

    /// Takes the boxes off the grid: a box becomes a space, a box in a hole a hole.
    pub fn clear_boxxes(&mut self)
        ensures
            final(self)@ == old(self)@.with_data(old(self)@.boxes_cleared()),
    {
        let mut i: usize = 0;
        while i < self.data.len()
            invariant
                i <= self@.data.len() == old(self)@.data.len(),
                self@ == old(self)@.with_data(self@.data),
                forall|j: int| 0 <= j < i ==> #[trigger] self@.data[j] == old(self)@.boxes_cleared()[j],
                forall|j: int| i <= j < self@.data.len() ==> #[trigger] self@.data[j] == old(self)@.data[j],
            decreases self@.data.len() - i,
        {
            let o = self.data[i];
            if o == Obj::Boxx {
                self.data.set(i, Obj::Space);
            } else if o == Obj::BoxxInHole {
                self.data.set(i, Obj::Hole);
            }
            i = i + 1;
        }
        assert(self@.data =~= old(self)@.boxes_cleared());
    }

    /// Takes the human and the boxes off the grid.
    pub fn strip_sprites(&mut self)
        requires
            old(self)@.wf(),
            old(self)@.w * old(self)@.h <= u16::MAX,
        ensures
            final(self)@ == old(self)@.with_data(old(self)@.sprites_stripped()),
    {
        let n = (self.w * self.h) as usize;
        let mut idx: usize = 0;
        while idx < n
            invariant
                n == self@.data.len() == old(self)@.data.len(),
                idx <= n,
                self@ == old(self)@.with_data(self@.data),
                forall|j: int| 0 <= j < idx ==> #[trigger] self@.data[j] == old(self)@.sprites_stripped()[j],
                forall|j: int| idx <= j < n ==> #[trigger] self@.data[j] == old(self)@.data[j],
            decreases n - idx,
        {
            let obj = self.get_obj_at_idx(idx);
            let nobj = match obj {
                Obj::Human => Obj::Space,
                Obj::HumanInHole => Obj::Hole,
                Obj::Boxx => Obj::Space,
                Obj::BoxxInHole => Obj::Hole,
                _ => obj,
            };
            self.set_obj_at_idx(idx, nobj);
            idx = idx + 1;
        }
        assert(self@.data =~= old(self)@.sprites_stripped());
    }

    /// Whether two levels have the same grid and the same human position.
    pub fn eq_data(&self, b: &Level) -> (r: bool)
        ensures
            r == (self@.data == b@.data && self@.human_pos == b@.human_pos),
    {
        if self.data.len() != b.data.len() {
            return false;
        }
        let mut i: usize = 0;
        while i < self.data.len()
            invariant
                self@.data.len() == b@.data.len(),
                i <= self@.data.len(),
                forall|j: int| 0 <= j < i ==> self@.data[j] == b@.data[j],
            decreases self@.data.len() - i,
        {
            if self.data[i] != b.data[i] {
                return false;
            }
            i = i + 1;
        }
        assert(self@.data =~= b@.data);
        self.human_pos.0 == b.human_pos.0 && self.human_pos.1 == b.human_pos.1
    }

    /// The number of boxes on the grid.
    pub fn get_box_count(&self) -> (count: u32)
        requires
            self@.wf(),
        ensures
            count == count_boxes(self@.data),
    {
        let mut count: u32 = 0;
        let mut i: usize = 0;
        proof { lemma_count_boxes_bound(self@.data); }
        assert(self@.data.len() <= u32::MAX) by (nonlinear_arith)
            requires self@.data.len() == self@.w * self@.h, self@.w <= u16::MAX, self@.h <= u16::MAX;
        while i < self.data.len()
            invariant
                i <= self@.data.len() <= u32::MAX,
                count == count_boxes(self@.data.take(i as int)),
            decreases self@.data.len() - i,
        {
            proof {
                assert(self@.data.take(i + 1).drop_last() =~= self@.data.take(i as int));
                lemma_count_boxes_bound(self@.data.take(i as int));
            }
            let obj = self.data[i];
            if obj == Obj::Boxx || obj == Obj::BoxxInHole {
                count = count + 1;
            }
            i = i + 1;
        }
        assert(self@.data.take(self@.data.len() as int) =~= self@.data);
        count
    }

    /// Whether `v` is a point where no box may be pushed (linear search).
    pub fn in_noboxx_pts(&self, v: &Vector) -> (r: bool)
        ensures
            r == self@.noboxx_pts.contains(*v),
    {
        vec_contains(&self.noboxx_pts, v)
    }

    /// Whether `v` is a point where no box may be pushed (binary search).
    pub fn in_noboxx_pts8(&self, v: &VectorSm) -> (r: bool)
        requires
            self@.pts_sorted(),
        ensures
            r == self@.noboxx_pts.contains(Vector(v.0 as i32, v.1 as i32)),
    {
        sorted_contains(&self.noboxx_pts, &v.intov())
    }

    /// Whether `v` is the position of a box of the level as loaded.
    pub fn in_boxx_pts(&self, v: &Vector) -> (r: bool)
        ensures
            r == self@.boxx_pts.contains(*v),
    {
        vec_contains(&self.boxx_pts, v)
    }

    pub fn in_boxx_pts8(&self, v: &VectorSm) -> (r: bool)
        ensures
            r == self@.boxx_pts.contains(Vector(v.0 as i32, v.1 as i32)),
    {
        vec_contains(&self.boxx_pts, &v.intov())
    }

    /// Whether `v` is the position of a hole.
    pub fn in_hole_pts(&self, v: &Vector) -> (r: bool)
        ensures
            r == self@.hole_pts.contains(*v),
    {
        vec_contains(&self.hole_pts, v)
    }

    pub fn in_hole_pts8(&self, v: &VectorSm) -> (r: bool)
        requires
            self@.pts_sorted(),
        ensures
            r == self@.hole_pts.contains(Vector(v.0 as i32, v.1 as i32)),
    {
        sorted_contains(&self.hole_pts, &v.intov())
    }

    /// Whether `v` is the position of a wall.
    pub fn in_wall_pts(&self, v: &Vector) -> (r: bool)
        ensures
            r == self@.wall_pts.contains(*v),
    {
        vec_contains(&self.wall_pts, v)
    }

    pub fn in_wall_pts8(&self, v: &VectorSm) -> (r: bool)
        requires
            self@.pts_sorted(),
        ensures
            r == self@.wall_pts.contains(Vector(v.0 as i32, v.1 as i32)),
    {
        sorted_contains(&self.wall_pts, &v.intov())
    }

    pub fn get_boxx_pts(&self) -> (r: &Vec<Vector>)
        ensures
            r@ == self@.boxx_pts,
    {
        &self.boxx_pts
    }

    pub fn get_noboxx_pts(&self) -> (r: &Vec<Vector>)
        ensures
            r@ == self@.noboxx_pts,
    {
        &self.noboxx_pts
    }

    pub fn get_hole_pts(&self) -> (r: &Vec<Vector>)
        ensures
            r@ == self@.hole_pts,
    {
        &self.hole_pts
    }

    /// Works out the sorted lists of box, hole and wall points from the grid.
    pub fn do_boxx_pts(&mut self)
        requires
            old(self)@.wf(),
        ensures
            final(self)@ == (LevelView {
                boxx_pts: final(self)@.boxx_pts,
                hole_pts: final(self)@.hole_pts,
                wall_pts: final(self)@.wall_pts,
                ..old(self)@
            }),
            final(self)@.lists(final(self)@.boxx_pts, PtKind::Boxes),
            final(self)@.lists(final(self)@.hole_pts, PtKind::Holes),
            final(self)@.lists(final(self)@.wall_pts, PtKind::Walls),
    {
        let (b, h, w) = self.compute_pts();
        self.boxx_pts = b;
        self.hole_pts = h;
        self.wall_pts = w;
    }

    fn compute_pts(&self) -> (r: (Vec<Vector>, Vec<Vector>, Vec<Vector>))
        requires
            self@.wf(),
        ensures
            self@.lists(r.0@, PtKind::Boxes),
            self@.lists(r.1@, PtKind::Holes),
            self@.lists(r.2@, PtKind::Walls),
    {
        let mut bpts: Vec<Vector> = Vec::new();
        let mut hpts: Vec<Vector> = Vec::new();
        let mut wpts: Vec<Vector> = Vec::new();
        let w = self.w;
        let h = self.h;
        let ghost v = self@;
        let mut x: u16 = 0;
        while x < w
            invariant
                self@ == v,
                v.wf(),
                w == v.w,
                h == v.h,
                x <= w,
                forall|i: int, j: int| 0 <= i < j < bpts@.len() ==> vec_lt(#[trigger] bpts@[i], #[trigger] bpts@[j]),
                forall|i: int, j: int| 0 <= i < j < hpts@.len() ==> vec_lt(#[trigger] hpts@[i], #[trigger] hpts@[j]),
                forall|i: int, j: int| 0 <= i < j < wpts@.len() ==> vec_lt(#[trigger] wpts@[i], #[trigger] wpts@[j]),
                forall|i: int| 0 <= i < bpts@.len() ==> (#[trigger] bpts@[i]).0 < x,
                forall|i: int| 0 <= i < hpts@.len() ==> (#[trigger] hpts@[i]).0 < x,
                forall|i: int| 0 <= i < wpts@.len() ==> (#[trigger] wpts@[i]).0 < x,
                forall|p: Vector| bpts@.contains(p) <==> (in_bounds(w as int, h as int, p) && p.0 < x && is_box_obj(v.obj_at(p))),
                forall|p: Vector| hpts@.contains(p) <==> (in_bounds(w as int, h as int, p) && p.0 < x && is_hole_obj(v.obj_at(p))),
                forall|p: Vector| wpts@.contains(p) <==> (in_bounds(w as int, h as int, p) && p.0 < x && v.obj_at(p) == Obj::Wall),
            decreases w - x,
        {
            let mut y: u16 = 0;
            while y < h
                invariant
                    self@ == v,
                    v.wf(),
                    w == v.w,
                    h == v.h,
                    x < w,
                    y <= h,
                    forall|i: int, j: int| 0 <= i < j < bpts@.len() ==> vec_lt(#[trigger] bpts@[i], #[trigger] bpts@[j]),
                    forall|i: int, j: int| 0 <= i < j < hpts@.len() ==> vec_lt(#[trigger] hpts@[i], #[trigger] hpts@[j]),
                    forall|i: int, j: int| 0 <= i < j < wpts@.len() ==> vec_lt(#[trigger] wpts@[i], #[trigger] wpts@[j]),
                    forall|i: int| 0 <= i < bpts@.len() ==> vec_lt(#[trigger] bpts@[i], Vector(x as i32, y as i32)),
                    forall|i: int| 0 <= i < hpts@.len() ==> vec_lt(#[trigger] hpts@[i], Vector(x as i32, y as i32)),
                    forall|i: int| 0 <= i < wpts@.len() ==> vec_lt(#[trigger] wpts@[i], Vector(x as i32, y as i32)),
                    forall|p: Vector| bpts@.contains(p) <==> (in_bounds(w as int, h as int, p) && vec_lt(p, Vector(x as i32, y as i32)) && is_box_obj(v.obj_at(p))),
                    forall|p: Vector| hpts@.contains(p) <==> (in_bounds(w as int, h as int, p) && vec_lt(p, Vector(x as i32, y as i32)) && is_hole_obj(v.obj_at(p))),
                    forall|p: Vector| wpts@.contains(p) <==> (in_bounds(w as int, h as int, p) && vec_lt(p, Vector(x as i32, y as i32)) && v.obj_at(p) == Obj::Wall),
                decreases h - y,
            {
                let pt = Vector(x as i32, y as i32);
                assert(cell_index(w as int, pt) < w * h) by (nonlinear_arith)
                    requires 0 <= pt.0 < w, 0 <= pt.1 < h;
                let obj = self.get_obj_at_pt(&pt);
                let ghost b0 = bpts@;
                let ghost h0 = hpts@;
                let ghost w0 = wpts@;
                if obj == Obj::Boxx || obj == Obj::BoxxInHole {
                    bpts.push(pt);
                }
                if obj == Obj::BoxxInHole || obj == Obj::Hole || obj == Obj::HumanInHole {
                    hpts.push(pt);
                }
                if obj == Obj::Wall {
                    wpts.push(pt);
                }
                proof {
                    let nxt = Vector(x as i32, (y + 1) as i32);
                    assert forall|p: Vector| vec_lt(p, nxt) <==> (vec_lt(p, pt) || p == pt) by {}
                    lemma_list_extend(b0, bpts@, pt, nxt, is_box_obj(obj),
                        |p: Vector| in_bounds(w as int, h as int, p) && is_box_obj(v.obj_at(p)));
                    lemma_list_extend(h0, hpts@, pt, nxt, is_hole_obj(obj),
                        |p: Vector| in_bounds(w as int, h as int, p) && is_hole_obj(v.obj_at(p)));
                    lemma_list_extend(w0, wpts@, pt, nxt, obj == Obj::Wall,
                        |p: Vector| in_bounds(w as int, h as int, p) && v.obj_at(p) == Obj::Wall);
                }
                y = y + 1;
            }
            proof {
                let nxt = Vector((x + 1) as i32, 0);
                assert forall|p: Vector| in_bounds(w as int, h as int, p) implies (vec_lt(p, Vector(x as i32, h as i32)) <==> p.0 < x + 1) by {}
            }
            x = x + 1;
        }
        assert forall|p: Vector| wpts@.contains(p) <==> (in_bounds(v.w as int, v.h as int, p) && kind_obj(PtKind::Walls, v.obj_at(p))) by {
            if in_bounds(w as int, h as int, p) { assert(p.0 < x); }
        }
        (bpts, hpts, wpts)
    }

    /// The grid as text: rows of object characters inside a border of walls, each line
    /// ending with a line end.
    pub fn to_string(&self) -> (s: String)
        requires
            self@.wf(),
            self@.w <= 65533,
        ensures
            s@ == level_text(self@),
    {
        let mut s = String::new();
        let ghost v = self@;
        let mut i: u16 = 0;
        while i < self.w + 2
            invariant
                self@ == v,
                v.w <= 65533,
                i <= v.w + 2,
                s@ == Seq::new(i as nat, |k: int| '#'),
            decreases v.w + 2 - i,
        {
            string_push(&mut s, '#');
            assert(s@ =~= Seq::new((i + 1) as nat, |k: int| '#'));
            i = i + 1;
        }
        string_push(&mut s, '\n');
        let ghost top = s@;
        assert(top == border_line(v.w as nat + 2));
        let n = self.data.len();
        let mut y: usize = 0;
        while y < self.h as usize
            invariant
                self@ == v,
                n == v.data.len(),
                v.wf(),
                v.w <= 65533,
                y <= v.h,
                top == border_line(v.w as nat + 2),
                s@ == top + rows_text(v, y as nat),
            decreases v.h - y,
        {
            let ghost before = s@;
            string_push(&mut s, '#');
            let mut x: usize = 0;
            while x < self.w as usize
                invariant
                    self@ == v,
                    n == v.data.len(),
                    v.wf(),
                    y < v.h,
                    x <= v.w,
                    s@ == before + seq!['#'] + Seq::new(x as nat, |k: int| obj_char(v.data[y * v.w + k])),
                decreases v.w - x,
            {
                assert(0 <= y * v.w && y * v.w + x < v.data.len()) by (nonlinear_arith)
                    requires y < v.h, x < v.w, v.data.len() == v.w * v.h, y >= 0, x >= 0;
                let c = self.get_obj_at_idx(y * self.w as usize + x).to_char();
                string_push(&mut s, c);
                assert(s@ =~= before + seq!['#'] + Seq::new((x + 1) as nat, |k: int| obj_char(v.data[y * v.w + k])));
                x = x + 1;
            }
            string_push(&mut s, '#');
            string_push(&mut s, '\n');
            assert(s@ =~= top + rows_text(v, (y + 1) as nat)) by {
                assert(rows_text(v, (y + 1) as nat) == rows_text(v, y as nat) + row_text(v, y as int));
            }
            y = y + 1;
        }
        let ghost mid = s@;
        let mut i: u16 = 0;
        while i < self.w + 2
            invariant
                self@ == v,
                v.w <= 65533,
                i <= v.w + 2,
                s@ == mid + Seq::new(i as nat, |k: int| '#'),
            decreases v.w + 2 - i,
        {
            string_push(&mut s, '#');
            assert(s@ =~= mid + Seq::new((i + 1) as nat, |k: int| '#'));
            i = i + 1;
        }
        string_push(&mut s, '\n');
        assert(s@ =~= level_text(v));
        s
    }

    /// Works out the bitmap of the holes (one bit per cell, set on a hole), which a
    /// packed state must equal for the level to be won. The grid must have at most 256 cells.
    pub fn make_win_data(&mut self)
        requires
            old(self)@.data.len() <= 256,
        ensures
            final(self)@ == (LevelView { win_data: final(self)@.win_data, ..old(self)@ }),
            packs(final(self)@.win_data, old(self)@.data, true),
    {
        self.win_data = pack_bits(&self.data, true);
    }
}

} // verus!

verus! {

fn u16_to_i8(x: u16) -> (r: i8)
    ensures
        r == x as i8,
{
    x as i8
}

/// A compact level state for the searches: the width and height, and the packed
/// human position and boxes; the walls and holes come from a base level.
#[derive(Clone, Copy, PartialEq)]
pub struct SpLevel {
    pub w: i8,
    pub h: i8,
    pub cmp_data: CmpData,
}

/// The object of a cell from its base object (space, hole or wall) and whether the
/// human or a box is on it; the human wins over a box.
pub open spec fn sp_obj(base: Obj, is_human: bool, is_box: bool) -> Obj {
    if base == Obj::Hole {
        if is_human { Obj::HumanInHole } else if is_box { Obj::BoxxInHole } else { Obj::Hole }
    } else if base == Obj::Space {
        if is_human { Obj::Human } else if is_box { Obj::Boxx } else { Obj::Space }
    } else {
        Obj::Wall
    }
}

/// Whether an object is one of those a base level (without human and boxes) is made of.
pub open spec fn is_base_obj(o: Obj) -> bool {
    o == Obj::Hole || o == Obj::Space || o == Obj::Wall
}

impl SpLevel {
    /// The human's x.
    pub open spec fn hx(&self) -> i8 {
        self.cmp_data.human_x
    }

    /// The human's y.
    pub open spec fn hy(&self) -> i8 {
        self.cmp_data.human_y
    }

    /// The box bitmap.
    pub open spec fn blocks(&self) -> Seq<u64> {
        self.cmp_data.blocks@
    }

    fn hx_exec(&self) -> (r: i8)
        ensures
            r == self.hx(),
    {
        self.cmp_data.human_x
    }

    fn hy_exec(&self) -> (r: i8)
        ensures
            r == self.hy(),
    {
        self.cmp_data.human_y
    }

    /// Block `i` of the box bitmap.
    pub open spec fn block_at(&self, i: usize) -> u64 {
        self.blocks()[i as int]
    }

    fn block(&self, i: usize) -> (r: u64)
        requires
            i < 4,
        ensures
            r == self.block_at(i),
    {
        self.cmp_data.blocks[i]
    }

    /// Whether bit `idx` of the box bitmap is set.
    fn bit_at(&self, idx: usize) -> (r: bool)
        requires
            idx < 256,
        ensures
            r == bitmap_bit(self.blocks(), idx as int),
    {
        let b = self.block(idx / 64);
        (b & (0x8000_0000_0000_0000u64 >> ((idx % 64) as u64))) != 0
    }

    fn set_hxy(&mut self, x: i8, y: i8)
        ensures
            final(self).w == old(self).w,
            final(self).h == old(self).h,
            final(self).blocks() == old(self).blocks(),
            final(self).hx() == x,
            final(self).hy() == y,
    {
        self.cmp_data.human_x = x;
        self.cmp_data.human_y = y;
    }

    /// The bit number of a point: x + y * w.
    pub open spec fn bit_index(&self, pt: Vector) -> int {
        pt.0 + pt.1 * self.w
    }

    /// Whether the point's bit can be read: it is one of the 256 bits.
    pub open spec fn bit_ok(&self, pt: Vector) -> bool {
        pt.0 >= 0 && pt.1 >= 0 && self.w >= 0 && self.bit_index(pt) < 256
    }

    /// Whether a box is at the point.
    pub open spec fn box_at(&self, pt: Vector) -> bool {
        bitmap_bit(self.blocks(), self.bit_index(pt))
    }

    /// Whether the human is at the point.
    pub open spec fn human_at(&self, pt: Vector) -> bool {
        pt.0 == self.hx() && pt.1 == self.hy()
    }

    /// The base level's object at the point can be read and is a space, hole or wall.
    pub open spec fn base_ok(&self, pt: Vector, base: LevelView) -> bool {
        &&& self.bit_ok(pt)
        &&& cell_index(base.w as int, pt) < base.data.len()
        &&& is_base_obj(base.data[cell_index(base.w as int, pt)])
    }

    /// The object at a point, with human and boxes put on the base level's object.
    pub open spec fn obj_at(&self, pt: Vector, base: LevelView) -> Obj {
        sp_obj(base.data[cell_index(base.w as int, pt)], self.human_at(pt), self.box_at(pt))
    }

    /// The object at a point with boxes (not the human) put on the base object.
    pub open spec fn obj_at_nohuman(&self, pt: Vector, base: LevelView) -> Obj {
        sp_obj(base.data[cell_index(base.w as int, pt)], false, self.box_at(pt))
    }

    /// Whether a point lies inside this state's width and height.
    pub open spec fn inside(&self, pt: Vector) -> bool {
        0 <= pt.0 < self.w && 0 <= pt.1 < self.h
    }

    /// The state of a level: its width and height (truncated to 8 bits) and its packed
    /// human position and boxes. The level must have at most 256 cells.
    pub fn from_level(level: &Level) -> (r: Self)
        requires
            level@.data.len() <= 256,
        ensures
            r.w == level@.w as i8,
            r.h == level@.h as i8,
            r.hx() == level@.human_pos.0 as i8,
            r.hy() == level@.human_pos.1 as i8,
            packs(r.blocks(), level@.data, false),
    {
        let c = CmpData::from_data(&level.human_pos, &level.data);
        Self::assemble(u16_to_i8(level.w), u16_to_i8(level.h), c)
    }

    pub(crate) fn assemble(w: i8, h: i8, c: CmpData) -> (r: Self)
        ensures
            r.w == w,
            r.h == h,
            r.hx() == c.human_x,
            r.hy() == c.human_y,
            r.blocks() == c.blocks@,
    {
        Self { w, h, cmp_data: c }
    }

    fn bit_idx(&self, pt: &Vector) -> (r: usize)
        requires
            self.bit_ok(*pt),
        ensures
            r == self.bit_index(*pt),
            r < 256,
    {
        assert(0 <= pt.1 * self.w <= self.bit_index(*pt)) by (nonlinear_arith)
            requires pt.0 >= 0, pt.1 >= 0, self.w >= 0;
        pt.0 as usize + pt.1 as usize * self.w as usize
    }

    /// The object at `pt`: the base level's space, hole or wall with the human or a box on it.
    pub fn get_obj_at_pt(&self, pt: &Vector, base_level: &Level) -> (o: Obj)
        requires
            self.base_ok(*pt, base_level@),
        ensures
            o == self.obj_at(*pt, base_level@),
    {
        let idx_bits = self.bit_idx(pt);
        let is_boxx = self.bit_at(idx_bits);
        let is_human = pt.0 == self.hx_exec() as i32 && pt.1 == self.hy_exec() as i32;
        let base_obj = base_level.get_obj_at_pt(pt);
        match base_obj {
            Obj::Hole => if is_human { Obj::HumanInHole } else if is_boxx { Obj::BoxxInHole } else { Obj::Hole },
            Obj::Space => if is_human { Obj::Human } else if is_boxx { Obj::Boxx } else { Obj::Space },
            _ => Obj::Wall,
        }
    }

    /// The object at `pt` with boxes put on the base level's object, ignoring the human.
    pub fn get_obj_at_pt_nohuman(&self, pt: &Vector, base_level: &Level) -> (o: Obj)
        requires
            self.base_ok(*pt, base_level@),
        ensures
            o == self.obj_at_nohuman(*pt, base_level@),
    {
        let idx_bits = self.bit_idx(pt);
        let is_boxx = self.bit_at(idx_bits);
        let base_obj = base_level.get_obj_at_pt(pt);
        match base_obj {
            Obj::Hole => if is_boxx { Obj::BoxxInHole } else { Obj::Hole },
            Obj::Space => if is_boxx { Obj::Boxx } else { Obj::Space },
            _ => Obj::Wall,
        }
    }

    /// Whether a box is at `pt` (the base level is not consulted).
    pub fn is_boxx_at_pt(&self, pt: &Vector) -> (r: bool)
        requires
            self.bit_ok(*pt),
        ensures
            r == self.box_at(*pt),
    {
        let idx_bits = self.bit_idx(pt);
        self.bit_at(idx_bits)
    }

    /// Puts a box at `pt`.
    pub fn set_boxx_at_pt(&mut self, pt: &Vector)
        requires
            old(self).bit_ok(*pt),
        ensures
            final(self).w == old(self).w,
            final(self).h == old(self).h,
            final(self).hx() == old(self).hx(),
            final(self).hy() == old(self).hy(),
            forall|i: int| 0 <= i < 256 ==> #[trigger] bitmap_bit(final(self).blocks(), i)
                == (i == old(self).bit_index(*pt) || bitmap_bit(old(self).blocks(), i)),
    {
        let idx_bits = self.bit_idx(pt);
        let mut b = self.cmp_data.blocks;
        bitmap_set(&mut b, idx_bits);
        self.cmp_data.blocks = b;
    }

    /// Takes the box off `pt`.
    pub fn clear_boxx_at_pt(&mut self, pt: &Vector)
        requires
            old(self).bit_ok(*pt),
        ensures
            final(self).w == old(self).w,
            final(self).h == old(self).h,
            final(self).hx() == old(self).hx(),
            final(self).hy() == old(self).hy(),
            forall|i: int| 0 <= i < 256 ==> #[trigger] bitmap_bit(final(self).blocks(), i)
                == (i != old(self).bit_index(*pt) && bitmap_bit(old(self).blocks(), i)),
    {
        let idx_bits = self.bit_idx(pt);
        let mut b = self.cmp_data.blocks;
        bitmap_clear(&mut b, idx_bits);
        self.cmp_data.blocks = b;
    }

    /// Moves the human to `pt` (each coordinate truncated to 8 bits).
    pub fn set_human_pos(&mut self, pt: &Vector)
        ensures
            final(self).w == old(self).w,
            final(self).h == old(self).h,
            final(self).blocks() == old(self).blocks(),
            final(self).hx() == pt.0 as i8,
            final(self).hy() == pt.1 as i8,
    {
        self.set_hxy(pt.0 as i8, pt.1 as i8);
    }

    pub fn get_human_pos(&self) -> (r: Vector)
        ensures
            r == Vector(self.hx() as i32, self.hy() as i32),
    {
        Vector(self.hx_exec() as i32, self.hy_exec() as i32)
    }

    /// The object at `pt`, or a wall outside this state's width and height.
    pub fn get_obj_at_pt_checked(&self, pt: &Vector, base_level: &Level) -> (o: Obj)
        requires
            fits_i32(self.w - pt.0),
            fits_i32(self.h - pt.1),
            fits_i32(self.w - pt.0 - 1),
            fits_i32(self.h - pt.1 - 1),
            self.inside(*pt) ==> self.base_ok(*pt, base_level@),
        ensures
            o == (if self.inside(*pt) { self.obj_at(*pt, base_level@) } else { Obj::Wall }),
    {
        let c = self.w as i32 - pt.0 - 1;
        let d = self.h as i32 - pt.1 - 1;
        proof { lemma_or_sign(pt.0, pt.1, c, d); }
        if (pt.0 | pt.1 | c | d) < 0 {
            Obj::Wall
        } else {
            self.get_obj_at_pt(pt, base_level)
        }
    }

    /// The object at `pt` ignoring the human, or a wall outside this state's width and height.
    pub fn get_obj_at_pt_nohuman_checked(&self, pt: &Vector, base_level: &Level) -> (o: Obj)
        requires
            fits_i32(self.w - pt.0),
            fits_i32(self.h - pt.1),
            fits_i32(self.w - pt.0 - 1),
            fits_i32(self.h - pt.1 - 1),
            self.inside(*pt) ==> self.base_ok(*pt, base_level@),
        ensures
            o == (if self.inside(*pt) { self.obj_at_nohuman(*pt, base_level@) } else { Obj::Wall }),
    {
        let c = self.w as i32 - pt.0 - 1;
        let d = self.h as i32 - pt.1 - 1;
        proof { lemma_or_sign(pt.0, pt.1, c, d); }
        if (pt.0 | pt.1 | c | d) < 0 {
            Obj::Wall
        } else {
            self.get_obj_at_pt_nohuman(pt, base_level)
        }
    }

    /// Whether two states have the human at the same place and the same boxes.
    pub fn same_state(&self, other: &SpLevel) -> (r: bool)
        ensures
            r == (self.hx() == other.hx() && self.hy() == other.hy() && self.blocks() == other.blocks()),
    {
        self.cmp_data.same(&other.cmp_data)
    }

    /// Whether the boxes fill exactly the holes of the base level.
    pub fn have_win_condition(&self, base_level: &Level) -> (r: bool)
        ensures
            r == (self.blocks() == base_level@.win_data),
    {
        base_level.win_matches(&self.cmp_data)
    }

    /// The level that this state stands for on the base level: the base level's settings
    /// with its grid rebuilt, cell by cell, from this state.
    pub fn to_level(&self, base_level: &Level) -> (level: Level)
        requires
            self.w >= 0,
            self.h >= 0,
            forall|p: Vector| #[trigger] self.inside(p) ==> self.base_ok(p, base_level@),
        ensures
            level@ == (LevelView {
                data: Seq::new((self.w * self.h) as nat, |i: int|
                    self.obj_at(Vector((i % self.w as int) as i32, (i / self.w as int) as i32), base_level@)),
                human_pos: Vector(self.hx() as i32, self.hy() as i32),
                cleared_of_human: false,
                ..base_level@
            }),
    {
        let mut level = base_level.clone();
        let mut data: Vec<Obj> = Vec::new();
        let w = self.w as i32;
        let h = self.h as i32;
        let ghost want = Seq::new((self.w * self.h) as nat, |i: int|
            self.obj_at(Vector((i % self.w as int) as i32, (i / self.w as int) as i32), base_level@));
        let mut y: i32 = 0;
        while y < h
            invariant
                w == self.w,
                h == self.h,
                w >= 0,
                0 <= y <= h,
                forall|p: Vector| #[trigger] self.inside(p) ==> self.base_ok(p, base_level@),
                want == Seq::new((self.w * self.h) as nat, |i: int|
                    self.obj_at(Vector((i % self.w as int) as i32, (i / self.w as int) as i32), base_level@)),
                data@.len() == y * w,
                forall|i: int| 0 <= i < data@.len() ==> #[trigger] data@[i] == want[i],
            decreases h - y,
        {
            let mut x: i32 = 0;
            while x < w
                invariant
                    w == self.w,
                    h == self.h,
                    w >= 0,
                    0 <= y < h,
                    0 <= x <= w,
                    forall|p: Vector| #[trigger] self.inside(p) ==> self.base_ok(p, base_level@),
                    want == Seq::new((self.w * self.h) as nat, |i: int|
                        self.obj_at(Vector((i % self.w as int) as i32, (i / self.w as int) as i32), base_level@)),
                    data@.len() == y * w + x,
                    forall|i: int| 0 <= i < data@.len() ==> #[trigger] data@[i] == want[i],
                decreases w - x,
            {
                let p = Vector(x, y);
                assert(self.inside(p));
                let o = self.get_obj_at_pt(&p, base_level);
                proof {
                    let i: int = y * w + x;
                    let wi: int = w as int;
                    assert(i < wi * h && i % wi == x && i / wi == y) by (nonlinear_arith)
                        requires 0 <= x < wi, 0 <= y < h, i == y * wi + x;
                }
                data.push(o);
                x = x + 1;
            }
            assert((y + 1) * w == y * w + w) by (nonlinear_arith);
            y = y + 1;
        }
        assert(data@.len() == want.len()) by (nonlinear_arith)
            requires data@.len() == h * w, want.len() == (self.w * self.h) as nat, w == self.w, h == self.h, w >= 0, h >= 0;
        assert(data@ =~= want);
        level.data = data;
        level.human_pos = self.get_human_pos();
        level.cleared_of_human = false;
        level
    }
}

impl Level {
    /// Whether packed boxes equal the level's hole bitmap.
    fn win_matches(&self, c: &CmpData) -> (r: bool)
        ensures
            r == (c.blocks@ == self@.win_data),
    {
        let r = c.blocks[0] == self.win_data[0] && c.blocks[1] == self.win_data[1]
            && c.blocks[2] == self.win_data[2] && c.blocks[3] == self.win_data[3];
        proof {
            if r {
                assert(c.blocks@ =~= self@.win_data);
            }
        }
        r
    }
}

} // verus!

verus! {

/// The object at (x, y), a wall outside the grid.
pub open spec fn at(v: LevelView, x: int, y: int) -> Obj {
    if 0 <= x < v.w && 0 <= y < v.h { v.data[x + y * v.w] } else { Obj::Wall }
}

/// A space with a wall beside it and a wall above or below it: a box pushed
/// there could never be moved again.
pub open spec fn is_corner(v: LevelView, x: int, y: int) -> bool {
    &&& at(v, x, y) == Obj::Space
    &&& (at(v, x - 1, y) == Obj::Wall || at(v, x + 1, y) == Obj::Wall)
    &&& (at(v, x, y - 1) == Obj::Wall || at(v, x, y + 1) == Obj::Wall)
}

/// Row `y` from `x0` to `e` is a corridor: walls at both ends, at least three spaces between.
pub open spec fn hrun(v: LevelView, x0: int, e: int, y: int) -> bool {
    &&& e - x0 >= 4
    &&& at(v, x0, y) == Obj::Wall
    &&& at(v, e, y) == Obj::Wall
    &&& forall|x: int| x0 < x < e ==> #[trigger] at(v, x, y) == Obj::Space
}

/// Every cell of row `y` strictly between `x0` and `e` is a wall.
pub open spec fn walls_row(v: LevelView, x0: int, e: int, y: int) -> bool {
    forall|x: int| x0 < x < e ==> #[trigger] at(v, x, y) == Obj::Wall
}

/// Column `x` from `y0` to `e` is a corridor: walls at both ends, at least three spaces between.
pub open spec fn vrun(v: LevelView, y0: int, e: int, x: int) -> bool {
    &&& e - y0 >= 4
    &&& at(v, x, y0) == Obj::Wall
    &&& at(v, x, e) == Obj::Wall
    &&& forall|y: int| y0 < y < e ==> #[trigger] at(v, x, y) == Obj::Space
}

/// Every cell of column `x` strictly between `y0` and `e` is a wall.
pub open spec fn walls_col(v: LevelView, y0: int, e: int, x: int) -> bool {
    forall|y: int| y0 < y < e ==> #[trigger] at(v, x, y) == Obj::Wall
}

/// (x, y) lies in a horizontal corridor that is walled all along one side.
pub open spec fn in_hhall(v: LevelView, x: int, y: int) -> bool {
    exists|x0: int, e: int| x0 < x < e && #[trigger] hrun(v, x0, e, y)
        && (walls_row(v, x0, e, y - 1) || walls_row(v, x0, e, y + 1))
}

/// (x, y) lies in a vertical corridor that is walled all along one side.
pub open spec fn in_vhall(v: LevelView, x: int, y: int) -> bool {
    exists|y0: int, e: int| y0 < y < e && #[trigger] vrun(v, y0, e, x)
        && (walls_col(v, y0, e, x - 1) || walls_col(v, y0, e, x + 1))
}

/// A point where a box must never be pushed: a corner, or a one-sided corridor.
pub open spec fn noboxx(v: LevelView, p: Vector) -> bool {
    is_corner(v, p.0 as int, p.1 as int) || in_hhall(v, p.0 as int, p.1 as int) || in_vhall(v, p.0 as int, p.1 as int)
}

/// The grid with the human taken off (as `clear_human` does).
pub open spec fn human_cleared(v: LevelView) -> LevelView {
    LevelView {
        data: v.data.update(cell_index(v.w as int, v.human_pos),
            if v.obj_at(v.human_pos) == Obj::Human { Obj::Space } else { Obj::Hole }),
        cleared_of_human: true,
        ..v
    }
}

/// The grid part of a view (width, height and objects), with every other part emptied;
/// the rules on where boxes may go read only this part.
pub open spec fn grid_view(v: LevelView) -> LevelView {
    LevelView {
        w: v.w,
        h: v.h,
        human_pos: Vector(0, 0),
        win_data: Seq::empty(),
        data: v.data,
        keyvals: Seq::empty(),
        noboxx_pts: Seq::empty(),
        boxx_pts: Seq::empty(),
        hole_pts: Seq::empty(),
        wall_pts: Seq::empty(),
        cleared_of_human: false,
    }
}

/// A point where no box may go is a space of the grid.
pub proof fn lemma_noboxx_space(v: LevelView, p: Vector)
    requires
        noboxx(v, p),
    ensures
        at(v, p.0 as int, p.1 as int) == Obj::Space,
        0 <= p.0 < v.w,
        0 <= p.1 < v.h,
{
    if in_hhall(v, p.0 as int, p.1 as int) {
        let (a, b) = choose|a: int, b: int| a < p.0 < b && #[trigger] hrun(v, a, b, p.1 as int)
            && (walls_row(v, a, b, p.1 - 1) || walls_row(v, a, b, p.1 + 1));
        assert(at(v, p.0 as int, p.1 as int) == Obj::Space);
    }
    if in_vhall(v, p.0 as int, p.1 as int) {
        let (a, b) = choose|a: int, b: int| a < p.1 < b && #[trigger] vrun(v, a, b, p.0 as int)
            && (walls_col(v, a, b, p.0 - 1) || walls_col(v, a, b, p.0 + 1));
        assert(at(v, p.0 as int, p.1 as int) == Obj::Space);
    }
}

impl Level {
    fn at_xy(&self, x: i32, y: i32) -> (o: Obj)
        requires
            self@.wf(),
        ensures
            o == at(grid_view(self@), x as int, y as int),
    {
        if x < 0 || x >= self.w as i32 || y < 0 || y >= self.h as i32 {
            Obj::Wall
        } else {
            assert(0 <= y * self.w && x + y * self.w < self.w * self.h) by (nonlinear_arith)
                requires 0 <= x < self.w, 0 <= y < self.h;
            assert(self.data.len() == self.w * self.h);
            let i = (x as usize) + (y as usize) * (self.w as usize);
            self.data[i]
        }
    }

    /// Whether the cells of row `y` strictly between `x0` and `e` are all walls.
    fn row_walls(&self, x0: i32, e: i32, y: i32) -> (r: bool)
        requires
            self@.wf(),
            -1 <= x0 < e <= 70000,
        ensures
            r == walls_row(grid_view(self@), x0 as int, e as int, y as int),
    {
        let mut x = x0 + 1;
        while x < e
            invariant
                self@.wf(),
                x0 < x <= e <= 70000,
                forall|k: int| x0 < k < x ==> #[trigger] at(grid_view(self@), k, y as int) == Obj::Wall,
            decreases e - x,
        {
            if self.at_xy(x, y) != Obj::Wall {
                return false;
            }
            x = x + 1;
        }
        true
    }

    /// Whether the cells of column `x` strictly between `y0` and `e` are all walls.
    fn col_walls(&self, y0: i32, e: i32, x: i32) -> (r: bool)
        requires
            self@.wf(),
            -1 <= y0 < e <= 70000,
        ensures
            r == walls_col(grid_view(self@), y0 as int, e as int, x as int),
    {
        let mut y = y0 + 1;
        while y < e
            invariant
                self@.wf(),
                y0 < y <= e <= 70000,
                forall|k: int| y0 < k < y ==> #[trigger] at(grid_view(self@), x as int, k) == Obj::Wall,
            decreases e - y,
        {
            if self.at_xy(x, y) != Obj::Wall {
                return false;
            }
            y = y + 1;
        }
        true
    }

    /// Whether the space at (x, y) lies in a one-sided horizontal corridor.
    fn hall_h(&self, x: i32, y: i32) -> (r: bool)
        requires
            self@.wf(),
            0 <= x < self@.w,
            0 <= y < self@.h,
            at(grid_view(self@), x as int, y as int) == Obj::Space,
        ensures
            r == in_hhall(grid_view(self@), x as int, y as int),
    {
        let ghost sv = self@;
        let ghost v = grid_view(sv);
        let mut x0 = x - 1;
        while self.at_xy(x0, y) == Obj::Space
            invariant
                self@ == sv,
                v == grid_view(sv),
                v.wf(),
                0 <= x < v.w,
                0 <= y < v.h,
                -1 <= x0 < x,
                forall|k: int| x0 < k <= x ==> #[trigger] at(v, k, y as int) == Obj::Space,
            decreases x0 + 1,
        {
            x0 = x0 - 1;
        }
        let mut e = x + 1;
        while self.at_xy(e, y) == Obj::Space
            invariant
                self@ == sv,
                v == grid_view(sv),
                v.wf(),
                0 <= x < v.w,
                0 <= y < v.h,
                x < e <= v.w,
                forall|k: int| x <= k < e ==> #[trigger] at(v, k, y as int) == Obj::Space,
            decreases v.w - e,
        {
            e = e + 1;
        }
        let ghost ends_ok = at(v, x0 as int, y as int) == Obj::Wall && at(v, e as int, y as int) == Obj::Wall && e - x0 >= 4;
        let r = self.at_xy(x0, y) == Obj::Wall && self.at_xy(e, y) == Obj::Wall && e - x0 >= 4
            && (self.row_walls(x0, e, y - 1) || self.row_walls(x0, e, y + 1));
        proof {
            if r {
                assert(hrun(v, x0 as int, e as int, y as int));
            }
            if in_hhall(v, x as int, y as int) {
                let (a, b) = choose|a: int, b: int| a < x < b && #[trigger] hrun(v, a, b, y as int)
                    && (walls_row(v, a, b, y - 1) || walls_row(v, a, b, y + 1));
                if a < x0 { assert(at(v, x0 as int, y as int) == Obj::Space); }
                if a > x0 { assert(at(v, a, y as int) == Obj::Space); }
                if b > e { assert(at(v, e as int, y as int) == Obj::Space); }
                if b < e { assert(at(v, b, y as int) == Obj::Space); }
                assert(a == x0 && b == e);
            }
        }
        r
    }

    /// Whether the space at (x, y) lies in a one-sided vertical corridor.
    fn hall_v(&self, x: i32, y: i32) -> (r: bool)
        requires
            self@.wf(),
            0 <= x < self@.w,
            0 <= y < self@.h,
            at(grid_view(self@), x as int, y as int) == Obj::Space,
        ensures
            r == in_vhall(grid_view(self@), x as int, y as int),
    {
        let ghost sv = self@;
        let ghost v = grid_view(sv);
        let mut y0 = y - 1;
        while self.at_xy(x, y0) == Obj::Space
            invariant
                self@ == sv,
                v == grid_view(sv),
                v.wf(),
                0 <= x < v.w,
                0 <= y < v.h,
                -1 <= y0 < y,
                forall|k: int| y0 < k <= y ==> #[trigger] at(v, x as int, k) == Obj::Space,
            decreases y0 + 1,
        {
            y0 = y0 - 1;
        }
        let mut e = y + 1;
        while self.at_xy(x, e) == Obj::Space
            invariant
                self@ == sv,
                v == grid_view(sv),
                v.wf(),
                0 <= x < v.w,
                0 <= y < v.h,
                y < e <= v.h,
                forall|k: int| y <= k < e ==> #[trigger] at(v, x as int, k) == Obj::Space,
            decreases v.h - e,
        {
            e = e + 1;
        }
        let r = self.at_xy(x, y0) == Obj::Wall && self.at_xy(x, e) == Obj::Wall && e - y0 >= 4
            && (self.col_walls(y0, e, x - 1) || self.col_walls(y0, e, x + 1));
        proof {
            if r {
                assert(vrun(v, y0 as int, e as int, x as int));
            }
            if in_vhall(v, x as int, y as int) {
                let (a, b) = choose|a: int, b: int| a < y < b && #[trigger] vrun(v, a, b, x as int)
                    && (walls_col(v, a, b, x - 1) || walls_col(v, a, b, x + 1));
                if a < y0 { assert(at(v, x as int, y0 as int) == Obj::Space); }
                if a > y0 { assert(at(v, x as int, a) == Obj::Space); }
                if b > e { assert(at(v, x as int, e as int) == Obj::Space); }
                if b < e { assert(at(v, x as int, b) == Obj::Space); }
                assert(a == y0 && b == e);
            }
        }
        r
    }

    /// The sorted list of the points where no box may be pushed, on the current grid.
    fn compute_noboxx(&self) -> (pts: Vec<Vector>)
        requires
            self@.wf(),
            self@.w <= 32767,
            self@.h <= 32767,
        ensures
            strictly_sorted(pts@),
            forall|p: Vector| pts@.contains(p) <==> noboxx(grid_view(self@), p),
    {
        let ghost sv = self@;
        let ghost v = grid_view(sv);
        let mut pts: Vec<Vector> = Vec::new();
        let mut x: i32 = 0;
        proof {
            assert forall|p: Vector| noboxx(v, p) implies p.0 >= 0 by {
                lemma_noboxx_space(v, p);
            }
        }
        while x < self.w as i32
            invariant
                self@ == sv,
                v == grid_view(sv),
                v.wf(),
                v.w <= 32767,
                v.h <= 32767,
                0 <= x <= v.w,
                strictly_sorted(pts@),
                forall|i: int| 0 <= i < pts@.len() ==> (#[trigger] pts@[i]).0 < x,
                forall|p: Vector| pts@.contains(p) <==> (noboxx(v, p) && p.0 < x),
            decreases v.w - x,
        {
            let mut y: i32 = 0;
            proof {
                assert forall|p: Vector| noboxx(v, p) implies (vec_lt(p, Vector(x, 0)) <==> p.0 < x) by {
                    lemma_noboxx_space(v, p);
                }
            }
            while y < self.h as i32
                invariant
                    self@ == sv,
                v == grid_view(sv),
                    v.wf(),
                    v.w <= 32767,
                    v.h <= 32767,
                    0 <= x < v.w,
                    0 <= y <= v.h,
                    strictly_sorted(pts@),
                    forall|i: int| 0 <= i < pts@.len() ==> vec_lt(#[trigger] pts@[i], Vector(x, y)),
                    forall|p: Vector| pts@.contains(p) <==> (noboxx(v, p) && vec_lt(p, Vector(x, y))),
                decreases v.h - y,
            {
                let pt = Vector(x, y);
                let here = self.at_xy(x, y);
                let is_nb = if here != Obj::Space {
                    false
                } else {
                    let corner = (self.at_xy(x - 1, y) == Obj::Wall || self.at_xy(x + 1, y) == Obj::Wall)
                        && (self.at_xy(x, y - 1) == Obj::Wall || self.at_xy(x, y + 1) == Obj::Wall);
                    corner || self.hall_h(x, y) || self.hall_v(x, y)
                };
                let ghost p0 = pts@;
                if is_nb {
                    pts.push(pt);
                }
                proof {
                    let nxt = Vector(x, (y + 1) as i32);
                    assert(is_nb == noboxx(v, pt));
                    assert forall|p: Vector| vec_lt(p, nxt) <==> (vec_lt(p, pt) || p == pt) by {}
                    lemma_list_extend(p0, pts@, pt, nxt, is_nb, |p: Vector| noboxx(v, p));
                }
                y = y + 1;
            }
            proof {
                assert forall|p: Vector| noboxx(v, p) implies (vec_lt(p, Vector(x, v.h as i32)) <==> p.0 < x + 1) by {
                    lemma_noboxx_space(v, p);
                }
            }
            x = x + 1;
        }
        pts
    }

    /// Works out the points where no box may be pushed: spaces in a corner of walls, and
    /// spaces of a corridor (at least three long, between walls) that is walled all along
    /// one side. They are worked out with the human taken off the grid; the result is in
    /// the order of points, without repeats.
    pub fn do_noboxx_pts(&mut self)
        requires
            old(self)@.wf(),
            old(self)@.w <= 32767,
            old(self)@.h <= 32767,
            !old(self)@.cleared_of_human,
            old(self)@.human_placed(),
        ensures
            final(self)@ == (LevelView { noboxx_pts: final(self)@.noboxx_pts, ..old(self)@ }),
            strictly_sorted(final(self)@.noboxx_pts),
            forall|p: Vector| final(self)@.noboxx_pts.contains(p) <==> noboxx(grid_view(human_cleared(old(self)@)), p),
    {
        proof {
            let hp = old(self)@.human_pos;
            let w: int = old(self)@.w as int;
            let h: int = old(self)@.h as int;
            assert(cell_index(w, hp) < w * h) by (nonlinear_arith)
                requires 0 <= hp.0 < w, 0 <= hp.1 < h;
        }
        self.clear_human();
        let ghost mid = self@;
        assert(mid == human_cleared(old(self)@));
        let pts = self.compute_noboxx();
        self.noboxx_pts = pts;
        self.place_human();
        proof {
            let hp = old(self)@.human_pos;
            let i = cell_index(old(self)@.w as int, hp);
            assert(self@.data =~= old(self)@.data);
        }
    }
}

/// Taking the human off a level and putting it back gives the level back.
pub proof fn lemma_clear_then_place(v: LevelView)
    requires
        v.wf(),
        !v.cleared_of_human,
        v.human_placed(),
    ensures
        human_cleared(v).wf(),
        human_cleared(v).cleared_of_human,
        human_cleared(v).no_human(),
        human_cleared(v).obj_at(v.human_pos) == Obj::Space || human_cleared(v).obj_at(v.human_pos) == Obj::Hole,
        (LevelView {
            data: human_cleared(v).data.update(cell_index(v.w as int, v.human_pos),
                if human_cleared(v).obj_at(v.human_pos) == Obj::Space { Obj::Human } else { Obj::HumanInHole }),
            cleared_of_human: false,
            ..human_cleared(v)
        }) == v,
{
    let c = human_cleared(v);
    let idx = cell_index(v.w as int, v.human_pos);
    assert(0 <= idx < v.w * v.h) by (nonlinear_arith)
        requires 0 <= v.human_pos.0 < v.w, 0 <= v.human_pos.1 < v.h, idx == v.human_pos.0 + v.human_pos.1 * v.w;
    let back = c.data.update(idx, if c.obj_at(v.human_pos) == Obj::Space { Obj::Human } else { Obj::HumanInHole });
    assert(back =~= v.data);
    assert(c.no_human());
}

} // verus!
