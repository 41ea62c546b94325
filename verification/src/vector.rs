//! Points, directions and moves on the level grid, and compact move paths.
use vstd::prelude::*;
use crate::strutil::{string_push, push_decimal_i64, decimal_int};
use crate::stackstack::{StackStack, StackStack8x64, STACKMAX};

verus! {

/// A point or a direction on the grid: (x, y), y growing downwards.
#[derive(Clone, Copy, PartialEq, Eq, Structural, PartialOrd, Ord, Debug)]
pub struct Vector(pub i32, pub i32);

/// A small point or direction: (x, y) in 8 bits each.
#[derive(Clone, Copy, PartialEq, Eq, Structural, PartialOrd, Ord, Debug)]
pub struct VectorSm(pub i8, pub i8);

/// Whether `v` is strictly before `w` in the order of the points (x first, then y).
pub open spec fn vec_lt(v: Vector, w: Vector) -> bool {
    v.0 < w.0 || (v.0 == w.0 && v.1 < w.1)
}

pub open spec fn fits_i32(x: int) -> bool {
    i32::MIN <= x <= i32::MAX
}

pub open spec fn fits_i8(x: int) -> bool {
    i8::MIN <= x <= i8::MAX
}

/// "(x,y)" with both numbers in decimal.
pub open spec fn pair_text(x: int, y: int) -> Seq<char> {
    seq!['('] + decimal_int(x) + seq![','] + decimal_int(y) + seq![')']
}

impl VectorSm {
    /// The small vector of `v`, each coordinate truncated to 8 bits.
    pub fn fromv(v: &Vector) -> (r: Self)
        ensures
            r.0 == v.0 as i8,
            r.1 == v.1 as i8,
    {
        Self(v.0 as i8, v.1 as i8)
    }

    pub fn intov(&self) -> (r: Vector)
        ensures
            r.0 == self.0,
            r.1 == self.1,
    {
        Vector(self.0 as i32, self.1 as i32)
    }

    pub fn new(x: i8, y: i8) -> (r: Self)
        ensures
            r == VectorSm(x, y),
    {
        Self(x, y)
    }

    pub fn add(&self, dir: &Self) -> (r: Self)
        requires
            fits_i8(self.0 + dir.0),
            fits_i8(self.1 + dir.1),
        ensures
            r.0 == self.0 + dir.0,
            r.1 == self.1 + dir.1,
    {
        Self(self.0 + dir.0, self.1 + dir.1)
    }

    pub fn double(&self) -> (r: Self)
        requires
            fits_i8(self.0 * 2),
            fits_i8(self.1 * 2),
        ensures
            r.0 == self.0 * 2,
            r.1 == self.1 * 2,
    {
        Self(self.0 * 2, self.1 * 2)
    }

    pub fn mul(&self, n: i8) -> (r: Self)
        requires
            fits_i8(self.0 * n),
            fits_i8(self.1 * n),
        ensures
            r.0 == self.0 * n,
            r.1 == self.1 * n,
    {
        Self(self.0 * n, self.1 * n)
    }

    /// Rotated a quarter turn: (x, y) becomes (y, -x).
    pub fn rotr(&self) -> (r: Self)
        requires
            self.0 != i8::MIN,
        ensures
            r.0 == self.1,
            r.1 == -self.0,
    {
        Self(self.1, -self.0)
    }

    /// Rotated a quarter turn the other way: (x, y) becomes (-y, x).
    pub fn rotl(&self) -> (r: Self)
        requires
            self.1 != i8::MIN,
        ensures
            r.0 == -self.1,
            r.1 == self.0,
    {
        Self(-self.1, self.0)
    }

    /// One step in direction `dir`.
    pub fn add_dir(&self, dir: &Move) -> (r: Self)
        requires
            fits_i8(self.0 + dx(*dir)),
            fits_i8(self.1 + dy(*dir)),
        ensures
            r.0 == self.0 + dx(*dir),
            r.1 == self.1 + dy(*dir),
    {
        match dir {
            Move::Up => Self(self.0, self.1 - 1),
            Move::Right => Self(self.0 + 1, self.1),
            Move::Down => Self(self.0, self.1 + 1),
            Move::Left => Self(self.0 - 1, self.1),
        }
    }

    /// Two steps in direction `dir`.
    pub fn add_dir2(&self, dir: &Move) -> (r: Self)
        requires
            fits_i8(self.0 + 2 * dx(*dir)),
            fits_i8(self.1 + 2 * dy(*dir)),
        ensures
            r.0 == self.0 + 2 * dx(*dir),
            r.1 == self.1 + 2 * dy(*dir),
    {
        match dir {
            Move::Up => Self(self.0, self.1 - 2),
            Move::Right => Self(self.0 + 2, self.1),
            Move::Down => Self(self.0, self.1 + 2),
            Move::Left => Self(self.0 - 2, self.1),
        }
    }

    /// Index of the point in row-major data of the given width.
    pub fn to_index(&self, width: u16) -> (r: usize)
        requires
            self.0 >= 0,
            self.1 >= 0,
            width * self.1 + self.0 <= usize::MAX,
        ensures
            r == width * self.1 + self.0,
    {
        assert(0 <= width * self.1 <= usize::MAX) by (nonlinear_arith)
            requires self.1 >= 0, width >= 0, width * self.1 + self.0 <= usize::MAX, self.0 >= 0;
        width as usize * (self.1 as usize) + (self.0 as usize)
    }

    /// The coordinates converted to `usize` (a negative one wraps around).
    pub fn to_usize(&self) -> (r: (usize, usize))
        ensures
            r.0 == self.0 as usize,
            r.1 == self.1 as usize,
    {
        (self.0 as usize, self.1 as usize)
    }

    /// "(x,y)".
    pub fn to_string(&self) -> (s: String)
        ensures
            s@ == pair_text(self.0 as int, self.1 as int),
    {
        vector_text(self.0 as i64, self.1 as i64)
    }
}

fn vector_text(x: i64, y: i64) -> (s: String)
    ensures
        s@ == pair_text(x as int, y as int),
{
    let mut s = String::new();
    string_push(&mut s, '(');
    push_decimal_i64(&mut s, x);
    string_push(&mut s, ',');
    push_decimal_i64(&mut s, y);
    string_push(&mut s, ')');
    assert(s@ =~= pair_text(x as int, y as int));
    s
}

impl Vector {
    pub fn new(x: i32, y: i32) -> (r: Vector)
        ensures
            r == Vector(x, y),
    {
        Self(x, y)
    }

    pub fn add(&self, dir: &Vector) -> (r: Self)
        requires
            fits_i32(self.0 + dir.0),
            fits_i32(self.1 + dir.1),
        ensures
            r.0 == self.0 + dir.0,
            r.1 == self.1 + dir.1,
    {
        Self(self.0 + dir.0, self.1 + dir.1)
    }

    pub fn double(&self) -> (r: Self)
        requires
            fits_i32(self.0 * 2),
            fits_i32(self.1 * 2),
        ensures
            r.0 == self.0 * 2,
            r.1 == self.1 * 2,
    {
        Self(self.0 * 2, self.1 * 2)
    }

    pub fn mul(&self, n: i32) -> (r: Self)
        requires
            fits_i32(self.0 * n),
            fits_i32(self.1 * n),
        ensures
            r.0 == self.0 * n,
            r.1 == self.1 * n,
    {
        Self(self.0 * n, self.1 * n)
    }

    /// Rotated a quarter turn: (x, y) becomes (y, -x).
    pub fn rotr(&self) -> (r: Self)
        requires
            self.0 != i32::MIN,
        ensures
            r.0 == self.1,
            r.1 == -self.0,
    {
        Self(self.1, -self.0)
    }

    /// Rotated a quarter turn the other way: (x, y) becomes (-y, x).
    pub fn rotl(&self) -> (r: Self)
        requires
            self.1 != i32::MIN,
        ensures
            r.0 == -self.1,
            r.1 == self.0,
    {
        Self(-self.1, self.0)
    }

    pub fn scale_by(&self, n: i32) -> (r: Self)
        requires
            fits_i32(self.0 * n),
            fits_i32(self.1 * n),
        ensures
            r.0 == self.0 * n,
            r.1 == self.1 * n,
    {
        Self(self.0 * n, self.1 * n)
    }

    /// The two coordinates, x first.
    pub fn as_array(&self) -> (r: Vec<i32>)
        ensures
            r@ == seq![self.0, self.1],
    {
        let mut v = Vec::new();
        v.push(self.0);
        v.push(self.1);
        v
    }

    pub fn eq(&self, a: &Vector) -> (r: bool)
        ensures
            r == (*self == *a),
    {
        self.0 == a.0 && self.1 == a.1
    }

    /// One step in direction `dir`.
    pub fn add_dir(&self, dir: &Move) -> (r: Self)
        requires
            fits_i32(self.0 + dx(*dir)),
            fits_i32(self.1 + dy(*dir)),
        ensures
            r.0 == self.0 + dx(*dir),
            r.1 == self.1 + dy(*dir),
    {
        match dir {
            Move::Up => Self(self.0, self.1 - 1),
            Move::Right => Self(self.0 + 1, self.1),
            Move::Down => Self(self.0, self.1 + 1),
            Move::Left => Self(self.0 - 1, self.1),
        }
    }

    /// Two steps in direction `dir`.
    pub fn add_dir2(&self, dir: &Move) -> (r: Self)
        requires
            fits_i32(self.0 + 2 * dx(*dir)),
            fits_i32(self.1 + 2 * dy(*dir)),
        ensures
            r.0 == self.0 + 2 * dx(*dir),
            r.1 == self.1 + 2 * dy(*dir),
    {
        match dir {
            Move::Up => Self(self.0, self.1 - 2),
            Move::Right => Self(self.0 + 2, self.1),
            Move::Down => Self(self.0, self.1 + 2),
            Move::Left => Self(self.0 - 2, self.1),
        }
    }

    /// Index of the point in row-major data of the given width.
    pub fn to_index(&self, width: u16) -> (r: usize)
        requires
            self.0 >= 0,
            self.1 >= 0,
            width * self.1 + self.0 <= usize::MAX,
        ensures
            r == width * self.1 + self.0,
    {
        assert(0 <= width * self.1 <= usize::MAX) by (nonlinear_arith)
            requires self.1 >= 0, width >= 0, width * self.1 + self.0 <= usize::MAX, self.0 >= 0;
        width as usize * (self.1 as usize) + (self.0 as usize)
    }

    /// The coordinates converted to `usize` (a negative one wraps around).
    pub fn to_usize(&self) -> (r: (usize, usize))
        ensures
            r.0 == self.0 as usize,
            r.1 == self.1 as usize,
    {
        (self.0 as usize, self.1 as usize)
    }

    /// "(x,y)".
    pub fn to_string(&self) -> (s: String)
        ensures
            s@ == pair_text(self.0 as int, self.1 as int),
    {
        vector_text(self.0 as i64, self.1 as i64)
    }
}

/// A move of the human, one step in a direction.
#[derive(Clone, Copy, PartialEq, Eq, Structural, Debug)]
pub enum Move {
    Up,
    Right,
    Down,
    Left,
}

/// The x part of a move's direction.
pub open spec fn dx(m: Move) -> int {
    match m {
        Move::Right => 1,
        Move::Left => -1,
        _ => 0,
    }
}

/// The y part of a move's direction (y grows downwards).
pub open spec fn dy(m: Move) -> int {
    match m {
        Move::Up => -1,
        Move::Down => 1,
        _ => 0,
    }
}

/// The number of a move: Up 0, Right 1, Down 2, Left 3.
pub open spec fn move_code(m: Move) -> int {
    match m {
        Move::Up => 0,
        Move::Right => 1,
        Move::Down => 2,
        Move::Left => 3,
    }
}

/// The move numbered `n`; every number from 3 up gives Left.
pub open spec fn move_of(n: int) -> Move {
    if n == 0 { Move::Up } else if n == 1 { Move::Right } else if n == 2 { Move::Down } else { Move::Left }
}

/// The letter of a move: U, R, D or L.
pub open spec fn move_letter(m: Move) -> char {
    match m {
        Move::Up => 'U',
        Move::Right => 'R',
        Move::Down => 'D',
        Move::Left => 'L',
    }
}

/// The opposite move.
pub open spec fn move_rev(m: Move) -> Move {
    match m {
        Move::Up => Move::Down,
        Move::Left => Move::Right,
        Move::Right => Move::Left,
        Move::Down => Move::Up,
    }
}

/// The letters of a sequence of moves.
pub open spec fn moves_text(ms: Seq<Move>) -> Seq<char> {
    ms.map_values(|m: Move| move_letter(m))
}

/// The four moves in the order the searches try them.
pub const ALLMOVES: [Move; 4] = [Move::Up, Move::Right, Move::Down, Move::Left];

impl Move {
    pub fn to_vector(&self) -> (r: Vector)
        ensures
            r.0 == dx(*self),
            r.1 == dy(*self),
    {
        match self {
            Move::Up => Vector(0, -1),
            Move::Right => Vector(1, 0),
            Move::Down => Vector(0, 1),
            Move::Left => Vector(-1, 0),
        }
    }

    pub fn to_vector_sm(&self) -> (r: VectorSm)
        ensures
            r.0 == dx(*self),
            r.1 == dy(*self),
    {
        match self {
            Move::Up => VectorSm(0, -1),
            Move::Right => VectorSm(1, 0),
            Move::Down => VectorSm(0, 1),
            Move::Left => VectorSm(-1, 0),
        }
    }

    /// The move's letter as a string: "U", "R", "D" or "L".
    pub fn to_string(&self) -> (s: String)
        ensures
            s@ == seq![move_letter(*self)],
    {
        let mut s = String::new();
        string_push(&mut s, self.to_char());
        assert(s@ =~= seq![move_letter(*self)]);
        s
    }

    pub fn to_char(&self) -> (c: char)
        ensures
            c == move_letter(*self),
    {
        match self {
            Move::Up => 'U',
            Move::Right => 'R',
            Move::Down => 'D',
            Move::Left => 'L',
        }
    }

    /// The number of the move: Up 0, Right 1, Down 2, Left 3.
    pub fn to_u8(&self) -> (n: u8)
        ensures
            n == move_code(*self),
    {
        match self {
            Move::Up => 0,
            Move::Right => 1,
            Move::Down => 2,
            Move::Left => 3,
        }
    }

    pub fn from_u32(n: u32) -> (r: Option<Move>)
        ensures
            n < 4 ==> r == Some(move_of(n as int)),
            n >= 4 ==> r is None,
    {
        match n {
            0 => Some(Move::Up),
            1 => Some(Move::Right),
            2 => Some(Move::Down),
            3 => Some(Move::Left),
            _ => None,
        }
    }

    /// 0 Up, 1 Right, 2 Down, anything else Left.
    pub fn from_u32_unchecked(n: u32) -> (r: Move)
        ensures
            r == move_of(n as int),
    {
        if n == 0 { Move::Up } else if n == 1 { Move::Right } else if n == 2 { Move::Down } else { Move::Left }
    }

    /// 0 Up, 1 Right, 2 Down, anything else Left.
    pub fn from_u64_unchecked(n: u64) -> (r: Move)
        ensures
            r == move_of(n as int),
    {
        if n == 0 { Move::Up } else if n == 1 { Move::Right } else if n == 2 { Move::Down } else { Move::Left }
    }

    /// 0 Up, 1 Right, 2 Down, anything else Left.
    pub fn from_u128_unchecked(n: u128) -> (r: Move)
        ensures
            r == move_of(n as int),
    {
        if n == 0 { Move::Up } else if n == 1 { Move::Right } else if n == 2 { Move::Down } else { Move::Left }
    }

    /// 0 Up, 1 Right, 2 Down, anything else Left.
    pub fn from_u8_unchecked(n: u8) -> (r: Move)
        ensures
            r == move_of(n as int),
    {
        if n == 0 { Move::Up } else if n == 1 { Move::Right } else if n == 2 { Move::Down } else { Move::Left }
    }

    pub fn from_u8(n: u8) -> (r: Option<Move>)
        ensures
            n < 4 ==> r == Some(move_of(n as int)),
            n >= 4 ==> r is None,
    {
        match n {
            0 => Some(Move::Up),
            1 => Some(Move::Right),
            2 => Some(Move::Down),
            3 => Some(Move::Left),
            _ => None,
        }
    }

    /// The opposite move.
    pub fn reverse(&self) -> (r: Move)
        ensures
            r == move_rev(*self),
    {
        match self {
            Move::Up => Move::Down,
            Move::Left => Move::Right,
            Move::Right => Move::Left,
            Move::Down => Move::Up,
        }
    }
}

/// A move's number gives the move back, and reversing twice is the identity.
pub proof fn lemma_move_code_roundtrip(m: Move)
    ensures
        move_of(move_code(m)) == m,
        0 <= move_code(m) < 4,
        move_rev(move_rev(m)) == m,
        dx(move_rev(m)) == -dx(m),
        dy(move_rev(m)) == -dy(m),
{
}

} // verus!

verus! {

/// A path (a sequence of moves) kept as 2 bits per move, 32 moves to a 64-bit block,
/// in a fixed-size store of `STACKMAX` blocks (at most 256 moves).
#[derive(Clone, Copy)]
pub struct ShrunkPath {
    count: u16,
    data: StackStack<u64>,
}

/// Number of block boundaries crossed when a path of `count` moves grows by `k`.
pub open spec fn blocks_needed(count: int, per_block: int, k: int) -> int {
    (count + k + per_block - 1) / per_block - (count + per_block - 1) / per_block
}

impl ShrunkPath {
    #[verifier::type_invariant]
    spec fn inv(&self) -> bool {
        self.count <= 256 && self.data.next <= STACKMAX
    }

    /// The move stored at position `i`.
    pub closed spec fn move_at(&self, i: int) -> Move {
        move_of(crate::bits::field64(self.data.stack@[i / 32], i % 32) as int)
    }

    /// The moves of the path, first move first.
    pub closed spec fn moves(&self) -> Seq<Move> {
        Seq::new(self.count as nat, |i: int| self.move_at(i))
    }

    /// A path holds at most 65535 moves (its count is 16 bits).
    pub proof fn lemma_moves_len(&self)
        ensures
            self.moves().len() <= 65535,
    {
    }

    /// The store is in its regular shape: one block per 32 moves, and no stray bits
    /// after the last move. A path built only by `new`, `from_path`, `push` and
    /// `append_path` keeps this shape; `clear` and `pop` may leave it.
    pub closed spec fn wf(&self) -> bool {
        &&& self.data.next == (self.count + 31) / 32
        &&& (self.count % 32 != 0 ==> self.data.stack@[(self.count / 32) as int] >> ((2 * (self.count % 32)) as u64) == 0)
    }

    /// Whether `k` more moves can be pushed without overflowing the store.
    pub closed spec fn room(&self, k: int) -> bool {
        &&& self.count + k <= 256
        &&& self.data.next + blocks_needed(self.count as int, 32, k) <= STACKMAX
    }

    /// The exact change of the store made by pushing the 2-bit code `c`.
    pub closed spec fn pushed_code(&self, new: Self, c: u64) -> bool {
        &&& new.count == self.count + 1
        &&& if self.count % 32 == 0 {
            &&& new.data.next == self.data.next + 1
            &&& new.data.stack@ == self.data.stack@.update(self.data.next as int, c)
        } else {
            &&& new.data.next == self.data.next
            &&& new.data.stack@ == self.data.stack@.update(
                (self.count / 32) as int,
                self.data.stack@[(self.count / 32) as int] | (c << ((2 * (self.count % 32)) as u64)),
            )
        }
    }

    /// Room for more moves is room for fewer.
    pub proof fn lemma_room_less(&self, a: int, b: int)
        requires
            0 <= a <= b,
            self.room(b),
        ensures
            self.room(a),
    {
        let c = self.count as int;
        vstd::arithmetic::div_mod::lemma_div_is_ordered(c + a + 31, c + b + 31, 32);
    }

    proof fn lemma_wf_room(&self, k: int)
        requires
            self.inv(),
            self.wf(),
            k >= 0,
        ensures
            self.room(k) <==> self.count + k <= 256,
    {
        let c = self.count as int;
        assert((c + 31) / 32 + ((c + k + 31) / 32 - (c + 31) / 32) == (c + k + 31) / 32);
        if c + k <= 256 {
            assert((c + k + 31) / 32 <= 8);
        }
    }

    proof fn lemma_push_room(&self, new: Self, c: u64)
        requires
            self.pushed_code(new, c),
        ensures
            forall|k: int| k >= 0 ==> (#[trigger] new.room(k) <==> self.room(k + 1)),
    {
        assert forall|k: int| k >= 0 implies (#[trigger] new.room(k) <==> self.room(k + 1)) by {
            let n = self.count as int;
            if n % 32 == 0 {
                assert((n + 1 + k + 31) / 32 - (n + 1 + 31) / 32 + 1 == (n + k + 1 + 31) / 32 - (n + 31) / 32);
            } else {
                assert((n + 1 + k + 31) / 32 - (n + 1 + 31) / 32 == (n + k + 1 + 31) / 32 - (n + 31) / 32);
            }
        }
    }

    proof fn lemma_push_view(&self, new: Self, c: u64)
        requires
            self.inv(),
            new.inv(),
            self.wf(),
            self.pushed_code(new, c),
            c < 4,
        ensures
            new.wf(),
            new.moves() == self.moves().push(move_of(c as int)),
    {
        let n = self.count as int;
        if n % 32 == 0 {
            crate::bits::lemma64_fresh(c);
            assert forall|i: int| 0 <= i < n implies #[trigger] new.move_at(i) == self.move_at(i) by {
                assert(i / 32 < n / 32);
            }
            assert(new.move_at(n) == move_of(c as int)) by {
                assert(n / 32 == self.data.next);
                assert(2 * (n % 32) == 0);
            }
            if (n + 1) % 32 != 0 {
                assert((n + 1) / 32 == n / 32);
                assert(2 * ((n + 1) % 32) == 2);
            }
        } else {
            let b = self.data.stack@[n / 32];
            let k = (n % 32) as u64;
            crate::bits::lemma64_or_same(b, c, k);
            assert forall|i: int| 0 <= i < n implies #[trigger] new.move_at(i) == self.move_at(i) by {
                if i / 32 == n / 32 {
                    crate::bits::lemma64_or_other(b, c, (i % 32) as u64, k);
                }
            }
            assert(new.move_at(n) == move_of(c as int));
            if (n + 1) % 32 != 0 {
                assert((n + 1) / 32 == n / 32);
                assert((n + 1) % 32 == k + 1);
            } else {
                assert((n + 1 + 31) / 32 == n / 32 + 1);
            }
        }
        assert(new.moves() =~= self.moves().push(move_of(c as int)));
    }

    fn push_code(&mut self, c: u64)
        requires
            old(self).room(1),
        ensures
            old(self).pushed_code(*final(self), c),
            forall|k: int| k >= 0 ==> (#[trigger] final(self).room(k) <==> old(self).room(k + 1)),
            old(self).wf() && c < 4 ==> final(self).wf() && final(self).moves() == old(self).moves().push(move_of(c as int)),
    {
        proof { use_type_invariant(&*self); }
        let mut d = self.data;
        if self.count % 32 == 0 {
            d.push(c);
        } else {
            let idx = (self.count / 32) as usize;
            let shift: u64 = (2 * (self.count % 32)) as u64;
            let x = d.stack[idx] | (c << shift);
            d.stack.set(idx, x);
        }
        self.data = d;
        self.count = self.count + 1;
        proof {
            old(self).lemma_push_room(*self, c);
            if old(self).wf() && c < 4 {
                old(self).lemma_push_view(*self, c);
            }
        }
    }

    /// Moves that can still be pushed before the store is full.
    pub closed spec fn free_moves(&self) -> int {
        256 - self.count
    }
}

/// A path store: a sequence of moves with push, append and text.
pub trait PathTrait: Sized {
    /// The moves of the path.
    spec fn path(&self) -> Seq<Move>;

    /// The store is in its regular shape (see the implementations).
    spec fn consistent(&self) -> bool;

    /// Whether `k` more moves fit.
    spec fn fits(&self, k: int) -> bool;

    fn new() -> (r: Self)
        ensures
            r.path() == Seq::<Move>::empty(),
            r.consistent(),
            forall|k: int| 0 <= k ==> (#[trigger] r.fits(k) <==> k <= Self::capacity());

    /// How many moves an empty store holds.
    spec fn capacity() -> int;

    /// Forgets the moves: the store is empty again, in its regular shape, with all its
    /// room.
    fn clear(&mut self)
        ensures
            final(self).path() == Seq::<Move>::empty(),
            final(self).consistent(),
            forall|k: int| 0 <= k ==> (#[trigger] final(self).fits(k) <==> k <= Self::capacity());

    fn len(&self) -> (r: u16)
        ensures
            r == self.path().len();

    fn from_path(path: &Vec<Move>) -> (r: Self)
        requires
            path@.len() <= Self::capacity(),
        ensures
            r.path() == path@,
            r.consistent(),
            forall|k: int| 0 <= k ==> (#[trigger] r.fits(k) <==> path@.len() + k <= Self::capacity());

    fn push(&mut self, move1: &Move)
        requires
            old(self).fits(1),
        ensures
            forall|k: int| k >= 0 ==> (#[trigger] final(self).fits(k) <==> old(self).fits(k + 1)),
            final(self).path().len() == old(self).path().len() + 1,
            old(self).consistent() ==> final(self).consistent() && final(self).path() == old(self).path().push(*move1);

    /// Pushes the move numbered `move1` (0 Up, 1 Right, 2 Down, 3 Left).
    fn push_u8(&mut self, move1: u8)
        requires
            old(self).fits(1),
        ensures
            forall|k: int| k >= 0 ==> (#[trigger] final(self).fits(k) <==> old(self).fits(k + 1)),
            final(self).path().len() == old(self).path().len() + 1,
            old(self).consistent() && move1 < 4 ==> final(self).consistent() && final(self).path() == old(self).path().push(move_of(move1 as int));

    fn append_path(&mut self, path: &Vec<Move>)
        requires
            old(self).fits(path@.len() as int),
        ensures
            forall|k: int| k >= 0 ==> (#[trigger] final(self).fits(k) <==> old(self).fits(k + path@.len())),
            final(self).path().len() == old(self).path().len() + path@.len(),
            old(self).consistent() ==> final(self).consistent() && final(self).path() == old(self).path() + path@;

    /// Appends the moves numbered by the items of `ss`, bottom item first.
    fn append_path_ss8(&mut self, ss: &StackStack8x64)
        requires
            ss.next <= 64,
            old(self).fits(ss.next as int),
        ensures
            forall|k: int| k >= 0 ==> (#[trigger] final(self).fits(k) <==> old(self).fits(k + ss.next)),
            final(self).path().len() == old(self).path().len() + ss.next,
            old(self).consistent() ==> final(self).consistent()
                && final(self).path() == old(self).path() + ss.items().map_values(|n: u8| move_of(n as int));

    /// The letters of the moves, e.g. "UURDL".
    fn to_string(&self) -> (s: String)
        ensures
            s@ == moves_text(self.path());
}

} // verus!

verus! {

impl PathTrait for ShrunkPath {
    open spec fn path(&self) -> Seq<Move> {
        self.moves()
    }

    open spec fn consistent(&self) -> bool {
        self.wf()
    }

    open spec fn fits(&self, k: int) -> bool {
        self.room(k)
    }

    open spec fn capacity() -> int {
        256
    }

    fn new() -> (r: Self) {
        let r = Self { count: 0, data: StackStack::<u64>::new() };
        proof {
            assert(r.moves() =~= Seq::<Move>::empty());
            assert forall|k: int| 0 <= k implies (#[trigger] r.room(k) <==> k <= 256) by {
                r.lemma_wf_room(k);
            }
        }
        r
    }

    fn clear(&mut self) {
        *self = <Self as PathTrait>::new();
    }

    fn len(&self) -> (r: u16) {
        self.count
    }

    fn from_path(path: &Vec<Move>) -> (r: Self) {
        let mut r = <Self as PathTrait>::new();
        proof {
            use_type_invariant(&r);
            r.lemma_wf_room(path@.len() as int);
        }
        r.append_path(path);
        proof {
            use_type_invariant(&r);
            assert(Seq::<Move>::empty() + path@ =~= path@);
            assert forall|k: int| 0 <= k implies (#[trigger] r.room(k) <==> path@.len() + k <= 256) by {
                r.lemma_wf_room(k);
            }
        }
        r
    }

    fn push(&mut self, move1: &Move) {
        let c = move1.to_u8() as u64;
        self.push_code(c);
        proof { lemma_move_code_roundtrip(*move1); }
    }

    fn push_u8(&mut self, move1: u8) {
        self.push_code(move1 as u64);
    }

    fn append_path(&mut self, path: &Vec<Move>) {
        let ghost start = *self;
        let mut i: usize = 0;
        while i < path.len()
            invariant
                i <= path@.len(),
                self.count == start.count + i,
                forall|k: int| k >= 0 ==> (#[trigger] self.room(k) <==> start.room(k + i)),
                start.room(path@.len() as int),
                start.wf() ==> self.wf() && self.moves() == start.moves() + path@.take(i as int),
            decreases path@.len() - i,
        {
            assert(self.room(1) <==> start.room(1 + i));
            let ghost before = *self;
            let c = path[i].to_u8() as u64;
            proof { lemma_move_code_roundtrip(path@[i as int]); }
            self.push_code(c);
            proof {
                assert forall|k: int| k >= 0 implies (#[trigger] self.room(k) <==> start.room(k + i + 1)) by {
                    assert(self.room(k) <==> before.room(k + 1));
                    assert(before.room(k + 1) <==> start.room(k + 1 + i));
                }
                if start.wf() {
                    assert(start.moves() + path@.take(i + 1) =~= (start.moves() + path@.take(i as int)).push(path@[i as int]));
                }
            }
            i = i + 1;
        }
        proof {
            assert(path@.take(path@.len() as int) =~= path@);
        }
    }

    fn append_path_ss8(&mut self, ss: &StackStack8x64) {
        let ghost start = *self;
        let ghost ms = ss.items().map_values(|n: u8| move_of(n as int));
        let mut i: usize = 0;
        while i < ss.next
            invariant
                ss.next <= 64,
                i <= ss.next,
                ms == ss.items().map_values(|n: u8| move_of(n as int)),
                self.count == start.count + i,
                forall|k: int| k >= 0 ==> (#[trigger] self.room(k) <==> start.room(k + i)),
                start.room(ss.next as int),
                start.wf() ==> self.wf() && self.moves() == start.moves() + ms.take(i as int),
            decreases ss.next - i,
        {
            assert(self.room(1) <==> start.room(1 + i));
            let ghost before = *self;
            let m = Move::from_u8_unchecked(ss.stack[i]);
            proof { lemma_move_code_roundtrip(m); }
            self.push_code(m.to_u8() as u64);
            proof {
                assert forall|k: int| k >= 0 implies (#[trigger] self.room(k) <==> start.room(k + i + 1)) by {
                    assert(self.room(k) <==> before.room(k + 1));
                    assert(before.room(k + 1) <==> start.room(k + 1 + i));
                }
                if start.wf() {
                    assert(ms[i as int] == m);
                    assert(start.moves() + ms.take(i + 1) =~= (start.moves() + ms.take(i as int)).push(m));
                }
            }
            i = i + 1;
        }
        proof {
            assert(ms.take(ss.next as int) =~= ms);
        }
    }

    fn to_string(&self) -> (s: String) {
        let path = self.to_path();
        moves_to_text(&path)
    }
}

/// The letters of the moves, e.g. "UURDL".
pub fn moves_to_text(moves: &Vec<Move>) -> (s: String)
    ensures
        s@ == moves_text(moves@),
{
    let mut s = String::new();
    let mut i: usize = 0;
    while i < moves.len()
        invariant
            i <= moves@.len(),
            s@ == moves_text(moves@.take(i as int)),
        decreases moves@.len() - i,
    {
        string_push(&mut s, moves[i].to_char());
        assert(moves_text(moves@.take(i + 1)) =~= moves_text(moves@.take(i as int)).push(move_letter(moves@[i as int])));
        i = i + 1;
    }
    assert(moves@.take(moves@.len() as int) =~= moves@);
    s
}

impl ShrunkPath {
    /// Whether `k` more moves fit; for a path in its regular shape this is whether the
    /// path stays within 256 moves.
    pub fn has_room(&self, k: usize) -> (r: bool)
        ensures
            r == self.room(k as int),
            self.wf() ==> (r == (self.moves().len() + k <= 256)),
    {
        proof { use_type_invariant(self); }
        let c = self.count as usize;
        if k > 256 - c {
            return false;
        }
        let d = self.data.next;
        let need = (c + k + 31) / 32 - (c + 31) / 32;
        let r = d + need <= STACKMAX;
        proof {
            if self.wf() {
                self.lemma_wf_room(k as int);
            }
        }
        r
    }

    /// An empty path (the capacity hint is not used).
    pub fn with_capacity(_c: usize) -> (r: Self)
        ensures
            r.moves() == Seq::<Move>::empty(),
            r.wf(),
            forall|k: int| 0 <= k ==> (#[trigger] r.room(k) <==> k <= 256),
    {
        let r = <Self as PathTrait>::new();
        assert forall|k: int| 0 <= k implies (#[trigger] r.room(k) <==> k <= 256) by {
            assert(r.fits(k) <==> k <= 256);
        }
        r
    }

    /// The moves of the path.
    pub fn to_path(&self) -> (path: Vec<Move>)
        ensures
            path@ == self.moves(),
    {
        proof { use_type_invariant(self); }
        let mut path: Vec<Move> = Vec::new();
        let n = self.count as usize;
        let mut i: usize = 0;
        while i < n
            invariant
                n == self.count <= 256,
                i <= n,
                path@ == self.moves().take(i as int),
            decreases n - i,
        {
            let block = self.data.stack[i / 32];
            let shr = block >> ((2 * (i % 32)) as u64);
            path.push(Move::from_u64_unchecked(shr & 0x03));
            assert(path@ =~= self.moves().take(i + 1));
            i = i + 1;
        }
        assert(self.moves().take(n as int) =~= self.moves());
        path
    }

    /// The 2-bit code of move `i`; `i` must be below the length.
    pub fn get_u(&self, i: usize) -> (r: u64)
        requires
            i < self.moves().len(),
        ensures
            r < 4,
            move_of(r as int) == self.moves()[i as int],
    {
        proof { use_type_invariant(self); }
        let r = (self.data.stack[i / 32] >> ((2 * (i % 32)) as u64)) & 0x03;
        proof { crate::bits::lemma64_field_small(self.data.stack@[(i / 32) as int], (i % 32) as u64); }
        r
    }

    /// Replaces the 2-bit field of move `i` by `val`; `i` must be below the length.
    pub fn set_u(&mut self, i: usize, val: u64)
        requires
            i < old(self).moves().len(),
        ensures
            final(self).moves().len() == old(self).moves().len(),
            forall|k: int| k >= 0 ==> (#[trigger] final(self).room(k) <==> old(self).room(k)),
            val < 4 ==> final(self).moves() == old(self).moves().update(i as int, move_of(val as int)),
            val < 4 && old(self).wf() ==> final(self).wf(),
    {
        proof { use_type_invariant(&*self); }
        let bidx: u64 = (2 * (i % 32)) as u64;
        let mask: u64 = !(0x03u64 << bidx);
        let mut d = self.data;
        let maskdata = d.stack[i / 32] & mask;
        let newdata = maskdata | (val << bidx);
        d.stack.set(i / 32, newdata);
        self.data = d;
        proof {
            if val < 4 {
                let b = old(self).data.stack@[(i / 32) as int];
                assert forall|j: int| 0 <= j < self.count implies #[trigger] self.move_at(j) == (if j == i { move_of(val as int) } else { old(self).move_at(j) }) by {
                    if j / 32 == i / 32 {
                        crate::bits::lemma64_set(b, val, (j % 32) as u64, (i % 32) as u64);
                    }
                }
                assert(self.moves() =~= old(self).moves().update(i as int, move_of(val as int)));
                if old(self).wf() && self.count % 32 != 0 && (self.count / 32) as int == i / 32 {
                    crate::bits::lemma64_set(b, val, (self.count % 32) as u64, (i % 32) as u64);
                }
            }
        }
    }

    /// Removes and returns the last move; the path must not be empty.
    pub fn pop(&mut self) -> (m: Move)
        requires
            old(self).moves().len() > 0,
        ensures
            final(self).moves() == old(self).moves().drop_last(),
            m == old(self).moves().last(),
            old(self).wf() ==> final(self).wf(),
            old(self).wf() ==> forall|k: int| k >= 0 ==> (#[trigger] final(self).room(k) <==> old(self).room(k - 1)),
            old(self).wf() ==> final(self).room(1),
    {
        proof { use_type_invariant(&*self); }
        let i = (self.count - 1) as usize;
        let idx = i / 32;
        let k = (i % 32) as u64;
        let block = self.data.stack[idx];
        let shr = block >> (2 * k);
        let mut d = self.data;
        if k == 0 {
            if d.next == idx + 1 {
                d.pop();
            }
        } else {
            let nb = block & !(3u64 << (2 * k));
            d.stack.set(idx, nb);
            proof {
                assert forall|j: int| 0 <= j < k implies #[trigger] crate::bits::field64(nb, j) == crate::bits::field64(block, j) by {
                    crate::bits::lemma64_clear_field(block, j as u64, k);
                }
            }
        }
        let ghost before = *self;
        self.data = d;
        self.count = self.count - 1;
        proof {
            assert forall|j: int| 0 <= j < self.count implies #[trigger] self.move_at(j) == before.move_at(j) by {
                if j / 32 == idx as int {
                    assert(j % 32 < k);
                }
            }
            assert(self.moves() =~= old(self).moves().drop_last());
            if old(self).wf() {
                if k != 0 {
                    crate::bits::lemma64_clear_top(block, k, (i + 1) % 32 == 0);
                }
                let c = self.count as int;
                assert forall|r: int| r >= 0 implies (#[trigger] self.room(r) <==> old(self).room(r - 1)) by {
                    if r >= 1 {
                        assert((c + r + 31) / 32 - (c + 31) / 32 + (c + 31) / 32 == (c + 1 + (r - 1) + 31) / 32 - (c + 1 + 31) / 32 + (c + 1 + 31) / 32);
                    }
                }
                use_type_invariant(&*self);
                self.lemma_wf_room(1);
            }
        }
        Move::from_u64_unchecked(shr & 0x03)
    }

    /// Reverses the order of the moves in place.
    pub fn reverse(&mut self)
        ensures
            final(self).moves() == old(self).moves().reverse(),
            old(self).wf() ==> final(self).wf(),
            forall|k: int| k >= 0 ==> (#[trigger] final(self).room(k) <==> old(self).room(k)),
    {
        if self.count < 2 {
            assert(self.moves() =~= old(self).moves().reverse());
            return;
        }
        let n = self.count as usize;
        let mut i: usize = 0;
        while i < n / 2
            invariant
                n == self.count == old(self).count,
                i <= n / 2,
                old(self).wf() ==> self.wf(),
                forall|k: int| k >= 0 ==> (#[trigger] self.room(k) <==> old(self).room(k)),
                forall|j: int| 0 <= j < i ==> #[trigger] self.moves()[j] == old(self).moves()[n - 1 - j],
                forall|j: int| n - i <= j < n ==> #[trigger] self.moves()[j] == old(self).moves()[n - 1 - j],
                forall|j: int| i <= j < n - i ==> #[trigger] self.moves()[j] == old(self).moves()[j],
            decreases n / 2 - i,
        {
            let revi = n - i - 1;
            let iv = self.get_u(i);
            let rv = self.get_u(revi);
            let ghost s0 = self.moves();
            self.set_u(i, rv);
            self.set_u(revi, iv);
            proof {
                assert(self.moves() == s0.update(i as int, move_of(rv as int)).update(revi as int, move_of(iv as int)));
            }
            i = i + 1;
        }
        assert(self.moves() =~= old(self).moves().reverse());
    }
}

/// The letters of a path of moves, e.g. "UURDL".
pub fn moves_to_string(moves: &Vec<Move>) -> (s: String)
    ensures
        s@ == moves_text(moves@),
{
    moves_to_text(moves)
}

} // verus!

verus! {

/// Prefix blocks of 64 moves shared between paths, found again by their bits.
#[derive(Clone)]
pub struct SuperPrefix {
    data: Vec<u128>,
}

impl SuperPrefix {
    /// The stored blocks, oldest first.
    pub closed spec fn blocks(&self) -> Seq<u128> {
        self.data@
    }

    pub fn new() -> (r: Self)
        ensures
            r.blocks() == Seq::<u128>::empty(),
    {
        Self { data: Vec::new() }
    }

    /// The block stored at index `i`; `i` must be below the number of blocks.
    pub fn get_by_index(&self, i: u32) -> (r: u128)
        requires
            i < self.blocks().len(),
        ensures
            r == self.blocks()[i as int],
    {
        self.data[i as usize]
    }

    /// Stores `d` as a new block and returns its index.
    pub fn add_bits_without_searching(&mut self, d: u128) -> (r: u32)
        requires
            old(self).blocks().len() <= u32::MAX,
        ensures
            final(self).blocks() == old(self).blocks().push(d),
            r == old(self).blocks().len(),
    {
        let i = self.data.len();
        self.data.insert(i, d);
        i as u32
    }

    /// The index of the first block equal to `d`, storing `d` first when there is none.
    pub fn add_bits(&mut self, d: u128) -> (r: u32)
        requires
            old(self).blocks().len() <= u32::MAX,
        ensures
            old(self).blocks().contains(d) ==> final(self).blocks() == old(self).blocks()
                && r < old(self).blocks().len()
                && old(self).blocks()[r as int] == d
                && forall|j: int| 0 <= j < r ==> old(self).blocks()[j] != d,
            !old(self).blocks().contains(d) ==> final(self).blocks() == old(self).blocks().push(d)
                && r == old(self).blocks().len(),
    {
        let mut idx: usize = 0;
        while idx < self.data.len()
            invariant
                self.data@ == old(self).data@,
                idx <= self.data@.len() <= u32::MAX,
                forall|j: int| 0 <= j < idx ==> self.data@[j] != d,
            decreases self.data@.len() - idx,
        {
            if self.data[idx] == d {
                return idx as u32;
            }
            idx = idx + 1;
        }
        self.add_bits_without_searching(d)
    }

    pub fn len(&self) -> (r: usize)
        ensures
            r == self.blocks().len(),
    {
        self.data.len()
    }
}

/// A path kept as 2 bits per move, with room for a shared prefix (never set here),, 64 moves to a 128-bit block,
/// in a fixed-size store of `STACKMAX` blocks (at most 512 moves).
#[derive(Clone, Copy)]
pub struct SuperShrunkPath {
    compressed_data: Option<u32>,
    count: u16,
    data: StackStack<u128>,
}


impl SuperShrunkPath {
    #[verifier::type_invariant]
    spec fn inv(&self) -> bool {
        self.count <= 512 && self.data.next <= STACKMAX && self.compressed_data is None
    }

    /// The move stored at position `i`.
    pub closed spec fn move_at(&self, i: int) -> Move {
        move_of(crate::bits::field128(self.data.stack@[i / 64], i % 64) as int)
    }

    /// The moves of the path, first move first.
    pub closed spec fn moves(&self) -> Seq<Move> {
        Seq::new(self.count as nat, |i: int| self.move_at(i))
    }

    /// The store is in its regular shape: one block per 64 moves, and no stray bits
    /// after the last move. A path built only by `new`, `from_path`, `push` and
    /// `append_path` keeps this shape; `clear` and `pop` may leave it.
    pub closed spec fn wf(&self) -> bool {
        &&& self.data.next == (self.count + 63) / 64
        &&& (self.count % 64 != 0 ==> self.data.stack@[(self.count / 64) as int] >> ((2 * (self.count % 64)) as u128) == 0)
    }

    /// Whether `k` more moves can be pushed without overflowing the store.
    pub closed spec fn room(&self, k: int) -> bool {
        &&& self.count + k <= 512
        &&& self.data.next + blocks_needed(self.count as int, 64, k) <= STACKMAX
    }

    /// The exact change of the store made by pushing the 2-bit code `c`.
    pub closed spec fn pushed_code(&self, new: Self, c: u128) -> bool {
        &&& new.count == self.count + 1
        &&& new.compressed_data == self.compressed_data
        &&& if self.count % 64 == 0 {
            &&& new.data.next == self.data.next + 1
            &&& new.data.stack@ == self.data.stack@.update(self.data.next as int, c)
        } else {
            &&& new.data.next == self.data.next
            &&& new.data.stack@ == self.data.stack@.update(
                (self.count / 64) as int,
                self.data.stack@[(self.count / 64) as int] | (c << ((2 * (self.count % 64)) as u128)),
            )
        }
    }

    proof fn lemma_wf_room(&self, k: int)
        requires
            self.inv(),
            self.wf(),
            k >= 0,
        ensures
            self.room(k) <==> self.count + k <= 512,
    {
        let c = self.count as int;
        assert((c + 63) / 64 + ((c + k + 63) / 64 - (c + 63) / 64) == (c + k + 63) / 64);
        if c + k <= 512 {
            assert((c + k + 63) / 64 <= 8);
        }
    }

    proof fn lemma_push_room(&self, new: Self, c: u128)
        requires
            self.pushed_code(new, c),
        ensures
            forall|k: int| k >= 0 ==> (#[trigger] new.room(k) <==> self.room(k + 1)),
    {
        assert forall|k: int| k >= 0 implies (#[trigger] new.room(k) <==> self.room(k + 1)) by {
            let n = self.count as int;
            if n % 64 == 0 {
                assert((n + 1 + k + 63) / 64 - (n + 1 + 63) / 64 + 1 == (n + k + 1 + 63) / 64 - (n + 63) / 64);
            } else {
                assert((n + 1 + k + 63) / 64 - (n + 1 + 63) / 64 == (n + k + 1 + 63) / 64 - (n + 63) / 64);
            }
        }
    }

    proof fn lemma_push_view(&self, new: Self, c: u128)
        requires
            self.inv(),
            new.inv(),
            self.wf(),
            self.pushed_code(new, c),
            c < 4,
        ensures
            new.wf(),
            new.moves() == self.moves().push(move_of(c as int)),
    {
        let n = self.count as int;
        if n % 64 == 0 {
            crate::bits::lemma128_fresh(c);
            assert forall|i: int| 0 <= i < n implies #[trigger] new.move_at(i) == self.move_at(i) by {
                assert(i / 64 < n / 64);
            }
            assert(new.move_at(n) == move_of(c as int)) by {
                assert(n / 64 == self.data.next);
                assert(2 * (n % 64) == 0);
            }
            if (n + 1) % 64 != 0 {
                assert((n + 1) / 64 == n / 64);
                assert(2 * ((n + 1) % 64) == 2);
            }
        } else {
            let b = self.data.stack@[n / 64];
            let k = (n % 64) as u128;
            crate::bits::lemma128_or_same(b, c, k);
            assert forall|i: int| 0 <= i < n implies #[trigger] new.move_at(i) == self.move_at(i) by {
                if i / 64 == n / 64 {
                    crate::bits::lemma128_or_other(b, c, (i % 64) as u128, k);
                }
            }
            assert(new.move_at(n) == move_of(c as int));
            if (n + 1) % 64 != 0 {
                assert((n + 1) / 64 == n / 64);
                assert((n + 1) % 64 == k + 1);
            } else {
                assert((n + 1 + 63) / 64 == n / 64 + 1);
            }
        }
        assert(new.moves() =~= self.moves().push(move_of(c as int)));
    }

    fn push_code(&mut self, c: u128)
        requires
            old(self).room(1),
        ensures
            old(self).pushed_code(*final(self), c),
            forall|k: int| k >= 0 ==> (#[trigger] final(self).room(k) <==> old(self).room(k + 1)),
            old(self).wf() && c < 4 ==> final(self).wf() && final(self).moves() == old(self).moves().push(move_of(c as int)),
    {
        proof { use_type_invariant(&*self); }
        let mut d = self.data;
        if self.count % 64 == 0 {
            d.push(c);
        } else {
            let idx = (self.count / 64) as usize;
            let shift: u128 = (2 * (self.count % 64)) as u128;
            let x = d.stack[idx] | (c << shift);
            d.stack.set(idx, x);
        }
        self.data = d;
        self.count = self.count + 1;
        proof {
            old(self).lemma_push_room(*self, c);
            if old(self).wf() && c < 4 {
                old(self).lemma_push_view(*self, c);
            }
        }
    }

    /// Moves that can still be pushed before the store is full.
    pub closed spec fn free_moves(&self) -> int {
        512 - self.count
    }
}


} // verus!

verus! {

impl PathTrait for SuperShrunkPath {
    open spec fn path(&self) -> Seq<Move> {
        self.moves()
    }

    open spec fn consistent(&self) -> bool {
        self.wf()
    }

    open spec fn fits(&self, k: int) -> bool {
        self.room(k)
    }

    open spec fn capacity() -> int {
        512
    }

    fn new() -> (r: Self) {
        let r = Self { compressed_data: None, count: 0, data: StackStack::<u128>::new() };
        proof {
            assert(r.moves() =~= Seq::<Move>::empty());
            assert forall|k: int| 0 <= k implies (#[trigger] r.room(k) <==> k <= 512) by {
                r.lemma_wf_room(k);
            }
        }
        r
    }

    fn clear(&mut self) {
        *self = <Self as PathTrait>::new();
    }

    fn len(&self) -> (r: u16) {
        proof { use_type_invariant(self); }
        let x: u16 = if self.compressed_data.is_none() { 0 } else { 64 };
        self.count + x
    }

    fn from_path(path: &Vec<Move>) -> (r: Self) {
        let mut r = <Self as PathTrait>::new();
        proof {
            use_type_invariant(&r);
            r.lemma_wf_room(path@.len() as int);
        }
        r.append_path(path);
        proof {
            use_type_invariant(&r);
            assert(Seq::<Move>::empty() + path@ =~= path@);
            assert forall|k: int| 0 <= k implies (#[trigger] r.room(k) <==> path@.len() + k <= 512) by {
                r.lemma_wf_room(k);
            }
        }
        r
    }

    fn push(&mut self, move1: &Move) {
        let c = move1.to_u8() as u128;
        self.push_code(c);
        proof { lemma_move_code_roundtrip(*move1); }
    }

    fn push_u8(&mut self, move1: u8) {
        self.push_code(move1 as u128);
    }

    fn append_path(&mut self, path: &Vec<Move>) {
        let ghost start = *self;
        let mut i: usize = 0;
        while i < path.len()
            invariant
                i <= path@.len(),
                self.count == start.count + i,
                forall|k: int| k >= 0 ==> (#[trigger] self.room(k) <==> start.room(k + i)),
                start.room(path@.len() as int),
                start.wf() ==> self.wf() && self.moves() == start.moves() + path@.take(i as int),
            decreases path@.len() - i,
        {
            assert(self.room(1) <==> start.room(1 + i));
            let ghost before = *self;
            let c = path[i].to_u8() as u128;
            proof { lemma_move_code_roundtrip(path@[i as int]); }
            self.push_code(c);
            proof {
                assert forall|k: int| k >= 0 implies (#[trigger] self.room(k) <==> start.room(k + i + 1)) by {
                    assert(self.room(k) <==> before.room(k + 1));
                    assert(before.room(k + 1) <==> start.room(k + 1 + i));
                }
                if start.wf() {
                    assert(start.moves() + path@.take(i + 1) =~= (start.moves() + path@.take(i as int)).push(path@[i as int]));
                }
            }
            i = i + 1;
        }
        proof {
            assert(path@.take(path@.len() as int) =~= path@);
        }
    }

    fn append_path_ss8(&mut self, ss: &StackStack8x64) {
        let ghost start = *self;
        let ghost ms = ss.items().map_values(|n: u8| move_of(n as int));
        let mut i: usize = 0;
        while i < ss.next
            invariant
                ss.next <= 64,
                i <= ss.next,
                ms == ss.items().map_values(|n: u8| move_of(n as int)),
                self.count == start.count + i,
                forall|k: int| k >= 0 ==> (#[trigger] self.room(k) <==> start.room(k + i)),
                start.room(ss.next as int),
                start.wf() ==> self.wf() && self.moves() == start.moves() + ms.take(i as int),
            decreases ss.next - i,
        {
            assert(self.room(1) <==> start.room(1 + i));
            let ghost before = *self;
            let m = Move::from_u8_unchecked(ss.stack[i]);
            proof { lemma_move_code_roundtrip(m); }
            self.push_code(m.to_u8() as u128);
            proof {
                assert forall|k: int| k >= 0 implies (#[trigger] self.room(k) <==> start.room(k + i + 1)) by {
                    assert(self.room(k) <==> before.room(k + 1));
                    assert(before.room(k + 1) <==> start.room(k + 1 + i));
                }
                if start.wf() {
                    assert(ms[i as int] == m);
                    assert(start.moves() + ms.take(i + 1) =~= (start.moves() + ms.take(i as int)).push(m));
                }
            }
            i = i + 1;
        }
        proof {
            assert(ms.take(ss.next as int) =~= ms);
        }
    }

    fn to_string(&self) -> (s: String) {
        let path = self.to_path();
        moves_to_text(&path)
    }
}


impl SuperShrunkPath {
    /// The moves of the path.
    pub fn to_path(&self) -> (path: Vec<Move>)
        ensures
            path@ == self.moves(),
    {
        proof { use_type_invariant(self); }
        let mut path: Vec<Move> = Vec::new();
        let n = self.count as usize;
        let mut i: usize = 0;
        while i < n
            invariant
                n == self.count <= 512,
                i <= n,
                path@ == self.moves().take(i as int),
            decreases n - i,
        {
            let block = self.data.stack[i / 64];
            let shr = block >> ((2 * (i % 64)) as u128);
            path.push(Move::from_u128_unchecked(shr & 0x03u128));
            assert(path@ =~= self.moves().take(i + 1));
            i = i + 1;
        }
        assert(self.moves().take(n as int) =~= self.moves());
        path
    }

}

} // verus!
