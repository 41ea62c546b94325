//! The first console game: its own objects (boulders for boxes), moves by compass point,
//! a level read from lines of text, and a state that moves the human and pushes boulders.
use vstd::prelude::*;
use vstd::string::StringExecFns;
use crate::strutil::{string_push, push_decimal, decimal, str_to_chars};
use vstd::utf8::is_ascii_chars;
use crate::textread::{byte_len, byte_len_of, lemma_ascii_byte_len};

verus! {

/// A move by compass point.
#[derive(Clone, Copy, PartialEq, Eq, Structural, Debug)]
pub enum Move {
    North,
    East,
    South,
    West,
}

/// The x step of a move.
pub open spec fn mdx(m: Move) -> int {
    match m {
        Move::North => 0,
        Move::East => 1,
        Move::South => 0,
        Move::West => -1,
    }
}

/// The y step of a move (y grows southwards).
pub open spec fn mdy(m: Move) -> int {
    match m {
        Move::North => -1,
        Move::East => 0,
        Move::South => 1,
        Move::West => 0,
    }
}

/// The letter of a move: n, e, s or w.
pub open spec fn move_letter(m: Move) -> char {
    match m {
        Move::North => 'n',
        Move::East => 'e',
        Move::South => 's',
        Move::West => 'w',
    }
}

/// The letters of a list of moves.
pub open spec fn moves_letters(ms: Seq<Move>) -> Seq<char> {
    ms.map_values(|m: Move| move_letter(m))
}

impl Move {
    /// The step of this move.
    pub fn to_dir(&self) -> (d: Direction)
        ensures
            d.0 == mdx(*self),
            d.1 == mdy(*self),
    {
        match self {
            Move::North => Direction(0, -1),
            Move::East => Direction(1, 0),
            Move::South => Direction(0, 1),
            Move::West => Direction(-1, 0),
        }
    }

    /// The letter of this move.
    pub fn to_string(&self) -> (s: String)
        ensures
            s@ == seq![move_letter(*self)],
    {
        let mut s = String::new();
        let c = match self {
            Move::North => 'n',
            Move::East => 'e',
            Move::South => 's',
            Move::West => 'w',
        };
        string_push(&mut s, c);
        s
    }
}

/// The four moves, in the order the options are listed.
pub const ALLMOVES: [Move; 4] = [Move::North, Move::East, Move::South, Move::West];

/// What stands on a cell.
#[derive(Clone, Copy, PartialEq, Eq, Structural, Debug)]
pub enum Object {
    Wall,
    Space,
    Boulder,
    Hole,
    Human,
    HumanInHole,
    BoulderInHole,
}

/// The character of an object.
pub open spec fn object_char(o: Object) -> char {
    match o {
        Object::Wall => '#',
        Object::Space => ' ',
        Object::Boulder => '*',
        Object::Hole => 'O',
        Object::Human => '&',
        Object::HumanInHole => '%',
        Object::BoulderInHole => '@',
    }
}

impl Object {
    /// The character of this object.
    pub fn to_char(&self) -> (c: char)
        ensures
            c == object_char(*self),
    {
        match self {
            Object::Wall => '#',
            Object::Space => ' ',
            Object::Boulder => '*',
            Object::Hole => 'O',
            Object::Human => '&',
            Object::HumanInHole => '%',
            Object::BoulderInHole => '@',
        }
    }
}

/// A step on the grid.
#[derive(Clone, Copy, PartialEq, Eq, Structural, Debug)]
pub struct Direction(pub i32, pub i32);

impl Direction {
    /// The step taken twice; the step must be small enough to double.
    pub fn double(&self) -> (d: Direction)
        requires
            -0x4000_0000 <= self.0 < 0x4000_0000,
            -0x4000_0000 <= self.1 < 0x4000_0000,
        ensures
            d.0 == 2 * self.0,
            d.1 == 2 * self.1,
    {
        Direction(self.0 * 2, self.1 * 2)
    }
}


/// A cell: column and row.
#[derive(Clone, Copy, PartialEq, Eq, Structural, Debug)]
pub struct Point(pub usize, pub usize);

/// A coordinate moved by `d`, as the game computes it: through a 32-bit signed number,
/// so that a step off the left or top edge gives a huge coordinate.
pub open spec fn shifted(x: usize, d: i32) -> usize {
    ((x as i32) + d) as usize
}

/// For a coordinate below 2^30 and a step of at most 2, the moved coordinate is exact
/// when it is not negative, and at least 2^30 when it is.
pub proof fn lemma_shifted(x: usize, d: i32)
    requires
        x < 0x4000_0000,
        -2 <= d <= 2,
    ensures
        x + d >= 0 ==> shifted(x, d) == x + d,
        x + d < 0 ==> shifted(x, d) >= 0x4000_0000,
{
    let s: i32 = ((x as i32) + d) as i32;
    assert(x as i32 == x);
    assert(s == x + d);
    assert(s >= 0 ==> s as usize == s);
    assert(s < 0 ==> s as usize >= 0x4000_0000usize) by (bit_vector)
        requires -2 <= s;
}

impl Point {
    /// The cell one step `dir` away, computed through 32-bit signed numbers; the sums
    /// must fit in them.
    pub fn apply_dir(&self, dir: &Direction) -> (p: Point)
        requires
            i32::MIN <= (self.0 as i32) + dir.0 <= i32::MAX,
            i32::MIN <= (self.1 as i32) + dir.1 <= i32::MAX,
        ensures
            p.0 == shifted(self.0, dir.0),
            p.1 == shifted(self.1, dir.1),
    {
        Point((self.0 as i32 + dir.0) as usize, (self.1 as i32 + dir.1) as usize)
    }

    /// The place of this cell in a grid of width `width`, row by row; it must fit.
    pub fn to_index(&self, width: &usize) -> (i: usize)
        requires
            self.1 * *width + self.0 <= usize::MAX,
        ensures
            i == self.1 * *width + self.0,
    {
        proof {
            vstd::arithmetic::mul::lemma_mul_nonnegative(*width as int, self.1 as int);
            vstd::arithmetic::mul::lemma_mul_is_commutative(*width as int, self.1 as int);
        }
        width * self.1 + self.0
    }
}

/// A level: its width, height, where the human starts, and its cells row by row.
pub struct Level {
    pub w: usize,
    pub h: usize,
    pub human_pos: Point,
    pub data: Vec<Object>,
}

/// The message for a character that is no object.
pub open spec fn bad_char_message() -> Seq<char> {
    "Char does not represent a valid object"@
}

/// The object a character stands for.
pub open spec fn char_object(c: char) -> Option<Object> {
    if c == '#' { Some(Object::Wall) } else if c == ' ' { Some(Object::Space) }
    else if c == '*' { Some(Object::Boulder) } else if c == 'O' { Some(Object::Hole) }
    else if c == '&' { Some(Object::Human) } else if c == '%' { Some(Object::HumanInHole) }
    else if c == '@' { Some(Object::BoulderInHole) } else { None }
}

/// The object a character stands for, or an error for any other character.
pub fn char_to_obj(c: &char) -> (r: Result<Object, String>)
    ensures
        match char_object(*c) {
            Some(o) => r == Ok::<Object, String>(o),
            None => r matches Err(m) && m@ == bad_char_message(),
        },
{
    match c {
        '#' => Ok(Object::Wall),
        ' ' => Ok(Object::Space),
        '*' => Ok(Object::Boulder),
        'O' => Ok(Object::Hole),
        '&' => Ok(Object::Human),
        '%' => Ok(Object::HumanInHole),
        '@' => Ok(Object::BoulderInHole),
        _ => {
            let m = String::from_str("Char does not represent a valid object");
            proof { reveal_strlit("Char does not represent a valid object"); }
            Err(m)
        },
    }
}

/// The letters of a list of moves, e.g. "nnesw".
pub fn moves_to_string(moves: &Vec<Move>) -> (s: String)
    ensures
        s@ == moves_letters(moves@),
{
    let mut s = String::new();
    let mut i: usize = 0;
    while i < moves.len()
        invariant
            i <= moves@.len(),
            s@ == moves_letters(moves@.take(i as int)),
        decreases moves@.len() - i,
    {
        let t = moves[i].to_string();
        s.append(t.as_str());
        assert(moves_letters(moves@.take(i + 1)) =~= moves_letters(moves@.take(i as int)).push(move_letter(moves@[i as int])));
        i = i + 1;
    }
    assert(moves@.take(moves@.len() as int) =~= moves@);
    s
}

/// A list of moves with its own text.
pub struct Moves(pub Vec<Move>);

impl Moves {
    /// The letters of the moves, e.g. "nnesw".
    pub fn to_string(&self) -> (s: String)
        ensures
            s@ == moves_letters(self.0@),
    {
        moves_to_string(&self.0)
    }
}


/// A copy of a list of objects.
fn copy_objects(v: &Vec<Object>) -> (r: Vec<Object>)
    ensures
        r@ == v@,
{
    let mut r: Vec<Object> = Vec::new();
    let mut i: usize = 0;
    while i < v.len()
        invariant
            i <= v@.len(),
            r@ == v@.take(i as int),
        decreases v@.len() - i,
    {
        r.push(v[i]);
        assert(r@ =~= v@.take(i + 1));
        i = i + 1;
    }
    assert(v@.take(v@.len() as int) =~= v@);
    r
}

impl Clone for Level {
    fn clone(&self) -> (r: Self)
        ensures
            r.w == self.w,
            r.h == self.h,
            r.human_pos == self.human_pos,
            r.data@ == self.data@,
    {
        Level { w: self.w, h: self.h, human_pos: self.human_pos, data: copy_objects(&self.data) }
    }
}

/// A game in play: the number of moves made, the moves (oldest first), where the human
/// stands, and the level as played so far.
pub struct State {
    pub num_moves: u32,
    pub move_history: Vec<Move>,
    pub human_pos: Point,
    pub level: Level,
}

/// The object at column `x`, row `y`, or a wall outside the grid.
pub open spec fn object_at(l: Level, x: int, y: int) -> Object {
    if 0 <= x < l.w && 0 <= y < l.h { l.data@[y * l.w + x] } else { Object::Wall }
}

/// A space or a hole: where the human or a boulder can go.
pub open spec fn is_open(o: Object) -> bool {
    o == Object::Space || o == Object::Hole
}

/// A boulder, in a hole or not.
pub open spec fn is_boulder(o: Object) -> bool {
    o == Object::Boulder || o == Object::BoulderInHole
}

/// The human at `p` can move by `m`: onto an open cell, or onto a boulder whose next cell
/// is open (pushing it there).
pub open spec fn can_go(l: Level, p: Point, m: Move) -> bool {
    let o = object_at(l, p.0 + mdx(m), p.1 + mdy(m));
    is_open(o) || (is_boulder(o) && is_open(object_at(l, p.0 + 2 * mdx(m), p.1 + 2 * mdy(m))))
}

/// `seq![m]` where the human at `p` can move by `m`, empty otherwise.
pub open spec fn go_if(l: Level, p: Point, m: Move) -> Seq<Move> {
    if can_go(l, p, m) { seq![m] } else { Seq::empty() }
}

/// The moves the human at `p` can make, in the order north, east, south, west.
pub open spec fn move_options(l: Level, p: Point) -> Seq<Move> {
    go_if(l, p, Move::North) + go_if(l, p, Move::East) + go_if(l, p, Move::South) + go_if(l, p, Move::West)
}

/// The grid has one object per cell, and its sides are below 2^30.
pub open spec fn level_ok(l: Level) -> bool {
    &&& l.data@.len() == l.w * l.h
    &&& l.w < 0x4000_0000
    &&& l.h < 0x4000_0000
}

/// The cells after the human at `p` moves by `m`: the cell left becomes a space or a hole,
/// a boulder in the way goes one cell further (into a hole if there is one), and the
/// human stands on the cell moved to (in its hole if it has one).
pub open spec fn moved_data(l: Level, p: Point, m: Move) -> Seq<Object> {
    let w = l.w as int;
    let hi = p.1 * w + p.0;
    let ni = (p.1 + mdy(m)) * w + p.0 + mdx(m);
    let o = l.data@[ni];
    let d1 = l.data@.update(hi, if l.data@[hi] == Object::Human { Object::Space } else { Object::Hole });
    if is_boulder(o) {
        let bi = (p.1 + 2 * mdy(m)) * w + p.0 + 2 * mdx(m);
        let d2 = d1.update(bi, if l.data@[bi] == Object::Hole { Object::BoulderInHole } else { Object::Boulder });
        d2.update(ni, if o == Object::BoulderInHole { Object::HumanInHole } else { Object::Human })
    } else {
        d1.update(ni, if o == Object::Hole { Object::HumanInHole } else { Object::Human })
    }
}

impl State {
    /// The grid is well formed and the human's coordinates are below 2^30.
    pub open spec fn ok(&self) -> bool {
        &&& level_ok(self.level)
        &&& self.human_pos.0 < 0x4000_0000
        &&& self.human_pos.1 < 0x4000_0000
    }

    /// Besides, the human stands inside the grid where the state says.
    pub open spec fn human_here(&self) -> bool {
        &&& self.ok()
        &&& self.human_pos.0 < self.level.w
        &&& self.human_pos.1 < self.level.h
        &&& {
            let o = self.level.data@[self.human_pos.1 * self.level.w + self.human_pos.0];
            o == Object::Human || o == Object::HumanInHole
        }
    }

    /// No boulder is out of a hole, and no hole is empty or holds the human.
    pub fn have_win_condition(&self) -> (r: bool)
        ensures
            r == forall|i: int| 0 <= i < self.level.data@.len() ==> {
                let o = #[trigger] self.level.data@[i];
                o != Object::Boulder && o != Object::Hole && o != Object::HumanInHole
            },
    {
        let mut i: usize = 0;
        while i < self.level.data.len()
            invariant
                i <= self.level.data@.len(),
                forall|j: int| 0 <= j < i ==> {
                    let o = #[trigger] self.level.data@[j];
                    o != Object::Boulder && o != Object::Hole && o != Object::HumanInHole
                },
            decreases self.level.data@.len() - i,
        {
            match self.level.data[i] {
                Object::Boulder | Object::Hole | Object::HumanInHole => return false,
                _ => {},
            }
            i = i + 1;
        }
        true
    }

    /// The object at `point`, or a wall outside the grid.
    pub fn get_object_at_point(&self, point: &Point) -> (o: Object)
        requires
            level_ok(self.level),
        ensures
            o == (if point.0 >= self.level.w || point.1 >= self.level.h { Object::Wall }
                else { self.level.data@[point.1 * self.level.w + point.0] }),
    {
        if point.0 >= self.level.w || point.1 >= self.level.h {
            return Object::Wall;
        }
        proof {
            assert(point.1 * self.level.w + point.0 < self.level.w * self.level.h) by (nonlinear_arith)
                requires point.0 < self.level.w, point.1 < self.level.h;
        }
        let n = self.level.data.len();
        assert(point.1 * self.level.w <= point.1 * self.level.w + point.0 < n);
        proof {
            vstd::arithmetic::mul::lemma_mul_is_commutative(self.level.w as int, point.1 as int);
        }
        self.level.data[self.level.w * point.1 + point.0]
    }

    /// The object one step `m` from the human (`k` = 1) or two steps (`k` = 2).
    fn look(&self, m: Move, k: i32) -> (o: Object)
        requires
            self.ok(),
            k == 1 || k == 2,
        ensures
            o == object_at(self.level, self.human_pos.0 + k * mdx(m), self.human_pos.1 + k * mdy(m)),
    {
        let d = m.to_dir();
        let d = if k == 1 { d } else { d.double() };
        let hp = self.human_pos;
        proof {
            lemma_shifted(hp.0, d.0);
            lemma_shifted(hp.1, d.1);
        }
        let p = hp.apply_dir(&d);
        let o = self.get_object_at_point(&p);
        proof {
            let x = hp.0 + k * mdx(m);
            let y = hp.1 + k * mdy(m);
            assert(d.0 == k * mdx(m) && d.1 == k * mdy(m));
            if x >= 0 && y >= 0 {
                assert(p.0 == x && p.1 == y);
            }
        }
        o
    }

    /// Whether the human can move by `m`.
    fn can_go(&self, m: Move) -> (r: bool)
        requires
            self.ok(),
        ensures
            r == can_go(self.level, self.human_pos, m),
    {
        match self.look(m, 1) {
            Object::Space | Object::Hole => true,
            Object::Boulder | Object::BoulderInHole => {
                match self.look(m, 2) {
                    Object::Space | Object::Hole => true,
                    _ => false,
                }
            },
            _ => false,
        }
    }

    /// The moves the human can make, in the order north, east, south, west.
    pub fn get_move_options(&self) -> (options: Vec<Move>)
        requires
            self.ok(),
        ensures
            options@ == move_options(self.level, self.human_pos),
    {
        let mut options: Vec<Move> = Vec::new();
        let ghost l = self.level;
        let ghost p = self.human_pos;
        let mut i: usize = 0;
        while i < 4
            invariant
                self.ok(),
                l == self.level,
                p == self.human_pos,
                i <= 4,
                options@ == (if i == 0 { Seq::empty() } else if i == 1 { go_if(l, p, Move::North) }
                    else if i == 2 { go_if(l, p, Move::North) + go_if(l, p, Move::East) }
                    else if i == 3 { go_if(l, p, Move::North) + go_if(l, p, Move::East) + go_if(l, p, Move::South) }
                    else { move_options(l, p) }),
            decreases 4 - i,
        {
            let m = ALLMOVES[i];
            assert(m == (if i == 0 { Move::North } else if i == 1 { Move::East } else if i == 2 { Move::South } else { Move::West }));
            let ghost before = options@;
            if self.can_go(m) {
                options.push(m);
            }
            assert(options@ =~= before + go_if(l, p, m));
            i = i + 1;
        }
        options
    }

    /// Makes move `m` if it is one of the options: the human moves, pushing any boulder
    /// ahead, and the move is counted and kept. Any other move changes nothing.
    pub fn apply_move(&mut self, m: &Move)
        requires
            old(self).human_here(),
            can_go(old(self).level, old(self).human_pos, *m) ==> old(self).num_moves < u32::MAX,
        ensures
            !can_go(old(self).level, old(self).human_pos, *m) ==> *final(self) == *old(self),
            can_go(old(self).level, old(self).human_pos, *m) ==> {
                &&& final(self).num_moves == old(self).num_moves + 1
                &&& final(self).move_history@ == old(self).move_history@.push(*m)
                &&& final(self).human_pos == Point((old(self).human_pos.0 + mdx(*m)) as usize, (old(self).human_pos.1 + mdy(*m)) as usize)
                &&& final(self).level.w == old(self).level.w
                &&& final(self).level.h == old(self).level.h
                &&& final(self).level.human_pos == old(self).level.human_pos
                &&& final(self).level.data@ == moved_data(old(self).level, old(self).human_pos, *m)
            },
    {
        let options = self.get_move_options();
        let mut found = false;
        let mut k: usize = 0;
        while k < options.len()
            invariant
                k <= options@.len(),
                found == exists|j: int| 0 <= j < k && options@[j] == *m,
            decreases options@.len() - k,
        {
            if options[k] == *m {
                found = true;
            }
            k = k + 1;
        }
        proof {
            let l = self.level;
            let p = self.human_pos;
            assert(options@ == move_options(l, p));
            if can_go(l, p, *m) {
                let pre = if *m == Move::North { Seq::<Move>::empty() }
                    else if *m == Move::East { go_if(l, p, Move::North) }
                    else if *m == Move::South { go_if(l, p, Move::North) + go_if(l, p, Move::East) }
                    else { go_if(l, p, Move::North) + go_if(l, p, Move::East) + go_if(l, p, Move::South) };
                assert(options@[pre.len() as int] == *m);
            } else {
                assert forall|j: int| 0 <= j < options@.len() implies options@[j] != *m by {
                    if options@[j] == *m {
                        assert(can_go(l, p, options@[j]));
                    }
                }
            }
        }
        if !found {
            return;
        }
        let ghost l0 = self.level;
        let ghost p0 = self.human_pos;
        self.move_history.push(*m);
        self.num_moves = self.num_moves + 1;
        let w = self.level.w;
        let n = self.level.data.len();
        let hp = self.human_pos;
        proof {
            assert(hp.1 * w + hp.0 < w * self.level.h) by (nonlinear_arith)
                requires hp.0 < w, hp.1 < self.level.h;
            assert(hp.1 * w <= hp.1 * w + hp.0 < n);
        }
        let idx = hp.to_index(&w);
        let human_obj = self.level.data[idx];
        let new_obj = if human_obj == Object::Human { Object::Space } else { Object::Hole };
        self.level.data.set(idx, new_obj);
        let d = m.to_dir();
        let dd = d.double();
        proof {
            lemma_shifted(hp.0, d.0);
            lemma_shifted(hp.1, d.1);
            lemma_shifted(hp.0, dd.0);
            lemma_shifted(hp.1, dd.1);
        }
        let np = hp.apply_dir(&d);
        proof {
            let x = hp.0 + mdx(*m);
            let y = hp.1 + mdy(*m);
            let o = object_at(l0, x, y);
            assert(is_open(o) || is_boulder(o));
            assert(0 <= x < w && 0 <= y < l0.h);
            assert(np.0 == x && np.1 == y);
            assert(y * w + x < w * l0.h) by (nonlinear_arith)
                requires 0 <= x < w, 0 <= y < l0.h;
            assert(y * w <= y * w + x < n);
            assert(y * w + x != hp.1 * w + hp.0) by (nonlinear_arith)
                requires x == hp.0 + mdx(*m), y == hp.1 + mdy(*m), mdx(*m) * mdx(*m) + mdy(*m) * mdy(*m) == 1,
                    0 <= hp.0 < w, 0 <= x < w;
        }
        let nidx = np.to_index(&w);
        let obj = self.level.data[nidx];
        let placed = match obj {
            Object::Space => Object::Human,
            Object::Hole => Object::HumanInHole,
            _ => {
                let bp = hp.apply_dir(&dd);
                proof {
                    let bx = hp.0 + 2 * mdx(*m);
                    let by = hp.1 + 2 * mdy(*m);
                    assert(is_open(object_at(l0, bx, by)));
                    assert(0 <= bx < w && 0 <= by < l0.h);
                    assert(bp.0 == bx && bp.1 == by);
                    assert(by * w + bx < w * l0.h) by (nonlinear_arith)
                        requires 0 <= bx < w, 0 <= by < l0.h;
                    assert(by * w <= by * w + bx < n);
                    assert(by * w + bx != hp.1 * w + hp.0) by (nonlinear_arith)
                        requires bx == hp.0 + 2 * mdx(*m), by == hp.1 + 2 * mdy(*m),
                            mdx(*m) * mdx(*m) + mdy(*m) * mdy(*m) == 1, 0 <= hp.0 < w, 0 <= bx < w;
                    assert(by * w + bx != (hp.1 + mdy(*m)) * w + hp.0 + mdx(*m)) by (nonlinear_arith)
                        requires bx == hp.0 + 2 * mdx(*m), by == hp.1 + 2 * mdy(*m),
                            mdx(*m) * mdx(*m) + mdy(*m) * mdy(*m) == 1, 0 <= hp.0 + mdx(*m) < w, 0 <= bx < w;
                }
                let i = bp.to_index(&w);
                let o = self.level.data[i];
                if o == Object::Hole {
                    self.level.data.set(i, Object::BoulderInHole);
                } else {
                    self.level.data.set(i, Object::Boulder);
                }
                if obj == Object::BoulderInHole { Object::HumanInHole } else { Object::Human }
            },
        };
        self.level.data.set(nidx, placed);
        self.human_pos = np;
        proof {
            assert(self.level.data@ =~= moved_data(l0, p0, *m));
        }
    }

    /// The text the game shows: a rule, the number of moves and their letters, then the
    /// grid row by row.
    pub fn display(&self) -> (s: String)
        requires
            level_ok(self.level),
        ensures
            s@ == display_text(*self),
    {
        let mut s = String::new();
        let mut k: usize = 0;
        while k < 80
            invariant
                k <= 80,
                s@ == Seq::new(k as nat, |j: int| '-'),
            decreases 80 - k,
        {
            string_push(&mut s, '-');
            assert(s@ =~= Seq::new((k + 1) as nat, |j: int| '-'));
            k = k + 1;
        }
        string_push(&mut s, '\n');
        push_decimal(&mut s, self.num_moves as u64);
        s.append(" moves: ");
        let ms = moves_to_string(&self.move_history);
        s.append(ms.as_str());
        string_push(&mut s, '\n');
        string_push(&mut s, '\n');
        let ghost head = s@;
        let w = self.level.w;
        let h = self.level.h;
        let n = self.level.data.len();
        let mut y: usize = 0;
        while y < h
            invariant
                level_ok(self.level),
                w == self.level.w,
                h == self.level.h,
                n == self.level.data@.len(),
                y <= h,
                s@ == head + grid_text(self.level, y as int),
            decreases h - y,
        {
            let ghost before = s@;
            let mut x: usize = 0;
            while x < w
                invariant
                    level_ok(self.level),
                    w == self.level.w,
                    h == self.level.h,
                    n == self.level.data@.len(),
                    y < h,
                    x <= w,
                    s@ == before + row_text(self.level, y as int, x as int),
                decreases w - x,
            {
                proof {
                    assert(y * w + x < w * h) by (nonlinear_arith)
                        requires x < w, y < h;
                    assert(y * w <= y * w + x);
                    assert(y * w + x < self.level.data@.len());
                }
                let c = self.level.data[y * w + x].to_char();
                string_push(&mut s, c);
                assert(row_text(self.level, y as int, x + 1) =~= row_text(self.level, y as int, x as int).push(c));
                x = x + 1;
            }
            string_push(&mut s, '\n');
            assert(grid_text(self.level, y + 1) =~= grid_text(self.level, y as int) + row_text(self.level, y as int, w as int).push('\n'));
            y = y + 1;
        }
        string_push(&mut s, '\n');
        proof {
            reveal_strlit(" moves: ");
        }
        assert(s@ =~= display_text(*self));
        s
    }
}

/// The characters of the first `n` cells of row `y`.
pub open spec fn row_text(l: Level, y: int, n: int) -> Seq<char> {
    Seq::new(n as nat, |x: int| object_char(l.data@[y * l.w + x]))
}

/// The first `n` rows of the grid, each ended by a line break.
pub open spec fn grid_text(l: Level, n: int) -> Seq<char>
    decreases n,
{
    if n <= 0 { Seq::empty() } else { grid_text(l, n - 1) + row_text(l, n - 1, l.w as int).push('\n') }
}

/// What the game shows for a state: 80 dashes, the number of moves and their letters,
/// an empty line, the grid, and an empty line.
pub open spec fn display_text(s: State) -> Seq<char> {
    Seq::new(80, |j: int| '-').push('\n') + decimal(s.num_moves as nat) + " moves: "@
        + moves_letters(s.move_history@) + seq!['\n', '\n'] + grid_text(s.level, s.level.h as int) + seq!['\n']
}


/// A new game on `base_level`: no moves made, the human where the level starts it.
pub fn new_game(base_level: &Level) -> (s: State)
    ensures
        s.num_moves == 0,
        s.move_history@ == Seq::<Move>::empty(),
        s.human_pos == base_level.human_pos,
        s.level.w == base_level.w,
        s.level.h == base_level.h,
        s.level.human_pos == base_level.human_pos,
        s.level.data@ == base_level.data@,
{
    State {
        num_moves: 0,
        move_history: Vec::new(),
        human_pos: base_level.human_pos,
        level: Level { w: base_level.w, h: base_level.h, human_pos: base_level.human_pos, data: copy_objects(&base_level.data) },
    }
}

/// Puts `base_level` back and forgets the moves (the human's position is kept).
pub fn _undo_move(base_level: Level, our_state: &mut State)
    ensures
        final(our_state).num_moves == 0,
        final(our_state).move_history@ == Seq::<Move>::empty(),
        final(our_state).human_pos == old(our_state).human_pos,
        final(our_state).level == base_level,
{
    our_state.num_moves = 0;
    our_state.move_history = Vec::new();
    our_state.level = base_level;
}

/// Making a list of moves at once is not offered: the answer is always an error.
pub fn _apply_moves(state: &mut State, moves: &Vec<Move>) -> (r: Result<(), String>)
    ensures
        *final(state) == *old(state),
        r matches Err(m) && m@ == "Not implemented"@,
{
    let m = String::from_str("Not implemented");
    Err(m)
}

/// Reading a level from lines, so far: the number of rows read, the width (the byte
/// length of the first line), the objects, the human's place, and whether reading has
/// stopped at a line of another width or at a character that is no object.
pub struct ReadAcc {
    pub count: int,
    pub w: int,
    pub data: Seq<Object>,
    pub human: (int, int),
    pub done: bool,
    pub bad: bool,
}

/// The objects of row `y` after its first characters `line`: each character is added,
/// `&` and `@` mark the human's place, and a character that is no object stops the read.
pub open spec fn scan_chars(line: Seq<char>, y: int, data: Seq<Object>, human: (int, int)) -> (Seq<Object>, (int, int), bool)
    decreases line.len(),
{
    if line.len() == 0 {
        (data, human, false)
    } else {
        let (d, h, bad) = scan_chars(line.drop_last(), y, data, human);
        if bad {
            (d, h, true)
        } else {
            let c = line.last();
            let h2 = if c == '&' || c == '@' { (line.len() - 1, y) } else { h };
            match char_object(c) {
                Some(o) => (d.push(o), h2, false),
                None => (d, h2, true),
            }
        }
    }
}

/// Reading the lines `lines` in order: the first line sets the width; a line of that
/// width adds a row, and the first line of another width ends the level.
pub open spec fn scan_lines(lines: Seq<Seq<char>>) -> ReadAcc
    decreases lines.len(),
{
    if lines.len() == 0 {
        ReadAcc { count: 0, w: 0, data: Seq::empty(), human: (0, 0), done: false, bad: false }
    } else {
        let a = scan_lines(lines.drop_last());
        let line = lines.last();
        if a.done || a.bad {
            a
        } else {
            let w = if a.count == 0 { byte_len(line) as int } else { a.w };
            if byte_len(line) == w {
                let (d, h, bad) = scan_chars(line, a.count, a.data, a.human);
                if bad {
                    ReadAcc { w: w, data: d, human: h, bad: true, ..a }
                } else {
                    ReadAcc { count: a.count + 1, w: w, data: d, human: h, ..a }
                }
            } else {
                ReadAcc { w: w, done: true, ..a }
            }
        }
    }
}

/// What reading a level from lines of text gives.
pub enum LevelRead {
    /// The level.
    Read(Level),
    /// A character that is no object; the message says so.
    BadChar(String),
    /// No human was found off the top row and left column.
    NoHuman { w: usize, h: usize },
    /// The grid is narrower or lower than 3.
    TooSmall { w: usize, h: usize, human_pos: Point },
}

proof fn lemma_scan_chars_len(line: Seq<char>, y: int, data: Seq<Object>, human: (int, int))
    ensures
        !scan_chars(line, y, data, human).2 ==> {
            &&& scan_chars(line, y, data, human).0.len() == data.len() + line.len()
            &&& forall|i: int| 0 <= i < line.len() ==> #[trigger] char_object(line[i]) is Some
        },
    decreases line.len(),
{
    if line.len() > 0 {
        lemma_scan_chars_len(line.drop_last(), y, data, human);
        if !scan_chars(line, y, data, human).2 {
            assert forall|i: int| 0 <= i < line.len() implies #[trigger] char_object(line[i]) is Some by {
                if i < line.len() - 1 {
                    assert(line[i] == line.drop_last()[i]);
                }
            }
        }
    }
}

/// Reads the characters of row `y` into `data`, marking the human's place; stops with
/// the message at a character that is no object.
fn scan_row(txt: &Vec<char>, y: usize, data: &mut Vec<Object>, human: &mut Point) -> (bad: Option<String>)
    ensures
        scan_chars(txt@, y as int, old(data)@, (old(human).0 as int, old(human).1 as int))
            == (final(data)@, (final(human).0 as int, final(human).1 as int), bad is Some),
        bad matches Some(m) ==> m@ == bad_char_message(),
{
    let ghost line = txt@;
    let ghost d0 = data@;
    let ghost h0 = (human.0 as int, human.1 as int);
    let mut j: usize = 0;
    while j < txt.len()
        invariant
            txt@ == line,
            j <= line.len(),
            d0 == old(data)@,
            h0 == (old(human).0 as int, old(human).1 as int),
            scan_chars(line.take(j as int), y as int, d0, h0) == (data@, (human.0 as int, human.1 as int), false),
        decreases line.len() - j,
    {
        let c = txt[j];
        proof {
            assert(line.take(j + 1).drop_last() =~= line.take(j as int));
            assert(line.take(j + 1).last() == c);
        }
        if c == '&' || c == '@' {
            *human = Point(j, y);
        }
        match char_to_obj(&c) {
            Ok(o) => { data.push(o); },
            Err(m) => {
                proof {
                    assert(scan_chars(line.take(j + 1), y as int, d0, h0).2);
                    lemma_scan_prefix_bad(line, y as int, d0, h0, j + 1);
                }
                return Some(m);
            },
        }
        j = j + 1;
    }
    assert(line.take(line.len() as int) =~= line);
    None
}

proof fn lemma_scan_prefix_bad(line: Seq<char>, y: int, data: Seq<Object>, human: (int, int), k: int)
    requires
        0 <= k <= line.len(),
        scan_chars(line.take(k), y, data, human).2,
    ensures
        scan_chars(line, y, data, human) == scan_chars(line.take(k), y, data, human),
    decreases line.len() - k,
{
    if k < line.len() {
        assert(line.take(k + 1).drop_last() =~= line.take(k));
        lemma_scan_prefix_bad(line, y, data, human, k + 1);
    } else {
        assert(line.take(k) =~= line);
    }
}

proof fn lemma_scan_stops(lines: Seq<Seq<char>>, k: int)
    requires
        0 <= k <= lines.len(),
        scan_lines(lines.take(k)).done || scan_lines(lines.take(k)).bad,
    ensures
        scan_lines(lines) == scan_lines(lines.take(k)),
    decreases lines.len() - k,
{
    if k < lines.len() {
        assert(lines.take(k + 1).drop_last() =~= lines.take(k));
        lemma_scan_stops(lines, k + 1);
    } else {
        assert(lines.take(k) =~= lines);
    }
}

/// Reads a level from its lines of text: every character must stand for an object; the
/// first line gives the width (in bytes), and reading stops at the first line of another
/// width. The human is where the last `&` or `@` is.
pub fn level_from_lines(lines: &Vec<String>) -> (r: LevelRead)
    ensures
        ({
            let a = scan_lines(lines@.map_values(|s: String| s@));
            if a.bad {
                r matches LevelRead::BadChar(m) && m@ == bad_char_message()
            } else if a.human.0 == 0 || a.human.1 == 0 {
                r == LevelRead::NoHuman { w: a.w as usize, h: a.count as usize }
            } else if a.w < 3 || a.count < 3 {
                r == LevelRead::TooSmall { w: a.w as usize, h: a.count as usize, human_pos: Point(a.human.0 as usize, a.human.1 as usize) }
            } else {
                r matches LevelRead::Read(l) && l.w == a.w && l.h == a.count && l.data@ == a.data
                    && l.human_pos == Point(a.human.0 as usize, a.human.1 as usize)
            }
        }),
{
    let ghost ls = lines@.map_values(|s: String| s@);
    let mut count: usize = 0;
    let mut w: usize = 0;
    let mut data: Vec<Object> = Vec::new();
    let mut human = Point(0, 0);
    let mut i: usize = 0;
    let mut stopped = false;
    while i < lines.len()
        invariant_except_break
            !stopped,
        invariant
            ls == lines@.map_values(|s: String| s@),
            i <= lines@.len(),
            !stopped ==> count == i,
            count <= i,
            ({
                let a = scan_lines(ls.take(i as int));
                &&& a.count == count
                &&& a.data == data@
                &&& a.human == (human.0 as int, human.1 as int)
                &&& a.w == w
                &&& !a.bad
                &&& a.done == stopped
                &&& count >= 1 ==> w == ls[0].len()
                &&& count == 0 ==> w == 0 && human == Point(0, 0) && data@.len() == 0
            }),
        ensures
            ({
                let a = scan_lines(ls.take(i as int));
                &&& a.count == count
                &&& a.data == data@
                &&& a.human == (human.0 as int, human.1 as int)
                &&& a.w == w
                &&& !a.bad
                &&& (a.done || i == lines@.len())
            }),
        decreases lines@.len() - i,
    {
        let ghost a = scan_lines(ls.take(i as int));
        let ghost line = ls[i as int];
        proof {
            assert(ls.take(i + 1).drop_last() =~= ls.take(i as int));
            assert(ls.take(i + 1).last() == line);
        }
        let txt = str_to_chars(lines[i].as_str());
        let bl = byte_len_of(&txt);
        if count == 0 || bl == w as u128 {
            let ghost d0 = data@;
            let ghost h0 = (human.0 as int, human.1 as int);
            let bad = scan_row(&txt, count, &mut data, &mut human);
            match bad {
                Some(m) => {
                    proof {
                        assert(scan_lines(ls.take(i + 1)).bad);
                        lemma_scan_stops(ls, i + 1);
                        assert(ls.take(ls.len() as int) =~= ls);
                    }
                    return LevelRead::BadChar(m);
                },
                None => {},
            }
            proof {
                lemma_scan_chars_len(line, count as int, d0, h0);
                if count == 0 {
                    assert(is_ascii_chars(line)) by {
                        assert forall|q: int| 0 <= q < line.len() implies '\0' <= #[trigger] line[q] <= '\u{7f}' by {
                            assert(char_object(line[q]) is Some);
                        }
                    }
                    lemma_ascii_byte_len(line);
                    assert(ls[0] == line);
                }
            }
            if count == 0 {
                w = txt.len();
            }
            count = count + 1;
            proof {
                assert(scan_lines(ls.take(i + 1)).count == count);
            }
        } else {
            stopped = true;
            proof {
                assert(scan_lines(ls.take(i + 1)).done);
            }
        }
        i = i + 1;
        if stopped {
            break;
        }
    }
    proof {
        let a = scan_lines(ls.take(i as int));
        if a.done {
            lemma_scan_stops(ls, i as int);
        } else {
            assert(ls.take(i as int) =~= ls);
        }
    }
    let h = count;
    if human.0 == 0 || human.1 == 0 {
        return LevelRead::NoHuman { w: w, h: h };
    }
    if w < 3 || h < 3 {
        return LevelRead::TooSmall { w: w, h: h, human_pos: human };
    }
    LevelRead::Read(Level { w: w, h: h, human_pos: human, data: data })
}


/// The number of boulders, in holes or not.
pub open spec fn count_boulders(d: Seq<Object>) -> nat
    decreases d.len(),
{
    if d.len() == 0 { 0 } else { count_boulders(d.drop_last()) + (if is_boulder(d.last()) { 1nat } else { 0nat }) }
}

/// The cells with the human and the boulders taken off: walls, spaces and holes.
pub open spec fn bare_cells(d: Seq<Object>) -> Seq<Object> {
    d.map_values(|o: Object|
        if o == Object::Human || o == Object::Boulder { Object::Space }
        else if o == Object::HumanInHole || o == Object::BoulderInHole { Object::Hole }
        else { o })
}

/// The cells the human at `p` leaves, steps onto, and pushes a boulder onto, are in the
/// grid and apart from one another.
proof fn lemma_move_cells(l: Level, p: Point, m: Move)
    requires
        level_ok(l),
        p.0 < l.w,
        p.1 < l.h,
        can_go(l, p, m),
    ensures
        ({
            let w = l.w as int;
            let hi = p.1 * w + p.0;
            let nx = p.0 + mdx(m);
            let ny = p.1 + mdy(m);
            let ni = ny * w + nx;
            &&& 0 <= nx < l.w && 0 <= ny < l.h
            &&& 0 <= hi < l.data@.len()
            &&& 0 <= ni < l.data@.len()
            &&& hi != ni
            &&& object_at(l, nx, ny) == l.data@[ni]
            &&& is_boulder(l.data@[ni]) ==> {
                let bx = p.0 + 2 * mdx(m);
                let by = p.1 + 2 * mdy(m);
                let bi = by * w + bx;
                &&& 0 <= bx < l.w && 0 <= by < l.h
                &&& 0 <= bi < l.data@.len()
                &&& bi != hi && bi != ni
                &&& object_at(l, bx, by) == l.data@[bi]
            }
        }),
{
    let w = l.w as int;
    let h = l.h as int;
    let nx = p.0 + mdx(m);
    let ny = p.1 + mdy(m);
    assert(mdx(m) * mdx(m) + mdy(m) * mdy(m) == 1) by (nonlinear_arith)
        requires
            (mdx(m) == 0 && mdy(m) == -1) || (mdx(m) == 1 && mdy(m) == 0) || (mdx(m) == 0 && mdy(m) == 1)
                || (mdx(m) == -1 && mdy(m) == 0);
    assert(0 <= nx < w && 0 <= ny < h);
    assert(0 <= p.1 * w + p.0 < w * h) by (nonlinear_arith)
        requires 0 <= p.0 < w, 0 <= p.1 < h;
    assert(0 <= ny * w + nx < w * h) by (nonlinear_arith)
        requires 0 <= nx < w, 0 <= ny < h;
    assert(ny * w + nx != p.1 * w + p.0) by (nonlinear_arith)
        requires nx == p.0 + mdx(m), ny == p.1 + mdy(m), mdx(m) * mdx(m) + mdy(m) * mdy(m) == 1,
            0 <= p.0 < w, 0 <= nx < w;
    if is_boulder(l.data@[ny * w + nx]) {
        let bx = p.0 + 2 * mdx(m);
        let by = p.1 + 2 * mdy(m);
        assert(0 <= bx < w && 0 <= by < h);
        assert(0 <= by * w + bx < w * h) by (nonlinear_arith)
            requires 0 <= bx < w, 0 <= by < h;
        assert(by * w + bx != p.1 * w + p.0) by (nonlinear_arith)
            requires bx == p.0 + 2 * mdx(m), by == p.1 + 2 * mdy(m), mdx(m) * mdx(m) + mdy(m) * mdy(m) == 1,
                0 <= p.0 < w, 0 <= bx < w;
        assert(by * w + bx != ny * w + nx) by (nonlinear_arith)
            requires bx == nx + mdx(m), by == ny + mdy(m), mdx(m) * mdx(m) + mdy(m) * mdy(m) == 1,
                0 <= nx < w, 0 <= bx < w;
    }
}

/// After a move the human stands where the state says it went: the game stays playable.
pub proof fn lemma_move_keeps_human(s: State, m: Move)
    requires
        s.human_here(),
        can_go(s.level, s.human_pos, m),
    ensures
        ({
            let nx = s.human_pos.0 + mdx(m);
            let ny = s.human_pos.1 + mdy(m);
            let d = moved_data(s.level, s.human_pos, m);
            &&& 0 <= nx < s.level.w && 0 <= ny < s.level.h
            &&& d.len() == s.level.data@.len()
            &&& (d[ny * s.level.w + nx] == Object::Human || d[ny * s.level.w + nx] == Object::HumanInHole)
        }),
{
    lemma_move_cells(s.level, s.human_pos, m);
}

/// Writing one cell changes the boulder count by what leaves and what comes.
proof fn lemma_count_boulders_update(d: Seq<Object>, i: int, x: Object)
    requires
        0 <= i < d.len(),
    ensures
        count_boulders(d.update(i, x)) + (if is_boulder(d[i]) { 1int } else { 0 })
            == count_boulders(d) + (if is_boulder(x) { 1int } else { 0 }),
    decreases d.len(),
{
    let t = d.update(i, x);
    if i == d.len() - 1 {
        assert(t.drop_last() =~= d.drop_last());
    } else {
        assert(t.drop_last() =~= d.drop_last().update(i, x));
        lemma_count_boulders_update(d.drop_last(), i, x);
    }
}

/// A move keeps the number of boulders.
pub proof fn lemma_move_keeps_boulders(s: State, m: Move)
    requires
        s.human_here(),
        can_go(s.level, s.human_pos, m),
    ensures
        count_boulders(moved_data(s.level, s.human_pos, m)) == count_boulders(s.level.data@),
{
    let l = s.level;
    let p = s.human_pos;
    let w = l.w as int;
    lemma_move_cells(l, p, m);
    let hi = p.1 * w + p.0;
    let ni = (p.1 + mdy(m)) * w + p.0 + mdx(m);
    let o = l.data@[ni];
    let x1 = if l.data@[hi] == Object::Human { Object::Space } else { Object::Hole };
    let d1 = l.data@.update(hi, x1);
    lemma_count_boulders_update(l.data@, hi, x1);
    if is_boulder(o) {
        let bi = (p.1 + 2 * mdy(m)) * w + p.0 + 2 * mdx(m);
        let xb = if l.data@[bi] == Object::Hole { Object::BoulderInHole } else { Object::Boulder };
        let d2 = d1.update(bi, xb);
        lemma_count_boulders_update(d1, bi, xb);
        lemma_count_boulders_update(d2, ni, if o == Object::BoulderInHole { Object::HumanInHole } else { Object::Human });
    } else {
        lemma_count_boulders_update(d1, ni, if o == Object::Hole { Object::HumanInHole } else { Object::Human });
    }
}

/// A move keeps the walls and holes where they are: the cells with the human and the
/// boulders taken off are the same before and after.
pub proof fn lemma_move_keeps_layout(s: State, m: Move)
    requires
        s.human_here(),
        can_go(s.level, s.human_pos, m),
    ensures
        bare_cells(moved_data(s.level, s.human_pos, m)) == bare_cells(s.level.data@),
{
    lemma_move_cells(s.level, s.human_pos, m);
    assert(bare_cells(moved_data(s.level, s.human_pos, m)) =~= bare_cells(s.level.data@));
}

/// The moves offered as options are exactly the moves the game makes.
pub proof fn lemma_options_are_moves(l: Level, p: Point, m: Move)
    ensures
        move_options(l, p).contains(m) <==> can_go(l, p, m),
{
    let o = move_options(l, p);
    if can_go(l, p, m) {
        let k: int = match m { Move::North => 0, Move::East => 1, Move::South => 2, Move::West => 3 };
        let pre = if k == 0 { Seq::<Move>::empty() } else if k == 1 { go_if(l, p, Move::North) }
            else if k == 2 { go_if(l, p, Move::North) + go_if(l, p, Move::East) }
            else { go_if(l, p, Move::North) + go_if(l, p, Move::East) + go_if(l, p, Move::South) };
        assert(o[pre.len() as int] == m);
    } else {
        assert forall|i: int| 0 <= i < o.len() implies o[i] != m by {
            if o[i] == m {
                assert(can_go(l, p, o[i]));
            }
        }
    }
}

} // verus!
