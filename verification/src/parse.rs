//! Reading a level from its text.
//!
//! A level text is a grid of object characters, one row per line, walls all round,
//! followed by lines of `key: value` settings. The first line fixes the width (its
//! length in bytes); every following line of that length is read as a grid row, until
//! the first line of another length, from which on every line is a setting.
use vstd::prelude::*;
use vstd::utf8::is_ascii_chars;
use vstd::arithmetic::div_mod::{lemma_fundamental_div_mod, lemma_fundamental_div_mod_converse};
use crate::obj::{Obj, is_obj_char, char_obj, is_object_char};
use crate::level::{Level, LevelView, KeyVal, kv_set, kv_get, kv_view, kv_store, cell_index};
use crate::vector::Vector;
use crate::strutil::{chars_to_string, str_to_chars};
use crate::builtins::BUILTIN_LEVELS;
use crate::readback::{counts_match, lemma_read_line_counts};
use crate::textread::{byte_len, byte_len_of, trim, trimmed, colon_index, find_colon,
    lemma_byte_len_push, lemma_len_le_byte_len, lemma_ascii_byte_len};

verus! {

/// Why reading stopped before the end of the text.
#[derive(Clone, Copy, PartialEq, Eq, Structural, Debug)]
pub enum ReadStop {
    /// A second human was found.
    TwoHumans,
    /// A grid row holds a character that stands for no object.
    BadChar,
    /// A counter ran past its limit (grid rows past 65535, boxes or holes past `i32::MAX`).
    Overflow,
}

/// How far the reading of a level text has come.
pub struct ReadState {
    /// A line has been read (the first line fixed the width).
    pub started: bool,
    /// The width: the byte length of the first line, cut to 16 bits.
    pub w: int,
    /// The number of grid rows read.
    pub h: int,
    /// The objects of the grid rows, row after row.
    pub data: Seq<Obj>,
    /// Where the human was found (column, row), if it was.
    pub human: Option<(int, int)>,
    /// The settings read so far.
    pub keyvals: Seq<KeyVal>,
    /// Grid rows are over; every line from now on is a setting.
    pub kvmode: bool,
    /// The number of box characters read.
    pub boxes: int,
    /// The number of hole characters read.
    pub holes: int,
    /// Why reading stopped, if it did.
    pub stop: Option<ReadStop>,
}

/// Nothing read yet.
pub open spec fn start_state() -> ReadState {
    ReadState {
        started: false,
        w: 0,
        h: 0,
        data: Seq::empty(),
        human: None,
        keyvals: Seq::empty(),
        kvmode: false,
        boxes: 0,
        holes: 0,
        stop: None,
    }
}

/// The human, standing on a space or in a hole.
pub open spec fn is_human_char(c: char) -> bool {
    c == '&' || c == '%'
}

/// A hole, empty or holding the human or a box.
pub open spec fn is_hole_char(c: char) -> bool {
    c == 'O' || c == '%' || c == '@'
}

/// A box, on a space or in a hole.
pub open spec fn is_box_char(c: char) -> bool {
    c == '*' || c == '@'
}

/// Reading character `c` at column `x` of the current grid row. (The column is also the
/// byte offset: every earlier character of the row stands for an object and takes one byte.)
pub open spec fn grid_char(st: ReadState, x: int, c: char) -> ReadState {
    if st.stop is Some {
        st
    } else if is_human_char(c) && st.human is Some {
        ReadState { stop: Some(ReadStop::TwoHumans), ..st }
    } else if (is_hole_char(c) && st.holes >= i32::MAX) || (is_box_char(c) && st.boxes >= i32::MAX) {
        ReadState { stop: Some(ReadStop::Overflow), ..st }
    } else if !is_obj_char(c) {
        ReadState { stop: Some(ReadStop::BadChar), ..st }
    } else {
        ReadState {
            human: if is_human_char(c) { Some((x, st.h)) } else { st.human },
            holes: if is_hole_char(c) { st.holes + 1 } else { st.holes },
            boxes: if is_box_char(c) { st.boxes + 1 } else { st.boxes },
            data: st.data.push(char_obj(c)),
            ..st
        }
    }
}

/// Reading the characters of a grid row, from the left.
pub open spec fn grid_chars(st: ReadState, line: Seq<char>) -> ReadState
    decreases line.len(),
{
    if line.len() == 0 {
        st
    } else {
        grid_char(grid_chars(st, line.drop_last()), line.len() - 1, line.last())
    }
}

/// Reading a grid row: its characters, then one row more.
pub open spec fn grid_row(st: ReadState, line: Seq<char>) -> ReadState {
    let r = grid_chars(st, line);
    if r.stop is Some {
        r
    } else if r.h >= 65535 {
        ReadState { stop: Some(ReadStop::Overflow), ..r }
    } else {
        ReadState { h: r.h + 1, ..r }
    }
}

/// Reading a setting line: at least two bytes long with a ':', the text before the first
/// ':' is the key and the text after it the value, both trimmed of white space; a line
/// with an empty key sets nothing. From now on every line is a setting.
pub open spec fn kv_row(st: ReadState, line: Seq<char>) -> ReadState {
    let kvs = match colon_index(line) {
        Some(i) => if byte_len(line) >= 2 && trim(line.take(i)).len() > 0 {
            kv_set(st.keyvals, trim(line.take(i)), trim(line.skip(i + 1)))
        } else {
            st.keyvals
        },
        None => st.keyvals,
    };
    ReadState { kvmode: true, keyvals: kvs, ..st }
}

/// Reading one line. The first line fixes the width; a line is a grid row while no setting
/// has been read and its byte length is the width.
pub open spec fn read_line(st: ReadState, line: Seq<char>) -> ReadState {
    if st.stop is Some {
        st
    } else {
        let w = if st.started { st.w } else { (byte_len(line) % 65536) as int };
        let st1 = ReadState { started: true, w: w, ..st };
        if !st.kvmode && byte_len(line) == w {
            grid_row(st1, line)
        } else {
            kv_row(st1, line)
        }
    }
}

/// A line without the '\r' of a "\r\n" line end.
pub open spec fn strip_cr(line: Seq<char>) -> Seq<char> {
    if line.len() > 0 && line.last() == '\r' { line.drop_last() } else { line }
}

/// Reading the characters `s`: the state after the lines ended so far, and the part of
/// the current line read so far. Lines end at '\n', a '\r' just before it is dropped.
pub open spec fn read_chars(s: Seq<char>) -> (ReadState, Seq<char>)
    decreases s.len(),
{
    if s.len() == 0 {
        (start_state(), Seq::empty())
    } else {
        let (st, line) = read_chars(s.drop_last());
        if s.last() == '\n' {
            (read_line(st, strip_cr(line)), Seq::empty())
        } else {
            (st, line.push(s.last()))
        }
    }
}

/// Reading a whole text: its lines as `str::lines` cuts them (a last line that is not
/// ended counts; no empty line comes after a final '\n').
pub open spec fn read_text(s: Seq<char>) -> ReadState {
    let (st, line) = read_chars(s);
    if line.len() > 0 { read_line(st, line) } else { st }
}

/// How reading a level text ends.
#[derive(Clone, Copy, PartialEq, Eq, Structural, Debug)]
pub enum TextEnd {
    /// A level is built.
    Built,
    /// Two humans were found.
    TwoHumans,
    /// A grid row holds a character that stands for no object.
    BadChar,
    /// A counter ran past its limit.
    Overflow,
    /// Fewer than two columns or two rows, so no wall border can be taken off.
    Undersized,
    /// No human was found.
    NoHuman,
    /// The grid inside the border is empty.
    TooSmall,
    /// The grid inside the border is too big.
    TooBig,
    /// The numbers of boxes and holes differ.
    Unbalanced,
    /// There is no box.
    NoBox,
    /// There are more than 24 boxes.
    TooManyBoxes,
    /// The human stands on the border, outside the grid that is kept.
    HumanOnBorder,
}

/// The column where the human was found (0 when it was not).
pub open spec fn human_x(st: ReadState) -> int {
    match st.human {
        Some((x, _)) => x,
        None => 0,
    }
}

/// The row where the human was found (0 when it was not).
pub open spec fn human_y(st: ReadState) -> int {
    match st.human {
        Some((_, y)) => y,
        None => 0,
    }
}

/// The human stands on the border of a `w` by `h` grid.
pub open spec fn on_border(x: int, y: int, w: int, h: int) -> bool {
    x == 0 || y == 0 || x == w - 1 || y == h - 1
}

/// How reading the text `s` ends.
pub open spec fn text_end(s: Seq<char>) -> TextEnd {
    let st = read_text(s);
    match st.stop {
        Some(ReadStop::TwoHumans) => TextEnd::TwoHumans,
        Some(ReadStop::BadChar) => TextEnd::BadChar,
        Some(ReadStop::Overflow) => TextEnd::Overflow,
        None => {
            if st.w < 2 || st.h < 2 {
                TextEnd::Undersized
            } else if st.human is None {
                TextEnd::NoHuman
            } else if st.w - 2 < 1 || st.h - 2 < 1 {
                TextEnd::TooSmall
            } else if st.w - 2 > 127 || st.h - 2 > 127 || (st.w - 2) * (st.h - 2) > 256 {
                TextEnd::TooBig
            } else if st.boxes != st.holes {
                TextEnd::Unbalanced
            } else if st.boxes < 1 {
                TextEnd::NoBox
            } else if st.boxes > 24 {
                TextEnd::TooManyBoxes
            } else if on_border(human_x(st), human_y(st), st.w, st.h) {
                TextEnd::HumanOnBorder
            } else {
                TextEnd::Built
            }
        },
    }
}

/// The ends on which the text is malformed past an error message: an object character
/// that is none, a counter past its limit, no room for a border, or a human on the border.
pub open spec fn is_malformed(e: TextEnd) -> bool {
    e == TextEnd::BadChar || e == TextEnd::Overflow || e == TextEnd::Undersized || e == TextEnd::HumanOnBorder
}

/// The message for each end that is not a built level.
pub open spec fn end_message(e: TextEnd) -> Seq<char> {
    match e {
        TextEnd::Built => ""@,
        TextEnd::TwoHumans => "More than one human found!"@,
        TextEnd::BadChar => "Char does not represent a valid object"@,
        TextEnd::Overflow => "attempt to add with overflow"@,
        TextEnd::Undersized => "attempt to subtract with overflow"@,
        TextEnd::NoHuman => "Human not found in level!"@,
        TextEnd::TooSmall => "Width and Height must be at least 1!"@,
        TextEnd::TooBig => "Level too big! Maximum width 127. Maximum height 127. Maximum width * height 256."@,
        TextEnd::Unbalanced => "Num boxes is not equal to num holes!"@,
        TextEnd::NoBox => "Must be at least one box!"@,
        TextEnd::TooManyBoxes => "Too many boxes! (Maximum 24)"@,
        TextEnd::HumanOnBorder => "Human not where it should be"@,
    }
}

/// The grid inside the border of a `w` by `h` grid.
pub open spec fn inner_grid(data: Seq<Obj>, w: int, h: int) -> Seq<Obj> {
    Seq::new(((w - 2) * (h - 2)) as nat, |i: int| data[inner_source(w, i)])
}

/// Where cell `i` of the grid inside the border sits in the whole `w`-wide grid.
pub open spec fn inner_source(w: int, i: int) -> int {
    (i / (w - 2) + 1) * w + i % (w - 2) + 1
}

/// The level read from a text: the grid without its border, the human moved with it,
/// and the settings.
pub open spec fn made_from(v: LevelView, st: ReadState) -> bool {
    &&& v.w == st.w - 2
    &&& v.h == st.h - 2
    &&& st.human is Some
    &&& v.human_pos == Vector((human_x(st) - 1) as i32, (human_y(st) - 1) as i32)
    &&& v.data == inner_grid(st.data, st.w, st.h)
    &&& v.keyvals == st.keyvals
}


/// The human object, standing on a space or in a hole.
pub open spec fn is_human_obj(o: Obj) -> bool {
    o == Obj::Human || o == Obj::HumanInHole
}

/// The grid holds the human exactly where `human` says, and nowhere else.
pub open spec fn humans_ok(data: Seq<Obj>, human: Option<(int, int)>, w: int) -> bool {
    match human {
        None => forall|i: int| 0 <= i < data.len() ==> !is_human_obj(#[trigger] data[i]),
        Some((x, y)) => {
            &&& 0 <= x < w
            &&& 0 <= y
            &&& y * w + x < data.len()
            &&& is_human_obj(data[y * w + x])
            &&& forall|i: int| 0 <= i < data.len() && i != y * w + x ==> !is_human_obj(#[trigger] data[i])
        },
    }
}

/// What holds of the state between lines while reading goes on.
pub open spec fn reader_ok(st: ReadState) -> bool {
    &&& st.stop is None
    &&& 0 <= st.w < 65536
    &&& 0 <= st.h <= 65535
    &&& (!st.started ==> st.h == 0)
    &&& st.data.len() == st.h * st.w
    &&& 0 <= st.boxes <= i32::MAX
    &&& 0 <= st.holes <= i32::MAX
    &&& humans_ok(st.data, st.human, st.w)
    &&& (st.human matches Some((x, y)) ==> y < st.h)
}

/// Once reading a row has stopped it stays stopped.
proof fn lemma_grid_stop(st: ReadState, line: Seq<char>, k: int)
    requires
        0 <= k <= line.len(),
        grid_chars(st, line.take(k)).stop is Some,
    ensures
        grid_chars(st, line) == grid_chars(st, line.take(k)),
    decreases line.len() - k,
{
    if k < line.len() {
        assert(line.take(k + 1).drop_last() =~= line.take(k));
        lemma_grid_stop(st, line, k + 1);
    } else {
        assert(line.take(k) =~= line);
    }
}

/// Once reading a text has stopped it stays stopped.
proof fn lemma_text_stop(s: Seq<char>, k: int)
    requires
        0 <= k <= s.len(),
        read_chars(s.take(k)).0.stop is Some,
    ensures
        read_text(s) == read_chars(s.take(k)).0,
    decreases s.len() - k,
{
    if k < s.len() {
        assert(s.take(k + 1).drop_last() =~= s.take(k));
        lemma_text_stop(s, k + 1);
    } else {
        assert(s.take(k) =~= s);
    }
}

/// The reading state held in executable values, while reading has not stopped.
struct Reader {
    started: bool,
    w: u16,
    h: u16,
    data: Vec<Obj>,
    human: Option<(u16, u16)>,
    keyvals: Vec<(String, String)>,
    kvmode: bool,
    boxes: i32,
    holes: i32,
}

impl Reader {
    spec fn state(&self) -> ReadState {
        ReadState {
            started: self.started,
            w: self.w as int,
            h: self.h as int,
            data: self.data@,
            human: match self.human {
                Some((x, y)) => Some((x as int, y as int)),
                None => None,
            },
            keyvals: kv_view(self.keyvals@),
            kvmode: self.kvmode,
            boxes: self.boxes as int,
            holes: self.holes as int,
            stop: None,
        }
    }

    fn new() -> (r: Reader)
        ensures
            r.state() == start_state(),
            reader_ok(r.state()),
    {
        let r = Reader {
            started: false,
            w: 0,
            h: 0,
            data: Vec::new(),
            human: None,
            keyvals: Vec::new(),
            kvmode: false,
            boxes: 0,
            holes: 0,
        };
        assert(r.state().data =~= Seq::<Obj>::empty());
        assert(r.state().keyvals =~= Seq::<KeyVal>::empty());
        r
    }

    /// Reads a grid row, whose byte length is the width.
    fn grid_row(&mut self, line: &Vec<char>) -> (res: Option<ReadStop>)
        requires
            reader_ok(old(self).state()),
            old(self).started,
            byte_len(line@) == old(self).w,
        ensures
            match res {
                None => final(self).state() == grid_row(old(self).state(), line@) && reader_ok(final(self).state()),
                Some(e) => grid_row(old(self).state(), line@).stop == Some(e),
            },
    {
        let ghost st0 = self.state();
        let ghost w = st0.w;
        proof { lemma_len_le_byte_len(line@); }
        let mut i: usize = 0;
        while i < line.len()
            invariant
                st0 == old(self).state(),
                reader_ok(st0),
                st0.started,
                w == st0.w,
                line@.len() <= w,
                i <= line@.len(),
                self.state() == grid_chars(st0, line@.take(i as int)),
                self.w == st0.w,
                self.h == st0.h,
                self.started,
                0 <= self.boxes,
                0 <= self.holes,
                self.data@.len() == st0.h * w + i,
                forall|k: int| 0 <= k < i ==> is_obj_char(#[trigger] line@[k]),
                humans_ok(self.data@, self.state().human, w),
                self.state().human matches Some((x, y)) ==> (y < st0.h || (y == st0.h && x < i)),
            decreases line@.len() - i,
        {
            let c = line[i];
            proof {
                assert(line@.take(i as int + 1).drop_last() =~= line@.take(i as int));
            }
            let is_h = c == '&' || c == '%';
            let is_o = c == 'O' || c == '%' || c == '@';
            let is_b = c == '*' || c == '@';
            if is_h && self.human.is_some() {
                proof { lemma_grid_stop(st0, line@, i as int + 1); }
                return Some(ReadStop::TwoHumans);
            }
            if (is_o && self.holes == i32::MAX) || (is_b && self.boxes == i32::MAX) {
                proof { lemma_grid_stop(st0, line@, i as int + 1); }
                return Some(ReadStop::Overflow);
            }
            if !is_object_char(c) {
                proof { lemma_grid_stop(st0, line@, i as int + 1); }
                return Some(ReadStop::BadChar);
            }
            let o = Obj::from_char(&c);
            let ghost before = self.data@;
            let ghost at = st0.h * w + i;
            if is_h {
                self.human = Some((i as u16, self.h));
            }
            if is_o {
                self.holes = self.holes + 1;
            }
            if is_b {
                self.boxes = self.boxes + 1;
            }
            self.data.push(o);
            proof {
                assert(self.data@ == before.push(char_obj(c)));
                if is_h {
                    assert(is_human_obj(char_obj(c)));
                    assert(st0.h * w + i == at);
                } else {
                    assert(!is_human_obj(char_obj(c)));
                }
            }
            i = i + 1;
        }
        proof {
            assert(line@.take(line@.len() as int) =~= line@);
            assert(is_ascii_chars(line@));
            lemma_ascii_byte_len(line@);
            assert(st0.h * w + w == (st0.h + 1) * w) by (nonlinear_arith);
        }
        if self.h == 65535 {
            return Some(ReadStop::Overflow);
        }
        self.h = self.h + 1;
        proof {
            let r = grid_chars(st0, line@);
            assert(r.stop is None);
            assert(self.state() == ReadState { h: r.h + 1, ..r });
            let st = self.state();
            assert(st.stop is None);
            assert(0 <= st.w < 65536);
            assert(0 <= st.h <= 65535);
            assert(st.data.len() == st.h * st.w);
            assert(humans_ok(st.data, st.human, st.w));
            assert(st.human matches Some((x, y)) ==> y < st.h);
            assert(reader_ok(self.state()));
        }
        None
    }

    /// Reads a setting line.
    fn kv_row(&mut self, line: &Vec<char>)
        requires
            reader_ok(old(self).state()),
            old(self).started,
        ensures
            final(self).state() == kv_row(old(self).state(), line@),
            reader_ok(final(self).state()),
            final(self).started,
    {
        let blen = byte_len_of(line);
        match find_colon(line) {
            Some(i) => {
                assert(i < line@.len());
                if blen >= 2 {
                    let left = trimmed(line, 0, i);
                    if left.len() > 0 {
                        let n = line.len();
                        let right = trimmed(line, i + 1, n);
                        assert(line@.take(i as int) =~= line@.subrange(0, i as int));
                        assert(line@.skip(i as int + 1) =~= line@.subrange(i as int + 1, line@.len() as int));
                        let k = chars_to_string(left.as_slice());
                        let v = chars_to_string(right.as_slice());
                        kv_store(&mut self.keyvals, k, v);
                    } else {
                        assert(line@.take(i as int) =~= line@.subrange(0, i as int));
                    }
                }
            },
            None => {},
        }
        self.kvmode = true;
    }

    /// Reads a line.
    fn read_line(&mut self, line: &Vec<char>) -> (res: Option<ReadStop>)
        requires
            reader_ok(old(self).state()),
        ensures
            match res {
                None => final(self).state() == read_line(old(self).state(), line@) && reader_ok(final(self).state()),
                Some(e) => read_line(old(self).state(), line@).stop == Some(e),
            },
    {
        let blen = byte_len_of(line);
        if !self.started {
            self.w = (blen % 65536) as u16;
            self.started = true;
        }
        if !self.kvmode && blen == self.w as u128 {
            self.grid_row(line)
        } else {
            self.kv_row(line);
            None
        }
    }
}


/// Cell (x, y) inside the border is cell `(y - 1) * (w - 2) + (x - 1)` of the inner grid.
pub proof fn lemma_inner_cell(w: int, h: int, x: int, y: int)
    requires
        w >= 3,
        h >= 3,
        1 <= x <= w - 2,
        1 <= y <= h - 2,
    ensures
        0 <= (y - 1) * (w - 2) + (x - 1) < (w - 2) * (h - 2),
        inner_source(w, (y - 1) * (w - 2) + (x - 1)) == y * w + x,
        y * w + x < w * h,
{
    let m = w - 2;
    let k = (y - 1) * m + (x - 1);
    lemma_fundamental_div_mod_converse(k, m, y - 1, x - 1);
    assert(0 <= (y - 1) * m) by (nonlinear_arith) requires y >= 1, m >= 1;
    assert((y - 1) * m + (x - 1) < m * (h - 2)) by (nonlinear_arith) requires 1 <= x <= m, 1 <= y <= h - 2, m >= 1;
    assert(y * w + x < w * h) by (nonlinear_arith) requires 1 <= x <= w - 2, 1 <= y <= h - 2;
}

/// Every cell of the inner grid comes from a cell of the whole grid; only the cell that
/// (x, y) gives comes from (x, y).
proof fn lemma_inner_source(w: int, h: int, i: int, x: int, y: int)
    requires
        w >= 3,
        h >= 3,
        0 <= i < (w - 2) * (h - 2),
        1 <= x <= w - 2,
        1 <= y <= h - 2,
    ensures
        0 <= inner_source(w, i) < w * h,
        inner_source(w, i) == y * w + x ==> i == (y - 1) * (w - 2) + (x - 1),
{
    let m = w - 2;
    let q = i / m;
    let r = i % m;
    lemma_fundamental_div_mod(i, m);
    assert(0 <= q < h - 2) by (nonlinear_arith) requires i == m * q + r, 0 <= r < m, 0 <= i < m * (h - 2), m >= 1;
    assert(0 <= inner_source(w, i) < w * h) by (nonlinear_arith)
        requires inner_source(w, i) == (q + 1) * w + r + 1, 0 <= q < h - 2, 0 <= r < m, m == w - 2;
    if inner_source(w, i) == y * w + x {
        lemma_fundamental_div_mod_converse(inner_source(w, i), w, y, x);
        lemma_fundamental_div_mod_converse(inner_source(w, i), w, q + 1, r + 1);
        assert(i == (y - 1) * m + (x - 1)) by (nonlinear_arith)
            requires i == m * q + r, q + 1 == y, r + 1 == x;
    }
}

/// The message for an end that is not a built level.
pub fn end_text(e: TextEnd) -> (m: &'static str)
    ensures
        m@ == end_message(e),
{
    match e {
        TextEnd::Built => "",
        TextEnd::TwoHumans => "More than one human found!",
        TextEnd::BadChar => "Char does not represent a valid object",
        TextEnd::Overflow => "attempt to add with overflow",
        TextEnd::Undersized => "attempt to subtract with overflow",
        TextEnd::NoHuman => "Human not found in level!",
        TextEnd::TooSmall => "Width and Height must be at least 1!",
        TextEnd::TooBig => "Level too big! Maximum width 127. Maximum height 127. Maximum width * height 256.",
        TextEnd::Unbalanced => "Num boxes is not equal to num holes!",
        TextEnd::NoBox => "Must be at least one box!",
        TextEnd::TooManyBoxes => "Too many boxes! (Maximum 24)",
        TextEnd::HumanOnBorder => "Human not where it should be",
    }
}

/// Whether the text is malformed past an error message at this end (reading such a
/// text is a fault rather than an error).
pub fn is_malformed_end(e: TextEnd) -> (r: bool)
    ensures
        r == is_malformed(e),
{
    match e {
        TextEnd::BadChar | TextEnd::Overflow | TextEnd::Undersized | TextEnd::HumanOnBorder => true,
        _ => false,
    }
}

/// The end that a stop gives.
fn stop_end(e: ReadStop) -> (r: TextEnd)
    ensures
        r == (match e {
            ReadStop::TwoHumans => TextEnd::TwoHumans,
            ReadStop::BadChar => TextEnd::BadChar,
            ReadStop::Overflow => TextEnd::Overflow,
        }),
{
    match e {
        ReadStop::TwoHumans => TextEnd::TwoHumans,
        ReadStop::BadChar => TextEnd::BadChar,
        ReadStop::Overflow => TextEnd::Overflow,
    }
}

impl Level {
    /// Reads a level text (see the module documentation). Every text that gives no level
    /// gives the way its reading ends; nothing panics.
    pub fn read_level_text(level_str: &str) -> (r: Result<Level, TextEnd>)
        ensures
            match r {
                Ok(l) => text_end(level_str@) == TextEnd::Built && made_from(l@, read_text(level_str@))
                    && l@.is_built() && reader_ok(read_text(level_str@)) && counts_match(read_text(level_str@)),
                Err(e) => e == text_end(level_str@) && e != TextEnd::Built,
            },
    {
        let chars = str_to_chars(level_str);
        let ghost s = level_str@;
        let mut rd = Reader::new();
        let mut line: Vec<char> = Vec::new();
        let mut i: usize = 0;
        proof { assert(s.take(0) =~= Seq::<char>::empty()); }
        while i < chars.len()
            invariant
                chars@ == s,
                s == level_str@,
                i <= s.len(),
                read_chars(s.take(i as int)) == (rd.state(), line@),
                reader_ok(rd.state()),
                counts_match(rd.state()),
            decreases s.len() - i,
        {
            let c = chars[i];
            proof { assert(s.take(i as int + 1).drop_last() =~= s.take(i as int)); }
            if c == '\n' {
                let ghost full = line@;
                let n = line.len();
                if n > 0 && line[n - 1] == '\r' {
                    line.pop();
                }
                assert(line@ == strip_cr(full)) by {
                    if n > 0 && full.last() == '\r' {
                        assert(line@ =~= full.drop_last());
                    }
                }
                let ghost before = rd.state();
                assert(s.take(i as int + 1).last() == c);
                match rd.read_line(&line) {
                    Some(e) => {
                        proof {
                            assert(read_chars(s.take(i as int + 1)).0 == read_line(before, line@));
                            lemma_text_stop(s, i as int + 1);
                            assert(read_text(s).stop == Some(e));
                        }
                        let r = stop_end(e);
                        assert(r == text_end(s));
                        assert(r != TextEnd::Built);
                        return Err(r);
                    },
                    None => {
                        proof { lemma_read_line_counts(before, line@); }
                    },
                }
                line = Vec::new();
                assert(line@ =~= Seq::<char>::empty());
            } else {
                line.push(c);
            }
            i = i + 1;
        }
        proof { assert(s.take(s.len() as int) =~= s); }
        if line.len() > 0 {
            let ghost before = rd.state();
            match rd.read_line(&line) {
                Some(e) => {
                    return Err(stop_end(e));
                },
                None => {
                    proof { lemma_read_line_counts(before, line@); }
                },
            }
        }
        let ghost st = rd.state();
        assert(st == read_text(s));
        if rd.w < 2 || rd.h < 2 {
            return Err(TextEnd::Undersized);
        }
        let (hx, hy) = match rd.human {
            None => {
                return Err(TextEnd::NoHuman);
            },
            Some(p) => p,
        };
        let w2 = rd.w - 2;
        let h2 = rd.h - 2;
        if w2 < 1 || h2 < 1 {
            return Err(TextEnd::TooSmall);
        }
        if w2 > 127 || h2 > 127 {
            return Err(TextEnd::TooBig);
        }
        assert(w2 * h2 <= 16129) by (nonlinear_arith)
            requires w2 <= 127, h2 <= 127;
        if w2 * h2 > 256 {
            return Err(TextEnd::TooBig);
        }
        if rd.boxes != rd.holes {
            return Err(TextEnd::Unbalanced);
        }
        if rd.boxes < 1 {
            return Err(TextEnd::NoBox);
        }
        if rd.boxes > 24 {
            return Err(TextEnd::TooManyBoxes);
        }
        if hx == 0 || hy == 0 || hx == rd.w - 1 || hy == rd.h - 1 {
            return Err(TextEnd::HumanOnBorder);
        }
        let w = rd.w as usize;
        let h = rd.h as usize;
        let ghost wi = w as int;
        let ghost hi = h as int;
        let mut tdata: Vec<Obj> = Vec::new();
        let mut y: usize = 1;
        while y < h - 1
            invariant
                st == rd.state(),
                reader_ok(st),
                wi == st.w,
                hi == st.h,
                w == wi,
                h == hi,
                3 <= wi <= 129,
                3 <= hi <= 129,
                1 <= y <= hi - 1,
                tdata@.len() == (y - 1) * (wi - 2),
                forall|k: int| 0 <= k < tdata@.len() ==> #[trigger] tdata@[k] == st.data[inner_source(wi, k)],
            decreases hi - y,
        {
            let mut x: usize = 1;
            while x < w - 1
                invariant
                    st == rd.state(),
                    reader_ok(st),
                    wi == st.w,
                    hi == st.h,
                    w == wi,
                    h == hi,
                    3 <= wi <= 129,
                    3 <= hi <= 129,
                    1 <= y <= hi - 2,
                    1 <= x <= wi - 1,
                    tdata@.len() == (y - 1) * (wi - 2) + (x - 1),
                    forall|k: int| 0 <= k < tdata@.len() ==> #[trigger] tdata@[k] == st.data[inner_source(wi, k)],
                decreases wi - x,
            {
                proof { lemma_inner_cell(wi, hi, x as int, y as int); }
                assert(y * w + x < st.data.len() && y * w <= 16641) by (nonlinear_arith)
                    requires y * wi + x < wi * hi, st.data.len() == hi * wi, w == wi, y <= 129, w <= 129;
                tdata.push(rd.data[y * w + x]);
                x = x + 1;
            }
            assert((y - 1) * (wi - 2) + (wi - 2) == y * (wi - 2)) by (nonlinear_arith);
            y = y + 1;
        }
        assert(tdata@ =~= inner_grid(st.data, wi, hi)) by {
            assert((hi - 2) * (wi - 2) == (wi - 2) * (hi - 2)) by (nonlinear_arith);
        }
        let human_pos = Vector(hx as i32 - 1, hy as i32 - 1);
        let ghost cell = (hy - 1) * (wi - 2) + (hx - 1);
        proof {
            lemma_inner_cell(wi, hi, hx as int, hy as int);
            assert(st.human == Some((hx as int, hy as int)));
            assert(humans_ok(st.data, st.human, wi));
            assert forall|i: int| 0 <= i < tdata@.len() && i != cell
                implies !is_human_obj(#[trigger] tdata@[i]) by {
                lemma_inner_source(wi, hi, i, hx as int, hy as int);
                assert(tdata@[i] == st.data[inner_source(wi, i)]);
                assert(inner_source(wi, i) != hy * wi + hx);
                assert(wi * hi == hi * wi) by (nonlinear_arith);
            }
            assert(cell_index((wi - 2) as int, human_pos) == cell);
        }
        let mut level = Level::assemble(w2, h2, human_pos, tdata, rd.keyvals);
        level.build();
        Ok(level)
    }

    /// Reads a level from its text (see the module documentation), or gives the message of
    /// the error that stops it. The text must not be malformed past such a message.
    pub fn from_str(level_str: &str) -> (r: Result<Level, &'static str>)
        requires
            !is_malformed(text_end(level_str@)),
        ensures
            match r {
                Ok(l) => text_end(level_str@) == TextEnd::Built && made_from(l@, read_text(level_str@))
                    && l@.is_built() && reader_ok(read_text(level_str@)) && counts_match(read_text(level_str@)),
                Err(m) => text_end(level_str@) != TextEnd::Built && m@ == end_message(text_end(level_str@)),
            },
    {
        match Level::read_level_text(level_str) {
            Ok(l) => Ok(l),
            Err(e) => Err(end_text(e)),
        }
    }

    /// Reads built-in level `number`; a number past the last level is an error. (Every
    /// built-in text reads to a level; one that did not would give its end's message.)
    pub fn from_builtin(number: usize) -> (r: Result<Level, &'static str>)
        ensures
            number >= BUILTIN_LEVELS@.len() ==> r == Err::<Level, &'static str>("Level number too high"),
            number < BUILTIN_LEVELS@.len() ==> match r {
                Ok(l) => text_end(BUILTIN_LEVELS@[number as int]@) == TextEnd::Built
                    && made_from(l@, read_text(BUILTIN_LEVELS@[number as int]@)) && l@.is_built(),
                Err(m) => text_end(BUILTIN_LEVELS@[number as int]@) != TextEnd::Built
                    && m@ == end_message(text_end(BUILTIN_LEVELS@[number as int]@)),
            },
    {
        if number >= BUILTIN_LEVELS.len() {
            return Err("Level number too high");
        }
        let text = BUILTIN_LEVELS[number];
        match Level::read_level_text(text) {
            Ok(l) => Ok(l),
            Err(e) => Err(end_text(e)),
        }
    }
}


/// The value of a string of decimal digits.
pub open spec fn digits_value(s: Seq<char>) -> int
    decreases s.len(),
{
    if s.len() == 0 { 0 } else { digits_value(s.drop_last()) * 10 + (s.last() as int - '0' as int) }
}

/// Every character is a decimal digit.
pub open spec fn all_digits(s: Seq<char>) -> bool {
    forall|i: int| 0 <= i < s.len() ==> '0' <= #[trigger] s[i] <= '9'
}

/// A 16-bit number written in decimal, with an optional `+` before it.
pub open spec fn parse_u16(s: Seq<char>) -> Option<u16> {
    let d = if s.len() > 0 && s[0] == '+' { s.drop_first() } else { s };
    if d.len() > 0 && all_digits(d) && digits_value(d) <= 65535 { Some(digits_value(d) as u16) } else { None }
}

/// Reads a 16-bit number written in decimal, with an optional `+` before it.
pub fn read_u16(s: &str) -> (r: Option<u16>)
    ensures
        r == parse_u16(s@),
{
    let cs = str_to_chars(s);
    let ghost t = s@;
    let start: usize = if cs.len() > 0 && cs[0] == '+' { 1 } else { 0 };
    let ghost d = if t.len() > 0 && t[0] == '+' { t.drop_first() } else { t };
    assert(d =~= t.subrange(start as int, t.len() as int));
    if start == cs.len() {
        return None;
    }
    let mut v: u32 = 0;
    let mut over = false;
    let mut i: usize = start;
    while i < cs.len()
        invariant
            cs@ == t,
            t == s@,
            d == (if t.len() > 0 && t[0] == '+' { t.drop_first() } else { t }),
            start <= i <= t.len(),
            d == t.subrange(start as int, t.len() as int),
            all_digits(d.take(i - start)),
            over ==> digits_value(d.take(i - start)) > 65535,
            !over ==> v == digits_value(d.take(i - start)) && v <= 65535,
        decreases t.len() - i,
    {
        let c = cs[i];
        if !('0' <= c && c <= '9') {
            proof {
                let k = (i - start) as int;
                assert(d[k] == c);
                assert(!('0' <= d[k] <= '9'));
                assert(!all_digits(d));
            }
            return None;
        }
        let k = i - start;
        assert(d.take(k + 1).drop_last() =~= d.take(k as int));
        assert(d.take(k + 1).last() == c);
        if !over {
            let nv = v * 10 + (c as u32 - '0' as u32);
            if nv > 65535 {
                over = true;
            } else {
                v = nv;
            }
        }
        assert(all_digits(d.take(k + 1))) by {
            assert forall|j: int| 0 <= j < k + 1 implies '0' <= #[trigger] d.take(k + 1)[j] <= '9' by {
                if j < k { assert(d.take(k + 1)[j] == d.take(k as int)[j]); }
            }
        }
        i = i + 1;
    }
    assert(d.take(d.len() as int) =~= d);
    if over { None } else { Some(v as u16) }
}

/// What a look at a built-in level finds.
pub enum BuiltinCheck {
    /// The level reads, and its `num` setting is its index.
    Fine,
    /// The level does not read; the message says why.
    Invalid(&'static str),
    /// The level's `num` setting is another number.
    NumMismatch(u16),
    /// The level has no `num` setting.
    NoNum,
    /// The level's `num` setting is not a 16-bit number.
    NumUnreadable,
}

/// Looks at built-in level `i`: whether it reads, and whether its `num` setting is `i`.
pub fn check_builtin(i: usize) -> (r: BuiltinCheck)
    ensures
        i >= BUILTIN_LEVELS@.len() ==> r == BuiltinCheck::Invalid("Level number too high"),
        i < BUILTIN_LEVELS@.len() ==> {
            let t = BUILTIN_LEVELS@[i as int]@;
            if text_end(t) != TextEnd::Built {
                r matches BuiltinCheck::Invalid(m) && m@ == end_message(text_end(t))
            } else {
                match kv_get(read_text(t).keyvals, "num"@) {
                    None => r == BuiltinCheck::NoNum,
                    Some(v) => match parse_u16(v) {
                        None => r == BuiltinCheck::NumUnreadable,
                        Some(n) => if n == i { r == BuiltinCheck::Fine } else { r == BuiltinCheck::NumMismatch(n) },
                    },
                }
            }
        },
{
    let level = Level::from_builtin(i);
    match level {
        Err(m) => BuiltinCheck::Invalid(m),
        Ok(l) => {
            if l.contains_key("num") {
                let v = l.get_keyval("num");
                match read_u16(v.as_str()) {
                    None => BuiltinCheck::NumUnreadable,
                    Some(n) => if n as usize == i { BuiltinCheck::Fine } else { BuiltinCheck::NumMismatch(n) },
                }
            } else {
                BuiltinCheck::NoNum
            }
        },
    }
}

} // verus!
