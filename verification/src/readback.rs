//! A level's text reads back as the level: reading the grid that `Level::to_string` writes
//! (the rows inside a border of walls) gives the same size, grid and human.
use vstd::prelude::*;
use vstd::utf8::is_ascii_chars;
use crate::obj::{Obj, obj_char, lemma_obj_char_roundtrip, is_obj_char, char_obj};
use crate::level::{LevelView, lemma_count_boxes_bound, level_text, border_line, rows_text, row_text, count_boxes, is_box_obj, is_hole_obj,
    cell_index};
use crate::parse::{ReadState, start_state, read_chars, read_text, read_line, strip_cr, grid_row, grid_chars,
    grid_char, text_end, TextEnd, made_from, inner_grid, inner_source, human_x, human_y, is_human_char,
    on_border, reader_ok,
    is_hole_char, is_box_char, is_human_obj};
use crate::textread::{byte_len, lemma_ascii_byte_len};

verus! {

/// The number of cells holding a hole (empty, with the human, or with a box).
pub open spec fn count_holes(data: Seq<Obj>) -> nat
    decreases data.len(),
{
    if data.len() == 0 {
        0
    } else {
        count_holes(data.drop_last()) + (if is_hole_obj(data.last()) { 1nat } else { 0nat })
    }
}

/// A level whose text reads back: a grid with the human at its place and nowhere else,
/// 1 to 127 cells wide and high and at most 256 cells, with as many holes as boxes and
/// between 1 and 24 boxes.
pub open spec fn reads_back(v: LevelView) -> bool {
    &&& v.wf()
    &&& v.human_placed()
    &&& 1 <= v.w <= 127
    &&& 1 <= v.h <= 127
    &&& v.w * v.h <= 256
    &&& count_boxes(v.data) == count_holes(v.data)
    &&& 1 <= count_boxes(v.data) <= 24
}

/// Row `r` of the framed grid: the border rows are walls, and every other row is the
/// level's row between two walls.
pub open spec fn frame_row(v: LevelView, r: int) -> Seq<Obj> {
    if r == 0 || r == v.h + 1 {
        Seq::new((v.w + 2) as nat, |c: int| Obj::Wall)
    } else {
        seq![Obj::Wall] + v.data.subrange((r - 1) * v.w, r * v.w) + seq![Obj::Wall]
    }
}

/// The first `k` rows of the framed grid, one after the other.
pub open spec fn framed(v: LevelView, k: int) -> Seq<Obj>
    decreases k,
{
    if k <= 0 { Seq::empty() } else { framed(v, k - 1) + frame_row(v, k - 1) }
}

/// The characters of a row of objects.
pub open spec fn row_chars(row: Seq<Obj>) -> Seq<char> {
    row.map_values(|o: Obj| obj_char(o))
}

/// The text of the first `k` rows of the framed grid, each ended by a line end.
pub open spec fn framed_text(v: LevelView, k: int) -> Seq<char>
    decreases k,
{
    if k <= 0 { Seq::empty() } else { framed_text(v, k - 1) + row_chars(frame_row(v, k - 1)).push('\n') }
}

/// The human's row and column in the framed grid.
pub open spec fn framed_human(v: LevelView) -> (int, int) {
    (v.human_pos.0 + 1, v.human_pos.1 + 1)
}

/// The reading state after the first `k` rows of the framed grid.
pub open spec fn state_after(v: LevelView, k: int) -> ReadState {
    ReadState {
        started: k > 0,
        w: if k > 0 { v.w + 2 } else { 0 },
        h: k,
        data: framed(v, k),
        human: if v.human_pos.1 + 1 < k { Some(framed_human(v)) } else { None },
        keyvals: Seq::empty(),
        kvmode: false,
        boxes: count_boxes(framed(v, k)) as int,
        holes: count_holes(framed(v, k)) as int,
        stop: None,
    }
}

/// Counting boxes over two parts adds up.
proof fn lemma_count_boxes_concat(a: Seq<Obj>, b: Seq<Obj>)
    ensures
        count_boxes(a + b) == count_boxes(a) + count_boxes(b),
    decreases b.len(),
{
    if b.len() > 0 {
        lemma_count_boxes_concat(a, b.drop_last());
        assert((a + b).drop_last() =~= a + b.drop_last());
    } else {
        assert(a + b =~= a);
    }
}

/// Counting holes over two parts adds up.
proof fn lemma_count_holes_concat(a: Seq<Obj>, b: Seq<Obj>)
    ensures
        count_holes(a + b) == count_holes(a) + count_holes(b),
    decreases b.len(),
{
    if b.len() > 0 {
        lemma_count_holes_concat(a, b.drop_last());
        assert((a + b).drop_last() =~= a + b.drop_last());
    } else {
        assert(a + b =~= a);
    }
}

/// Reading characters that hold no line end adds them to the line being read.
proof fn lemma_read_rest(a: Seq<char>, line: Seq<char>)
    requires
        forall|i: int| 0 <= i < line.len() ==> #[trigger] line[i] != '\n',
    ensures
        read_chars(a + line) == (read_chars(a).0, read_chars(a).1 + line),
    decreases line.len(),
{
    if line.len() == 0 {
        assert(a + line =~= a);
        assert(read_chars(a).1 + line =~= read_chars(a).1);
    } else {
        lemma_read_rest(a, line.drop_last());
        assert((a + line).drop_last() =~= a + line.drop_last());
        assert((a + line).last() == line.last());
        assert(read_chars(a).1 + line.drop_last() + seq![line.last()] =~= read_chars(a).1 + line);
        assert((read_chars(a).1 + line.drop_last()).push(line.last()) =~= read_chars(a).1 + line);
    }
}

/// Reading a whole line after a line end: the line is read.
proof fn lemma_read_line_end(a: Seq<char>, line: Seq<char>)
    requires
        read_chars(a).1 == Seq::<char>::empty(),
        forall|i: int| 0 <= i < line.len() ==> #[trigger] line[i] != '\n',
        line.len() > 0 ==> line.last() != '\r',
    ensures
        read_chars(a + line.push('\n')) == (read_line(read_chars(a).0, line), Seq::<char>::empty()),
{
    lemma_read_rest(a, line);
    assert(Seq::<char>::empty() + line =~= line);
    assert((a + line.push('\n')).drop_last() =~= a + line);
    assert(strip_cr(line) == line);
}

/// A grid holds no more holes than cells.
proof fn lemma_count_holes_bound(data: Seq<Obj>)
    ensures
        count_holes(data) <= data.len(),
    decreases data.len(),
{
    if data.len() > 0 {
        lemma_count_holes_bound(data.drop_last());
    }
}

/// The framed rows: `k` of them, each as wide as the grid and its two walls, and cell `c`
/// of row `r` is where it is expected.
proof fn lemma_framed_at(v: LevelView, k: int, r: int, c: int)
    requires
        v.wf(),
        0 <= k <= v.h + 2,
        0 <= r < k,
        0 <= c < v.w + 2,
    ensures
        framed(v, k).len() == k * (v.w + 2),
        0 <= r * (v.w + 2) + c < k * (v.w + 2),
        framed(v, k)[r * (v.w + 2) + c] == frame_row(v, r)[c],
    decreases k,
{
    let ww = v.w + 2;
    lemma_framed_len(v, k);
    lemma_frame_row_len(v, k - 1);
    assert(0 <= r * ww + c < k * ww) by (nonlinear_arith)
        requires 0 <= r < k, 0 <= c < ww;
    if r < k - 1 {
        lemma_framed_at(v, k - 1, r, c);
        assert((framed(v, k - 1) + frame_row(v, k - 1))[r * ww + c] == framed(v, k - 1)[r * ww + c]);
    } else {
        lemma_framed_len(v, k - 1);
        assert(r * ww + c - (k - 1) * ww == c) by (nonlinear_arith)
            requires r == k - 1;
    }
}

/// Each framed row is as wide as the grid and its two walls.
proof fn lemma_frame_row_len(v: LevelView, r: int)
    requires
        v.wf(),
        0 <= r <= v.h + 1,
    ensures
        frame_row(v, r).len() == v.w + 2,
{
    if !(r == 0 || r == v.h + 1) {
        assert(0 <= (r - 1) * v.w <= r * v.w <= v.w * v.h) by (nonlinear_arith)
            requires 1 <= r <= v.h, v.w >= 0;
        assert(r * v.w - (r - 1) * v.w == v.w) by (nonlinear_arith);
    }
}

/// Cell `c` of framed row `r`: a wall on the border, else the level's cell.
proof fn lemma_frame_row_at(v: LevelView, r: int, c: int)
    requires
        v.wf(),
        0 <= r <= v.h + 1,
        0 <= c < v.w + 2,
    ensures
        frame_row(v, r)[c] == (if r == 0 || r == v.h + 1 || c == 0 || c == v.w + 1 { Obj::Wall } else {
            v.data[(r - 1) * v.w + c - 1]
        }),
        (1 <= r <= v.h && 1 <= c <= v.w) ==> 0 <= (r - 1) * v.w + c - 1 < v.data.len(),
{
    lemma_frame_row_len(v, r);
    if r == 0 || r == v.h + 1 {
        assert(frame_row(v, r)[c] == Obj::Wall);
    } else {
        assert(0 <= (r - 1) * v.w <= r * v.w <= v.w * v.h && r * v.w - (r - 1) * v.w == v.w) by (nonlinear_arith)
            requires 1 <= r <= v.h, v.w >= 0;
        let sub = v.data.subrange((r - 1) * v.w, r * v.w);
        assert(sub.len() == v.w);
        let row = seq![Obj::Wall] + sub + seq![Obj::Wall];
        assert(frame_row(v, r) == row);
        if c == 0 {
            assert(row[c] == Obj::Wall);
        } else if c == v.w + 1 {
            assert(row[c] == Obj::Wall);
        } else {
            assert(row[c] == sub[c - 1]);
            assert(0 <= (r - 1) * v.w + c - 1 < v.w * v.h) by (nonlinear_arith)
                requires 1 <= r <= v.h, 1 <= c <= v.w;
        }
    }
}

/// Two cells of a `w`-wide grid are the same only at the same row and column.
proof fn lemma_cell_unique(p: int, a: int, q: int, b: int, w: int)
    requires
        0 <= a < w,
        0 <= b < w,
        p * w + a == q * w + b,
    ensures
        p == q,
        a == b,
{
    assert(p == q) by (nonlinear_arith)
        requires 0 <= a < w, 0 <= b < w, p * w + a == q * w + b;
}

/// In the framed grid the human stands at its own place, moved in by the border, and
/// nowhere else.
proof fn lemma_human_cell(v: LevelView, r: int, c: int)
    requires
        v.wf(),
        v.human_placed(),
        0 <= r <= v.h + 1,
        0 <= c < v.w + 2,
    ensures
        is_human_obj(frame_row(v, r)[c]) <==> (r == v.human_pos.1 + 1 && c == v.human_pos.0 + 1),
{
    lemma_frame_row_at(v, r, c);
    let hx = v.human_pos.0 as int;
    let hy = v.human_pos.1 as int;
    let hi = cell_index(v.w as int, v.human_pos);
    assert(hi == hy * v.w + hx);
    assert(0 <= hi < v.data.len()) by (nonlinear_arith)
        requires 0 <= hx < v.w, 0 <= hy < v.h, hi == hy * v.w + hx, v.data.len() == v.w * v.h;
    if 1 <= r <= v.h && 1 <= c <= v.w {
        let i = (r - 1) * v.w + c - 1;
        if i == hi {
            lemma_cell_unique(r - 1, c - 1, hy, hx, v.w as int);
        }
    }
}

/// The first `k` framed rows hold `k` rows of the framed width.
proof fn lemma_framed_len(v: LevelView, k: int)
    requires
        v.wf(),
        0 <= k <= v.h + 2,
    ensures
        framed(v, k).len() == k * (v.w + 2),
    decreases k,
{
    let ww = v.w + 2;
    if k > 0 {
        lemma_framed_len(v, k - 1);
        lemma_frame_row_len(v, k - 1);
        assert(framed(v, k).len() == framed(v, k - 1).len() + frame_row(v, k - 1).len());
        assert((k - 1) * ww + ww == k * ww) by (nonlinear_arith);
    } else {
        assert(k * ww == 0) by (nonlinear_arith) requires k == 0;
    }
}

/// The reading state after the first `j` cells of framed row `k`.
pub open spec fn row_state(v: LevelView, k: int, j: int) -> ReadState {
    let d = framed(v, k) + frame_row(v, k).take(j);
    ReadState {
        started: true,
        w: v.w + 2,
        h: k,
        data: d,
        human: if v.human_pos.1 + 1 < k || (v.human_pos.1 + 1 == k && v.human_pos.0 + 1 < j) {
            Some(framed_human(v))
        } else {
            None
        },
        keyvals: Seq::empty(),
        kvmode: false,
        boxes: count_boxes(d) as int,
        holes: count_holes(d) as int,
        stop: None,
    }
}

/// Adding one object adds to the counts as the object says.
proof fn lemma_counts_push(d: Seq<Obj>, o: Obj)
    ensures
        count_boxes(d.push(o)) == count_boxes(d) + (if is_box_obj(o) { 1nat } else { 0nat }),
        count_holes(d.push(o)) == count_holes(d) + (if is_hole_obj(o) { 1nat } else { 0nat }),
{
    assert(d.push(o).drop_last() =~= d);
}

/// The characters of a row: one per object, none of them a line end, all ASCII.
proof fn lemma_row_chars(row: Seq<Obj>)
    ensures
        row_chars(row).len() == row.len(),
        forall|i: int| 0 <= i < row.len() ==> #[trigger] row_chars(row)[i] == obj_char(row[i]),
        forall|i: int| 0 <= i < row.len() ==> #[trigger] row_chars(row)[i] != '\n' && row_chars(row)[i] != '\r',
        is_ascii_chars(row_chars(row)),
        byte_len(row_chars(row)) == row.len(),
{
    let line = row_chars(row);
    assert forall|i: int| 0 <= i < line.len() implies '\0' <= #[trigger] line[i] <= '\u{7f}' by {
        assert(line[i] == obj_char(row[i]));
    }
    lemma_ascii_byte_len(line);
}

/// Reading cell `j` of framed row `k` goes from the state before it to the state after it.
proof fn lemma_read_cell(v: LevelView, k: int, j: int)
    requires
        reads_back(v),
        0 <= k < v.h + 2,
        0 <= j < v.w + 2,
    ensures
        grid_char(row_state(v, k, j), j, obj_char(frame_row(v, k)[j])) == row_state(v, k, j + 1),
{
    let ww = v.w + 2;
    let row = frame_row(v, k);
    let o = row[j];
    let c = obj_char(o);
    let st = row_state(v, k, j);
    lemma_frame_row_len(v, k);
    lemma_human_cell(v, k, j);
    lemma_obj_char_roundtrip(o);
    lemma_framed_len(v, k);
    let d = framed(v, k) + row.take(j);
    assert(d.len() == k * ww + j);
    assert(k * ww + j <= 200000) by (nonlinear_arith)
        requires 0 <= k <= 128, 0 <= ww <= 129, 0 <= j <= 129;
    lemma_count_boxes_bound(d);
    lemma_count_holes_bound(d);
    lemma_counts_push(d, o);
    assert(d.push(o) =~= framed(v, k) + row.take(j + 1));
    assert(is_human_char(c) == is_human_obj(o));
    assert(is_hole_char(c) == is_hole_obj(o));
    assert(is_box_char(c) == is_box_obj(o));
    let next = grid_char(st, j, c);
    assert(next == row_state(v, k, j + 1));
}

/// Reading the first `j` cells of framed row `k`.
proof fn lemma_read_cells(v: LevelView, k: int, j: int)
    requires
        reads_back(v),
        0 <= k < v.h + 2,
        0 <= j <= v.w + 2,
    ensures
        grid_chars(row_state(v, k, 0), row_chars(frame_row(v, k)).take(j)) == row_state(v, k, j),
    decreases j,
{
    let line = row_chars(frame_row(v, k));
    lemma_frame_row_len(v, k);
    lemma_row_chars(frame_row(v, k));
    if j == 0 {
        assert(line.take(0) =~= Seq::<char>::empty());
    } else {
        lemma_read_cells(v, k, j - 1);
        assert(line.take(j).drop_last() =~= line.take(j - 1));
        assert(line.take(j).last() == obj_char(frame_row(v, k)[j - 1]));
        lemma_read_cell(v, k, j - 1);
    }
}

/// Reading framed row `k` as a line goes from the state before it to the state after it.
proof fn lemma_read_row(v: LevelView, k: int)
    requires
        reads_back(v),
        0 <= k < v.h + 2,
    ensures
        read_line(state_after(v, k), row_chars(frame_row(v, k))) == state_after(v, k + 1),
{
    let ww = v.w + 2;
    let row = frame_row(v, k);
    let line = row_chars(row);
    lemma_frame_row_len(v, k);
    lemma_row_chars(row);
    let st = state_after(v, k);
    let st1 = ReadState { started: true, w: ww, ..st };
    assert(framed(v, k) + row.take(0) =~= framed(v, k));
    assert(st1 == row_state(v, k, 0));
    assert(line.take(ww) =~= line);
    lemma_read_cells(v, k, ww);
    assert(framed(v, k) + row.take(ww) =~= framed(v, k + 1));
    assert(read_line(st, line) == grid_row(st1, line));
}

/// Reading the text of the first `k` framed rows gives the state after them, with no
/// line left open.
proof fn lemma_read_framed(v: LevelView, k: int)
    requires
        reads_back(v),
        0 <= k <= v.h + 2,
    ensures
        read_chars(framed_text(v, k)) == (state_after(v, k), Seq::<char>::empty()),
    decreases k,
{
    if k == 0 {
        assert(framed_text(v, 0) =~= Seq::<char>::empty());
        assert(framed(v, 0) =~= Seq::<Obj>::empty());
        assert(state_after(v, 0) == start_state());
    } else {
        lemma_read_framed(v, k - 1);
        let row = frame_row(v, k - 1);
        lemma_frame_row_len(v, k - 1);
        lemma_row_chars(row);
        let line = row_chars(row);
        assert(line.len() > 0 ==> line.last() != '\r') by {
            if line.len() > 0 {
                assert(line.last() == line[line.len() - 1]);
            }
        }
        lemma_read_line_end(framed_text(v, k - 1), line);
        lemma_read_row(v, k - 1);
    }
}

/// A wall row reads as a border line.
proof fn lemma_wall_row_text(v: LevelView, r: int)
    requires
        v.wf(),
        r == 0 || r == v.h + 1,
    ensures
        row_chars(frame_row(v, r)).push('\n') == border_line(v.w as nat + 2),
{
    lemma_frame_row_len(v, r);
    assert(row_chars(frame_row(v, r)).push('\n') =~= border_line(v.w as nat + 2));
}

/// An inner framed row reads as the level's row text.
proof fn lemma_inner_row_text(v: LevelView, y: int)
    requires
        v.wf(),
        0 <= y < v.h,
    ensures
        row_chars(frame_row(v, y + 1)).push('\n') == row_text(v, y),
{
    let a = row_chars(frame_row(v, y + 1)).push('\n');
    let b = row_text(v, y);
    lemma_frame_row_len(v, y + 1);
    lemma_row_chars(frame_row(v, y + 1));
    assert(a.len() == b.len());
    assert forall|i: int| 0 <= i < a.len() implies a[i] == b[i] by {
        if i < v.w + 2 {
            lemma_frame_row_at(v, y + 1, i);
            if 1 <= i <= v.w {
                assert(b[i] == obj_char(v.data[y * v.w + (i - 1)]));
                assert((y + 1 - 1) * v.w + i - 1 == y * v.w + (i - 1));
            }
        }
    }
    assert(a =~= b);
}

/// The framed text up to row `k + 1` is the top border and the level's first `k` rows.
proof fn lemma_framed_text_rows(v: LevelView, k: int)
    requires
        v.wf(),
        0 <= k <= v.h,
    ensures
        framed_text(v, k + 1) == border_line(v.w as nat + 2) + rows_text(v, k as nat),
    decreases k,
{
    if k == 0 {
        lemma_wall_row_text(v, 0);
        assert(framed_text(v, 0) =~= Seq::<char>::empty());
        assert(framed_text(v, 1) =~= border_line(v.w as nat + 2) + rows_text(v, 0));
    } else {
        lemma_framed_text_rows(v, k - 1);
        lemma_inner_row_text(v, k - 1);
        assert(framed_text(v, k + 1) =~= border_line(v.w as nat + 2) + rows_text(v, k as nat));
    }
}

/// The level's text is the text of its framed grid.
proof fn lemma_text_is_framed(v: LevelView)
    requires
        v.wf(),
    ensures
        level_text(v) == framed_text(v, v.h + 2),
{
    lemma_framed_text_rows(v, v.h as int);
    lemma_wall_row_text(v, v.h + 1);
    assert(level_text(v) =~= framed_text(v, v.h + 2));
}

/// A row of walls holds no box and no hole.
proof fn lemma_wall_counts(s: Seq<Obj>)
    requires
        forall|i: int| 0 <= i < s.len() ==> #[trigger] s[i] == Obj::Wall,
    ensures
        count_boxes(s) == 0,
        count_holes(s) == 0,
    decreases s.len(),
{
    if s.len() > 0 {
        lemma_wall_counts(s.drop_last());
    }
}

/// The boxes and holes of a framed row are those of the level's row inside it.
proof fn lemma_frame_row_counts(v: LevelView, r: int)
    requires
        v.wf(),
        0 <= r <= v.h + 1,
    ensures
        (r == 0 || r == v.h + 1) ==> count_boxes(frame_row(v, r)) == 0 && count_holes(frame_row(v, r)) == 0,
        1 <= r <= v.h ==> 0 <= (r - 1) * v.w <= r * v.w <= v.data.len(),
        1 <= r <= v.h ==> count_boxes(frame_row(v, r)) == count_boxes(v.data.subrange((r - 1) * v.w, r * v.w)),
        1 <= r <= v.h ==> count_holes(frame_row(v, r)) == count_holes(v.data.subrange((r - 1) * v.w, r * v.w)),
{
    if r == 0 || r == v.h + 1 {
        lemma_wall_counts(frame_row(v, r));
    } else {
        assert(0 <= (r - 1) * v.w <= r * v.w <= v.w * v.h) by (nonlinear_arith)
            requires 1 <= r <= v.h, v.w >= 0;
        let sub = v.data.subrange((r - 1) * v.w, r * v.w);
        let wall = seq![Obj::Wall];
        lemma_wall_counts(wall);
        lemma_count_boxes_concat(wall, sub);
        lemma_count_holes_concat(wall, sub);
        lemma_count_boxes_concat(wall + sub, wall);
        lemma_count_holes_concat(wall + sub, wall);
    }
}

/// The framed grid up to row `k + 1` holds the boxes and holes of the level's first `k` rows.
proof fn lemma_framed_counts(v: LevelView, k: int)
    requires
        v.wf(),
        0 <= k <= v.h,
    ensures
        0 <= k * v.w <= v.data.len(),
        count_boxes(framed(v, k + 1)) == count_boxes(v.data.take(k * v.w)),
        count_holes(framed(v, k + 1)) == count_holes(v.data.take(k * v.w)),
    decreases k,
{
    assert(0 <= k * v.w <= v.w * v.h) by (nonlinear_arith)
        requires 0 <= k <= v.h, v.w >= 0;
    if k == 0 {
        lemma_frame_row_counts(v, 0);
        assert(k * v.w == 0) by (nonlinear_arith) requires k == 0;
        assert(framed(v, 0) =~= Seq::<Obj>::empty());
        assert(framed(v, 1) =~= frame_row(v, 0));
        assert(v.data.take(0) =~= Seq::<Obj>::empty());
    } else {
        lemma_framed_counts(v, k - 1);
        lemma_frame_row_counts(v, k);
        let a = v.data.take((k - 1) * v.w);
        let b = v.data.subrange((k - 1) * v.w, k * v.w);
        assert(a + b =~= v.data.take(k * v.w));
        lemma_count_boxes_concat(a, b);
        lemma_count_holes_concat(a, b);
        lemma_count_boxes_concat(framed(v, k), frame_row(v, k));
        lemma_count_holes_concat(framed(v, k), frame_row(v, k));
        assert(framed(v, k + 1) == framed(v, k) + frame_row(v, k));
        assert(count_boxes(framed(v, k)) == count_boxes(a));
        assert(count_boxes(frame_row(v, k)) == count_boxes(b));
    }
}

/// The whole framed grid holds the level's boxes and holes.
proof fn lemma_framed_all_counts(v: LevelView)
    requires
        v.wf(),
    ensures
        count_boxes(framed(v, v.h + 2)) == count_boxes(v.data),
        count_holes(framed(v, v.h + 2)) == count_holes(v.data),
{
    lemma_framed_counts(v, v.h as int);
    lemma_frame_row_counts(v, v.h + 1);
    assert(v.data.take(v.h * v.w) =~= v.data) by {
        assert(v.h * v.w == v.w * v.h) by (nonlinear_arith);
    }
    lemma_count_boxes_concat(framed(v, v.h + 1), frame_row(v, v.h + 1));
    lemma_count_holes_concat(framed(v, v.h + 1), frame_row(v, v.h + 1));
}

/// The grid inside the border of the framed grid is the level's grid.
proof fn lemma_inner_is_data(v: LevelView)
    requires
        v.wf(),
        v.w >= 1,
    ensures
        inner_grid(framed(v, v.h + 2), v.w + 2, v.h + 2) == v.data,
{
    let ww = v.w + 2;
    let g = inner_grid(framed(v, v.h + 2), ww, v.h + 2);
    assert(g.len() == v.data.len());
    assert forall|i: int| 0 <= i < v.data.len() implies g[i] == v.data[i] by {
        let w = v.w as int;
        let r = i / w + 1;
        let c = i % w + 1;
        assert(0 <= i / w < v.h && 0 <= i % w < w && (i / w) * w + i % w == i) by (nonlinear_arith)
            requires 0 <= i < w * v.h, w >= 1;
        assert(inner_source(ww, i) == r * ww + c);
        lemma_framed_at(v, v.h + 2, r, c);
        lemma_frame_row_at(v, r, c);
        assert((r - 1) * w + c - 1 == i);
    }
    assert(g =~= v.data);
}

/// A level's text reads back as the level: reading the text that `Level::to_string` writes
/// builds a level of the same size, with the same grid and the human at the same place
/// (and no settings, as the text holds none).
pub proof fn lemma_level_text_reads_back(v: LevelView)
    requires
        reads_back(v),
    ensures
        text_end(level_text(v)) == TextEnd::Built,
        made_from(LevelView { keyvals: Seq::empty(), ..v }, read_text(level_text(v))),
{
    let hh = v.h + 2;
    lemma_text_is_framed(v);
    lemma_read_framed(v, hh);
    lemma_framed_all_counts(v);
    lemma_inner_is_data(v);
    let st = read_text(level_text(v));
    assert(st == state_after(v, hh));
    assert(st.w * st.h >= 0);
    assert(human_x(st) == v.human_pos.0 + 1);
    assert(human_y(st) == v.human_pos.1 + 1);
}

/// The reading state counts the boxes and holes of the cells read.
pub open spec fn counts_match(st: ReadState) -> bool {
    st.boxes == count_boxes(st.data) && st.holes == count_holes(st.data)
}

/// Reading a grid row keeps the counts in step with the cells read.
proof fn lemma_grid_chars_counts(st: ReadState, line: Seq<char>)
    requires
        counts_match(st),
    ensures
        counts_match(grid_chars(st, line)),
    decreases line.len(),
{
    if line.len() > 0 {
        lemma_grid_chars_counts(st, line.drop_last());
        let r = grid_chars(st, line.drop_last());
        let c = line.last();
        if r.stop is None && is_obj_char(c) {
            lemma_counts_push(r.data, char_obj(c));
        }
    }
}

/// Reading a line keeps the counts in step with the cells read.
pub proof fn lemma_read_line_counts(st: ReadState, line: Seq<char>)
    requires
        counts_match(st),
    ensures
        counts_match(read_line(st, line)),
{
    if st.stop is None {
        let w = if st.started { st.w } else { (byte_len(line) % 65536) as int };
        let st1 = ReadState { started: true, w: w, ..st };
        lemma_grid_chars_counts(st1, line);
    }
}

/// No border cell of the grid read holds a box or a hole (the border takes no piece).
pub open spec fn bare_border(st: ReadState) -> bool {
    forall|x: int, y: int| 0 <= x < st.w && 0 <= y < st.h && #[trigger] on_border(x, y, st.w, st.h)
        ==> !is_box_obj(st.data[y * st.w + x]) && !is_hole_obj(st.data[y * st.w + x])
}

/// Two grids that agree, cell by cell, on which cells hold boxes and which hold holes have
/// as many boxes and as many holes.
proof fn lemma_counts_agree(a: Seq<Obj>, b: Seq<Obj>)
    requires
        a.len() == b.len(),
        forall|i: int| 0 <= i < a.len() ==> is_box_obj(#[trigger] a[i]) == is_box_obj(b[i])
            && is_hole_obj(a[i]) == is_hole_obj(b[i]),
    ensures
        count_boxes(a) == count_boxes(b),
        count_holes(a) == count_holes(b),
    decreases a.len(),
{
    if a.len() > 0 {
        assert forall|i: int| 0 <= i < a.drop_last().len() implies is_box_obj(#[trigger] a.drop_last()[i])
            == is_box_obj(b.drop_last()[i]) && is_hole_obj(a.drop_last()[i]) == is_hole_obj(b.drop_last()[i]) by {
            assert(a.drop_last()[i] == a[i] && b.drop_last()[i] == b[i]);
        }
        lemma_counts_agree(a.drop_last(), b.drop_last());
        assert(a.last() == a[a.len() - 1] && b.last() == b[b.len() - 1]);
    }
}

/// A level read from a text whose border holds no box and no hole reads back: it meets
/// `reads_back`, so its own text, which puts a border of walls round the grid, reads back
/// as it (see `lemma_level_text_reads_back`).
pub proof fn lemma_bare_border_text_reads_back(s: Seq<char>, v: LevelView)
    requires
        text_end(s) == TextEnd::Built,
        made_from(v, read_text(s)),
        v.is_built(),
        reader_ok(read_text(s)),
        counts_match(read_text(s)),
        bare_border(read_text(s)),
    ensures
        reads_back(v),
        text_end(level_text(v)) == TextEnd::Built,
        made_from(LevelView { keyvals: Seq::empty(), ..v }, read_text(level_text(v))),
{
    let st = read_text(s);
    let ww = st.w;
    let hh = st.h;
    assert(v.w == ww - 2 && v.h == hh - 2);
    assert(ww >= 3 && hh >= 3);
    lemma_framed_len(v, hh);
    assert(st.data.len() == hh * ww);
    assert(framed(v, hh).len() == hh * ww);
    assert forall|i: int| 0 <= i < st.data.len() implies is_box_obj(#[trigger] st.data[i]) == is_box_obj(framed(v, hh)[i])
        && is_hole_obj(st.data[i]) == is_hole_obj(framed(v, hh)[i]) by {
        let r = i / ww;
        let c = i % ww;
        vstd::arithmetic::div_mod::lemma_fundamental_div_mod(i, ww);
        assert(0 <= c < ww);
        assert(r * ww + c == i) by (nonlinear_arith) requires i == ww * r + c;
        assert(0 <= r < hh) by (nonlinear_arith)
            requires 0 <= i < hh * ww, ww >= 3, r * ww + c == i, 0 <= c < ww;
        lemma_framed_at(v, hh, r, c);
        lemma_frame_row_at(v, r, c);
        if r == 0 || r == hh - 1 || c == 0 || c == ww - 1 {
            assert(on_border(c, r, ww, hh));
        } else {
            crate::parse::lemma_inner_cell(ww, hh, c, r);
            let j = (r - 1) * (ww - 2) + (c - 1);
            assert(v.data[j] == st.data[inner_source(ww, j)]);
            assert((r - 1) * v.w + c - 1 == j);
        }
    }
    lemma_counts_agree(st.data, framed(v, hh));
    lemma_framed_all_counts(v);
    lemma_level_text_reads_back(v);
}

} // verus!
