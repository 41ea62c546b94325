//! The choices the level tool makes between the variations of a made level.
use vstd::prelude::*;
use crate::parse::{strip_cr, parse_u16, read_u16};
use crate::textread::{trim, trimmed, byte_len, byte_len_of};
use crate::strutil::{chars_to_string, str_to_chars};

verus! {

/// The variation kept after looking at the first `n` results: a solved variation is kept
/// when none is kept yet, or when it is at least as deep and at least as long as the one
/// kept.
pub open spec fn best_upto(found: Seq<Option<(u16, u16)>>, n: int) -> Option<int>
    decreases n,
{
    if n <= 0 {
        None
    } else {
        let b = best_upto(found, n - 1);
        match found[n - 1] {
            None => b,
            Some((d, m)) => match b {
                None => Some(n - 1),
                Some(k) => {
                    let (bd, bm) = found[k]->0;
                    if d >= bd && m >= bm { Some(n - 1) } else { b }
                },
            },
        }
    }
}

proof fn lemma_best_solved(found: Seq<Option<(u16, u16)>>, n: int)
    requires
        0 <= n <= found.len(),
    ensures
        best_upto(found, n) matches Some(k) ==> 0 <= k < n && found[k] is Some,
    decreases n,
{
    if n > 0 {
        lemma_best_solved(found, n - 1);
    }
}

/// Picks the variation to keep from the solving results (depth and moves of each solved
/// variation): the last one, in order, that is at least as deep and as long as the one
/// kept before it; none when no variation was solved.
pub fn best_variation(found: &Vec<Option<(u16, u16)>>) -> (r: Option<usize>)
    ensures
        r == (match best_upto(found@, found@.len() as int) { Some(k) => Some(k as usize), None => None }),
        r matches Some(k) ==> k < found@.len() && found@[k as int] is Some,
{
    let mut best: Option<usize> = None;
    let mut i: usize = 0;
    while i < found.len()
        invariant
            i <= found@.len(),
            best == (match best_upto(found@, i as int) { Some(k) => Some(k as usize), None => None }),
        decreases found@.len() - i,
    {
        proof { lemma_best_solved(found@, i as int); }
        match found[i] {
            None => {},
            Some((d, m)) => {
                match best {
                    None => { best = Some(i); },
                    Some(k) => {
                        let (bd, bm) = found[k].unwrap();
                        if d >= bd && m >= bm {
                            best = Some(i);
                        }
                    },
                }
            },
        }
        i = i + 1;
    }
    proof { lemma_best_solved(found@, found@.len() as int); }
    best
}

} // verus!

verus! {

/// The lines of a text as `str::lines` cuts them, with the line being read at the end:
/// lines end at '\n', and a '\r' just before it is dropped.
pub open spec fn lines_so_far(s: Seq<char>) -> (Seq<Seq<char>>, Seq<char>)
    decreases s.len(),
{
    if s.len() == 0 {
        (Seq::empty(), Seq::empty())
    } else {
        let (ls, line) = lines_so_far(s.drop_last());
        if s.last() == '\n' {
            (ls.push(strip_cr(line)), Seq::empty())
        } else {
            (ls, line.push(s.last()))
        }
    }
}

/// The lines of a text: a last line without a line end counts, and no empty line comes
/// after a final '\n'.
pub open spec fn text_lines(s: Seq<char>) -> Seq<Seq<char>> {
    let (ls, line) = lines_so_far(s);
    if line.len() > 0 { ls.push(line) } else { ls }
}

/// Where ", " first stands in `s`, if anywhere.
pub open spec fn sep_at(s: Seq<char>) -> Option<int>
    decreases s.len(),
{
    if s.len() < 2 {
        None
    } else if s[0] == ',' && s[1] == ' ' {
        Some(0)
    } else {
        match sep_at(s.drop_first()) {
            Some(i) => Some(i + 1),
            None => None,
        }
    }
}

/// The pieces of `s` between the separators ", ", as `str::split(", ")` gives them.
pub open spec fn split_cols(s: Seq<char>) -> Seq<Seq<char>>
    decreases s.len(),
{
    match sep_at(s) {
        Some(i) => if 0 <= i && i + 2 <= s.len() { seq![s.take(i)] + split_cols(s.skip(i + 2)) } else { seq![s] },
        None => seq![s],
    }
}

/// A row of a saved speed test: the level's number, its title, the depth and number of
/// moves of its solution, the solution, and the time taken, as written.
pub struct SpeedRow {
    pub num: u16,
    pub title: String,
    pub depth: u16,
    pub moves: u16,
    pub path: String,
    pub time: String,
}

/// What a line of a saved speed test holds.
pub enum SpeedLine {
    /// Nothing: a comment, or a line shorter than two bytes once trimmed.
    Skip,
    /// Fewer than six columns.
    ShortRow,
    /// The first, third or fourth column (numbered from 1) is not a 16-bit number.
    BadNumber(u8),
    /// A row.
    Row(SpeedRow),
}

/// What the line `line` of a saved speed test holds, given as the matching of `r`: the
/// line is trimmed; a `#` first makes it a comment; below two bytes it is nothing; else its
/// columns are split at ", ", and the first, third and fourth must be numbers.
pub open spec fn speed_line(line: Seq<char>, r: SpeedLine) -> bool {
    let t = trim(line);
    if t.len() > 0 && t[0] == '#' {
        r is Skip
    } else if byte_len(t) < 2 {
        r is Skip
    } else {
        let cols = split_cols(t);
        if cols.len() < 6 {
            r is ShortRow
        } else if parse_u16(cols[0]) is None {
            r == SpeedLine::BadNumber(1)
        } else if parse_u16(cols[2]) is None {
            r == SpeedLine::BadNumber(3)
        } else if parse_u16(cols[3]) is None {
            r == SpeedLine::BadNumber(4)
        } else {
            r matches SpeedLine::Row(row) && {
                &&& Some(row.num) == parse_u16(cols[0])
                &&& row.title@ == cols[1]
                &&& Some(row.depth) == parse_u16(cols[2])
                &&& Some(row.moves) == parse_u16(cols[3])
                &&& row.path@ == cols[4]
                &&& row.time@ == cols[5]
            }
        }
    }
}


/// Scanning `s` from its start: a separator found at `k` after none before is the first.
proof fn lemma_sep_scan(s: Seq<char>, k: int)
    requires
        0 <= k <= s.len(),
        forall|j: int| 0 <= j < k && j + 1 < s.len() ==> !(#[trigger] s[j] == ',' && s[j + 1] == ' '),
    ensures
        (k + 1 < s.len() && s[k] == ',' && s[k + 1] == ' ') ==> sep_at(s) == Some(k),
        k + 1 >= s.len() ==> sep_at(s) is None,
    decreases k,
{
    if k > 0 && s.len() >= 2 {
        let d = s.drop_first();
        assert forall|j: int| 0 <= j < k - 1 && j + 1 < d.len() implies !(#[trigger] d[j] == ',' && d[j + 1] == ' ') by {
            assert(d[j] == s[j + 1] && d[j + 1] == s[j + 2]);
        }
        lemma_sep_scan(d, k - 1);
        assert(!(s[0] == ',' && s[1] == ' '));
        if k + 1 < s.len() && s[k] == ',' && s[k + 1] == ' ' {
            assert(d[k - 1] == s[k] && d[k] == s[k + 1]);
        }
    }
}

/// The pieces of `t` between the separators ", ".
fn split_at_seps(t: &Vec<char>) -> (cols: Vec<Vec<char>>)
    ensures
        cols@.len() == split_cols(t@).len(),
        forall|i: int| 0 <= i < cols@.len() ==> (#[trigger] cols@[i])@ == split_cols(t@)[i],
{
    let mut cols: Vec<Vec<char>> = Vec::new();
    let ghost mut done: Seq<Seq<char>> = Seq::empty();
    let mut start: usize = 0;
    let mut i: usize = 0;
    let n = t.len();
    assert(t@.skip(0) =~= t@);
    assert(Seq::<Seq<char>>::empty() + split_cols(t@) =~= split_cols(t@));
    while n > 0 && i < n - 1
        invariant
            n == t@.len(),
            start <= i <= n,
            cols@.len() == done.len(),
            forall|q: int| 0 <= q < cols@.len() ==> (#[trigger] cols@[q])@ == done[q],
            split_cols(t@) == done + split_cols(t@.skip(start as int)),
            forall|j: int| 0 <= j < i - start && j + 1 < t@.skip(start as int).len()
                ==> !(#[trigger] t@.skip(start as int)[j] == ',' && t@.skip(start as int)[j + 1] == ' '),
        decreases n - i,
    {
        let ghost rest = t@.skip(start as int);
        if t[i] == ',' && t[i + 1] == ' ' {
            proof {
                let k = i - start;
                assert(rest[k] == t@[i as int] && rest[k + 1] == t@[i + 1]);
                lemma_sep_scan(rest, k as int);
                assert(rest.take(k as int) =~= t@.subrange(start as int, i as int));
                assert(rest.skip(k + 2) =~= t@.skip(i + 2));
            }
            let mut piece: Vec<char> = Vec::new();
            let mut j = start;
            while j < i
                invariant
                    start <= j <= i,
                    i < n,
                    n == t@.len(),
                    piece@ == t@.subrange(start as int, j as int),
                decreases i - j,
            {
                piece.push(t[j]);
                j = j + 1;
                assert(piece@ =~= t@.subrange(start as int, j as int));
            }
            proof {
                done = done.push(piece@);
                assert(split_cols(t@) == done + split_cols(t@.skip(i + 2)));
            }
            cols.push(piece);
            start = i + 2;
            i = i + 2;
            proof {
                assert forall|q: int| 0 <= q < cols@.len() implies (#[trigger] cols@[q])@ == done[q] by {}
            }
        } else {
            proof {
                let k = i - start;
                assert(rest[k] == t@[i as int] && rest[k + 1] == t@[i + 1]);
            }
            i = i + 1;
        }
    }
    proof {
        let rest = t@.skip(start as int);
        lemma_sep_scan(rest, rest.len() as int);
        assert(split_cols(rest) == seq![rest]);
    }
    let mut piece: Vec<char> = Vec::new();
    let mut j = start;
    while j < n
        invariant
            start <= j <= n,
            n == t@.len(),
            piece@ == t@.subrange(start as int, j as int),
        decreases n - j,
    {
        piece.push(t[j]);
        j = j + 1;
        assert(piece@ =~= t@.subrange(start as int, j as int));
    }
    proof {
        assert(piece@ =~= t@.skip(start as int));
        done = done.push(piece@);
    }
    cols.push(piece);
    assert(split_cols(t@) =~= done);
    cols
}


/// What a line of a saved speed test holds.
fn read_speed_line(line: &Vec<char>) -> (r: SpeedLine)
    ensures
        speed_line(line@, r),
{
    let t = trimmed(line, 0, line.len());
    assert(line@.subrange(0, line@.len() as int) =~= line@);
    if t.len() > 0 && t[0] == '#' {
        return SpeedLine::Skip;
    }
    if byte_len_of(&t) < 2 {
        return SpeedLine::Skip;
    }
    let cols = split_at_seps(&t);
    if cols.len() < 6 {
        return SpeedLine::ShortRow;
    }
    let c0 = chars_to_string(cols[0].as_slice());
    let num = match read_u16(c0.as_str()) {
        Some(n) => n,
        None => return SpeedLine::BadNumber(1),
    };
    let c2 = chars_to_string(cols[2].as_slice());
    let depth = match read_u16(c2.as_str()) {
        Some(n) => n,
        None => return SpeedLine::BadNumber(3),
    };
    let c3 = chars_to_string(cols[3].as_slice());
    let moves = match read_u16(c3.as_str()) {
        Some(n) => n,
        None => return SpeedLine::BadNumber(4),
    };
    let title = chars_to_string(cols[1].as_slice());
    let path = chars_to_string(cols[4].as_slice());
    let time = chars_to_string(cols[5].as_slice());
    SpeedLine::Row(SpeedRow { num, title, depth, moves, path, time })
}

/// What each line of a saved speed test holds, line by line.
pub fn speed_test_lines(s: &str) -> (r: Vec<SpeedLine>)
    ensures
        r@.len() == text_lines(s@).len(),
        forall|i: int| 0 <= i < r@.len() ==> speed_line(text_lines(s@)[i], #[trigger] r@[i]),
{
    let cs = str_to_chars(s);
    let mut out: Vec<SpeedLine> = Vec::new();
    let mut line: Vec<char> = Vec::new();
    let mut i: usize = 0;
    assert(cs@.take(0) =~= Seq::<char>::empty());
    while i < cs.len()
        invariant
            cs@ == s@,
            i <= cs@.len(),
            lines_so_far(cs@.take(i as int)).1 == line@,
            out@.len() == lines_so_far(cs@.take(i as int)).0.len(),
            forall|q: int| 0 <= q < out@.len() ==> speed_line(lines_so_far(cs@.take(i as int)).0[q], #[trigger] out@[q]),
        decreases cs@.len() - i,
    {
        let c = cs[i];
        proof {
            assert(cs@.take(i + 1).drop_last() =~= cs@.take(i as int));
            assert(cs@.take(i + 1).last() == c);
        }
        if c == '\n' {
            let mut l = line;
            if l.len() > 0 && l[l.len() - 1] == '\r' {
                l.pop();
            }
            assert(l@ == strip_cr(lines_so_far(cs@.take(i as int)).1));
            let r = read_speed_line(&l);
            out.push(r);
            line = Vec::new();
        } else {
            line.push(c);
        }
        i = i + 1;
    }
    assert(cs@.take(cs@.len() as int) =~= cs@);
    if line.len() > 0 {
        let r = read_speed_line(&line);
        out.push(r);
    }
    out
}

} // verus!
