//! A level drawn as text for a terminal: each object as a piece of text with a tint,
//! in plain characters or in emoji.
use vstd::prelude::*;
use vstd::string::StringExecFns;
use crate::strutil::{str_to_chars, string_push};

verus! {

/// The text of each object, in the order Wall, Space, Boxx, Hole, Human, HumanInHole,
/// BoxxInHole: plain characters in the first row, emoji in the second.
pub const TEXT_OBJS: [[&'static str; 7]; 2] = [
    ["#", " ", "*", "O", "&", "%", "@"],
    ["░░", "  ", "❎", "🔳", "😀", "🤔", "✅"],
];

/// The colour a piece of level text is drawn in.
#[derive(Clone, Copy, PartialEq, Eq, Structural, Debug)]
pub enum Tint {
    Plain,
    Red,
    Green,
    LightYellow,
    LightGreen,
}

/// A piece of level text and its colour.
#[derive(Clone, Copy, Debug)]
pub struct StyledText {
    pub text: &'static str,
    pub tint: Tint,
}

/// The place of an object's character in a row of `TEXT_OBJS`, or -1 for any other
/// character.
pub open spec fn piece_index(c: char) -> int {
    if c == '#' { 0 } else if c == ' ' { 1 } else if c == '*' { 2 } else if c == 'O' { 3 }
    else if c == '&' { 4 } else if c == '%' { 5 } else if c == '@' { 6 } else { -1 }
}

/// The colour of the object at place `k` of a row of `TEXT_OBJS`.
pub open spec fn piece_tint(k: int) -> Tint {
    if k == 0 { Tint::Red } else if k == 2 { Tint::Green } else if k == 4 || k == 5 { Tint::LightYellow }
    else if k == 6 { Tint::LightGreen } else { Tint::Plain }
}

/// The rows of pieces a level text is drawn as: an object character adds its piece to
/// the current row, and any other character ends the row.
pub open spec fn text_rows(s: Seq<char>, ue: int) -> Seq<Seq<StyledText>>
    decreases s.len(),
{
    if s.len() == 0 {
        seq![Seq::empty()]
    } else {
        let r = text_rows(s.drop_last(), ue);
        let k = piece_index(s.last());
        if k >= 0 {
            r.update(r.len() - 1, r.last().push(StyledText { text: TEXT_OBJS[ue][k], tint: piece_tint(k) }))
        } else {
            r.push(Seq::empty())
        }
    }
}

proof fn lemma_text_rows_nonempty(s: Seq<char>, ue: int)
    ensures
        text_rows(s, ue).len() >= 1,
    decreases s.len(),
{
    if s.len() > 0 {
        lemma_text_rows_nonempty(s.drop_last(), ue);
    }
}

fn piece_of(c: char) -> (k: Option<usize>)
    ensures
        piece_index(c) >= 0 ==> k == Some(piece_index(c) as usize),
        piece_index(c) < 0 ==> k is None,
{
    if c == '#' { Some(0) } else if c == ' ' { Some(1) } else if c == '*' { Some(2) } else if c == 'O' { Some(3) }
    else if c == '&' { Some(4) } else if c == '%' { Some(5) } else if c == '@' { Some(6) } else { None }
}

fn tint_of(k: usize) -> (t: Tint)
    ensures
        t == piece_tint(k as int),
{
    if k == 0 { Tint::Red } else if k == 2 { Tint::Green } else if k == 4 || k == 5 { Tint::LightYellow }
    else if k == 6 { Tint::LightGreen } else { Tint::Plain }
}

/// The level text in emoji: each object character becomes its emoji (the second row of
/// `TEXT_OBJS`), and any other character is copied.
pub open spec fn emoji_text(s: Seq<char>) -> Seq<char>
    decreases s.len(),
{
    if s.len() == 0 {
        Seq::empty()
    } else {
        let k = piece_index(s.last());
        emoji_text(s.drop_last()) + (if k >= 0 { TEXT_OBJS[1][k]@ } else { seq![s.last()] })
    }
}

/// The level text with each object character replaced by its emoji, other characters
/// copied.
pub fn level_str_to_emoji_str(base_str: &String) -> (r: String)
    ensures
        r@ == emoji_text(base_str@),
{
    let cs = str_to_chars(base_str.as_str());
    let mut alt_str = String::new();
    let mut i: usize = 0;
    assert(cs@.take(0) =~= Seq::<char>::empty());
    while i < cs.len()
        invariant
            cs@ == base_str@,
            i <= cs@.len(),
            alt_str@ == emoji_text(cs@.take(i as int)),
        decreases cs@.len() - i,
    {
        let c = cs[i];
        assert(cs@.take(i + 1).drop_last() =~= cs@.take(i as int));
        assert(cs@.take(i + 1).last() == c);
        match piece_of(c) {
            Some(k) => {
                let alt = TEXT_OBJS[1][k];
                alt_str.append(alt);
            },
            None => {
                string_push(&mut alt_str, c);
            },
        }
        i = i + 1;
    }
    assert(cs@.take(cs@.len() as int) =~= cs@);
    alt_str
}

/// The rows of coloured pieces a level text is drawn as, in emoji when `use_emoji` is set:
/// an object character adds its piece to the current row, and any other character (the
/// end of a line) starts a new row.
pub fn level_str_to_vecs(base_str: &String, use_emoji: bool) -> (rows: Vec<Vec<StyledText>>)
    ensures
        rows@.len() == text_rows(base_str@, if use_emoji { 1int } else { 0int }).len(),
        forall|j: int| 0 <= j < rows@.len() ==>
            (#[trigger] rows@[j])@ == text_rows(base_str@, if use_emoji { 1int } else { 0int })[j],
        (forall|i: int| 0 <= i < base_str@.len() ==> piece_index(#[trigger] base_str@[i]) >= 0) ==> {
            &&& rows@.len() == 1
            &&& rows@[0]@.len() == base_str@.len()
            &&& joined_text(rows@[0]@) == if use_emoji { emoji_text(base_str@) } else { base_str@ }
        },
{
    proof {
        if forall|i: int| 0 <= i < base_str@.len() ==> piece_index(#[trigger] base_str@[i]) >= 0 {
            lemma_plain_row_text(base_str@);
            lemma_emoji_row_text(base_str@);
        }
    }
    let ue: usize = if use_emoji { 1 } else { 0 };
    let ghost g = ue as int;
    let cs = str_to_chars(base_str.as_str());
    let mut vecs: Vec<Vec<StyledText>> = Vec::new();
    let mut line: Vec<StyledText> = Vec::new();
    let mut i: usize = 0;
    while i < cs.len()
        invariant
            cs@ == base_str@,
            ue < 2,
            g == ue as int,
            i <= cs@.len(),
            vecs@.len() + 1 == text_rows(cs@.take(i as int), g).len(),
            forall|j: int| 0 <= j < vecs@.len() ==> (#[trigger] vecs@[j])@ == text_rows(cs@.take(i as int), g)[j],
            line@ == text_rows(cs@.take(i as int), g).last(),
        decreases cs@.len() - i,
    {
        let c = cs[i];
        let ghost before = text_rows(cs@.take(i as int), g);
        proof {
            assert(cs@.take(i + 1).drop_last() =~= cs@.take(i as int));
            lemma_text_rows_nonempty(cs@.take(i as int), g);
        }
        match piece_of(c) {
            Some(k) => {
                line.push(StyledText { text: TEXT_OBJS[ue][k], tint: tint_of(k) });
            },
            None => {
                vecs.push(line);
                line = Vec::new();
            },
        }
        proof {
            let after = text_rows(cs@.take(i + 1), g);
            assert(forall|j: int| 0 <= j < vecs@.len() ==> (#[trigger] vecs@[j])@ == after[j]);
            assert(line@ =~= after.last());
        }
        i = i + 1;
    }
    vecs.push(line);
    proof {
        assert(cs@.take(cs@.len() as int) =~= cs@);
        let fin = text_rows(cs@, g);
        assert forall|j: int| 0 <= j < vecs@.len() implies (#[trigger] vecs@[j])@ == fin[j] by {
            if j < vecs@.len() - 1 {
            } else {
                lemma_text_rows_nonempty(cs@, g);
            }
        }
    }
    vecs
}

/// The text of a row of pieces, piece after piece.
pub open spec fn joined_text(row: Seq<StyledText>) -> Seq<char>
    decreases row.len(),
{
    if row.len() == 0 { Seq::empty() } else { joined_text(row.drop_last()) + row.last().text@ }
}

/// The character each object is written as in a level text: the plain piece of every
/// object character is that very character.
proof fn lemma_plain_piece(c: char)
    requires
        piece_index(c) >= 0,
    ensures
        TEXT_OBJS[0][piece_index(c)]@ == seq![c],
{
    reveal_strlit("#");
    reveal_strlit(" ");
    reveal_strlit("*");
    reveal_strlit("O");
    reveal_strlit("&");
    reveal_strlit("%");
    reveal_strlit("@");
}

/// A row of object characters is drawn as one row with a piece per character, and in plain
/// characters the row's text is the row itself: each object is drawn as its own character
/// ('%', the human in a hole, as '%', not as the human on the floor).
pub proof fn lemma_plain_row_text(s: Seq<char>)
    requires
        forall|i: int| 0 <= i < s.len() ==> piece_index(#[trigger] s[i]) >= 0,
    ensures
        text_rows(s, 0).len() == 1,
        text_rows(s, 0)[0].len() == s.len(),
        joined_text(text_rows(s, 0)[0]) == s,
    decreases s.len(),
{
    if s.len() > 0 {
        assert forall|i: int| 0 <= i < s.drop_last().len() implies piece_index(#[trigger] s.drop_last()[i]) >= 0 by {
            assert(s.drop_last()[i] == s[i]);
        }
        lemma_plain_row_text(s.drop_last());
        assert(piece_index(s[s.len() - 1]) >= 0);
        lemma_plain_piece(s.last());
        let r = text_rows(s.drop_last(), 0);
        let row = text_rows(s, 0)[0];
        assert(row.drop_last() =~= r[0]);
        assert(s =~= s.drop_last() + seq![s.last()]);
    }
}

/// A row of object characters drawn in emoji has as its text the level text in emoji:
/// drawing the pieces and writing the emoji text agree, object by object.
pub proof fn lemma_emoji_row_text(s: Seq<char>)
    requires
        forall|i: int| 0 <= i < s.len() ==> piece_index(#[trigger] s[i]) >= 0,
    ensures
        text_rows(s, 1).len() == 1,
        text_rows(s, 1)[0].len() == s.len(),
        joined_text(text_rows(s, 1)[0]) == emoji_text(s),
    decreases s.len(),
{
    if s.len() > 0 {
        assert forall|i: int| 0 <= i < s.drop_last().len() implies piece_index(#[trigger] s.drop_last()[i]) >= 0 by {
            assert(s.drop_last()[i] == s[i]);
        }
        lemma_emoji_row_text(s.drop_last());
        assert(piece_index(s[s.len() - 1]) >= 0);
        let r = text_rows(s.drop_last(), 1);
        let row = text_rows(s, 1)[0];
        assert(row.drop_last() =~= r[0]);
    }
}

/// The pieces of a row of object characters, one per character.
proof fn lemma_row_pieces(s: Seq<char>, ue: int)
    requires
        0 <= ue < 2,
        forall|i: int| 0 <= i < s.len() ==> piece_index(#[trigger] s[i]) >= 0,
    ensures
        text_rows(s, ue).len() == 1,
        text_rows(s, ue)[0].len() == s.len(),
        forall|i: int| 0 <= i < s.len() ==> (#[trigger] text_rows(s, ue)[0][i]).text == TEXT_OBJS[ue][piece_index(s[i])]
            && text_rows(s, ue)[0][i].tint == piece_tint(piece_index(s[i])),
    decreases s.len(),
{
    if s.len() > 0 {
        assert forall|i: int| 0 <= i < s.drop_last().len() implies piece_index(#[trigger] s.drop_last()[i]) >= 0 by {
            assert(s.drop_last()[i] == s[i]);
        }
        lemma_row_pieces(s.drop_last(), ue);
        assert(piece_index(s[s.len() - 1]) >= 0);
        let r = text_rows(s.drop_last(), ue);
        assert forall|i: int| 0 <= i < s.len() implies (#[trigger] text_rows(s, ue)[0][i]).text == TEXT_OBJS[ue][piece_index(s[i])]
            && text_rows(s, ue)[0][i].tint == piece_tint(piece_index(s[i])) by {
            if i < s.len() - 1 {
                assert(text_rows(s, ue)[0][i] == r[0][i]);
                assert(s.drop_last()[i] == s[i]);
            }
        }
    }
}

/// Different objects are drawn as different emoji.
proof fn lemma_emoji_distinct(a: char, c: char)
    requires
        piece_index(a) >= 0,
        piece_index(c) >= 0,
        a != c,
    ensures
        TEXT_OBJS[1][piece_index(a)]@ != TEXT_OBJS[1][piece_index(c)]@,
{
    reveal_strlit("░░");
    reveal_strlit("  ");
    reveal_strlit("❎");
    reveal_strlit("🔳");
    reveal_strlit("😀");
    reveal_strlit("🤔");
    reveal_strlit("✅");
    assert(TEXT_OBJS[1][piece_index(a)]@[0] != TEXT_OBJS[1][piece_index(c)]@[0]);
}

/// Drawn in emoji, different objects of a row look different: no two object characters
/// share a piece (the human in a hole is not drawn as the human on the floor).
pub proof fn lemma_emoji_pieces_distinct(s: Seq<char>, i: int, j: int)
    requires
        forall|k: int| 0 <= k < s.len() ==> piece_index(#[trigger] s[k]) >= 0,
        0 <= i < s.len(),
        0 <= j < s.len(),
        s[i] != s[j],
    ensures
        text_rows(s, 1)[0][i].text@ != text_rows(s, 1)[0][j].text@,
{
    lemma_row_pieces(s, 1);
    assert(piece_index(s[i]) >= 0 && piece_index(s[j]) >= 0);
    lemma_emoji_distinct(s[i], s[j]);
}

/// The colour of a piece is that of its object, in plain characters and in emoji alike:
/// walls red, boxes off a hole green, the human (on the floor or in a hole) light yellow,
/// boxes in a hole light green, floor and empty holes plain.
pub proof fn lemma_piece_tints(s: Seq<char>, ue: int, i: int)
    requires
        0 <= ue < 2,
        forall|k: int| 0 <= k < s.len() ==> piece_index(#[trigger] s[k]) >= 0,
        0 <= i < s.len(),
    ensures
        text_rows(s, ue)[0][i].tint == text_rows(s, 1 - ue)[0][i].tint,
        text_rows(s, ue)[0][i].tint == if s[i] == '#' { Tint::Red } else if s[i] == '*' { Tint::Green }
            else if s[i] == '&' || s[i] == '%' { Tint::LightYellow } else if s[i] == '@' { Tint::LightGreen }
            else { Tint::Plain },
{
    lemma_row_pieces(s, ue);
    lemma_row_pieces(s, 1 - ue);
}

} // verus!
