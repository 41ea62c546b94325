//! Making random levels: a random grid of walls with the human and boxes placed where they
//! can be pulled, seeded from a ChaCha8 generator.
use vstd::prelude::*;
use rand_chacha::ChaCha8Rng;
use crate::obj::Obj;
use crate::level::{Level, LevelView, cell_index, in_bounds, title_key, count_boxes, is_box_obj};
use crate::game::lemma_count_boxes_update;
use crate::vector::{Vector, Move};
use crate::game::{step, step2};
use crate::strutil::{string_push, push_decimal, decimal, str_to_chars};
use vstd::set_lib::{set_int_range, lemma_int_range, lemma_len_subset};

verus! {

/// The ChaCha8 random number generator of `rand_chacha`.
#[verifier::external_type_specification]
#[verifier::external_body]
pub struct ExChaCha8Rng(rand_chacha::ChaCha8Rng);

/// rand's `Rng::gen_range` for `u16`: a number drawn from `low` (included) to `high`
/// (excluded); it panics unless `low < high`. What is drawn depends on the generator's
/// state, so only the range is stated.
#[verifier::external_body]
pub(crate) fn gen_range_u16(rng: &mut ChaCha8Rng, low: u16, high: u16) -> (r: u16)
    requires
        low < high,
    ensures
        low <= r < high,
{
    rand::Rng::gen_range(rng, low, high)
}

/// rand's `Rng::gen_range` for `u32`: a number drawn from `low` (included) to `high`
/// (excluded); it panics unless `low < high`. Only the range is stated.
#[verifier::external_body]
pub(crate) fn gen_range_u32(rng: &mut ChaCha8Rng, low: u32, high: u32) -> (r: u32)
    requires
        low < high,
    ensures
        low <= r < high,
{
    rand::Rng::gen_range(rng, low, high)
}

/// rand's `Rng::gen_range` for `usize`: a number drawn from `low` (included) to `high`
/// (excluded); it panics unless `low < high`. Only the range is stated.
#[verifier::external_body]
pub(crate) fn gen_range_usize(rng: &mut ChaCha8Rng, low: usize, high: usize) -> (r: usize)
    requires
        low < high,
    ensures
        low <= r < high,
{
    rand::Rng::gen_range(rng, low, high)
}

/// The box can be pulled in direction `m` from `pos`: the next two cells are inside the
/// grid and not walls.
pub open spec fn pull_room(v: LevelView, pos: Vector, m: Move) -> bool {
    &&& in_bounds(v.w as int, v.h as int, step(pos, m))
    &&& in_bounds(v.w as int, v.h as int, step2(pos, m))
    &&& v.obj_at(step(pos, m)) != Obj::Wall
    &&& v.obj_at(step2(pos, m)) != Obj::Wall
}

/// A box at `pos` could be pulled in some direction.
pub open spec fn pullable(v: LevelView, pos: Vector) -> bool {
    pull_room(v, pos, Move::Up) || pull_room(v, pos, Move::Right) || pull_room(v, pos, Move::Down)
        || pull_room(v, pos, Move::Left)
}

/// Whether a box at `pos` could be pulled in some direction: the next two cells that way
/// are inside the grid and not walls.
pub fn is_pullable(level: &Level, pos: &Vector) -> (r: bool)
    requires
        level@.wf(),
        0 <= pos.0 < 65536,
        0 <= pos.1 < 65536,
    ensures
        r == pullable(level@, *pos),
{
    let ghost v = level@;
    let mut ok = false;
    let mut k: usize = 0;
    while k < 4
        invariant
            v == level@,
            v.wf(),
            0 <= pos.0 < 65536,
            0 <= pos.1 < 65536,
            k <= 4,
            ok == (k > 0 && pull_room(v, *pos, Move::Up) || k > 1 && pull_room(v, *pos, Move::Right)
                || k > 2 && pull_room(v, *pos, Move::Down) || k > 3 && pull_room(v, *pos, Move::Left)),
        decreases 4 - k,
    {
        let m = if k == 0 { Move::Up } else if k == 1 { Move::Right } else if k == 2 { Move::Down } else { Move::Left };
        let p1 = pos.add(&m.to_vector());
        let p2 = pos.add(&m.to_vector().double());
        assert(p1 == step(*pos, m));
        assert(p2 == step2(*pos, m));
        if level.vector_in_bounds(&p1) && level.vector_in_bounds(&p2) {
            assert(cell_index(v.w as int, p1) < v.w * v.h) by (nonlinear_arith)
                requires 0 <= p1.0 < v.w, 0 <= p1.1 < v.h;
            assert(cell_index(v.w as int, p2) < v.w * v.h) by (nonlinear_arith)
                requires 0 <= p2.0 < v.w, 0 <= p2.1 < v.h;
            let o1 = level.get_obj_at_pt(&p1);
            let o2 = level.get_obj_at_pt(&p2);
            if o1 != Obj::Wall && o2 != Obj::Wall {
                ok = true;
            }
        }
        k = k + 1;
    }
    ok
}

/// The consonants used in random names.
pub open spec fn is_name_consonant(c: char) -> bool {
    c == 'b' || c == 'd' || c == 'f' || c == 'g' || c == 'h' || c == 'j' || c == 'k' || c == 'l' || c == 'm'
        || c == 'n' || c == 'p' || c == 'r' || c == 's' || c == 't' || c == 'v' || c == 'w' || c == 'y' || c == 'z'
}

/// The vowels used in random names.
pub open spec fn is_name_vowel(c: char) -> bool {
    c == 'a' || c == 'e' || c == 'i' || c == 'o' || c == 'u'
}

/// A random name: five syllables of a consonant and a vowel.
pub open spec fn is_random_name(s: Seq<char>) -> bool {
    &&& s.len() == 10
    &&& forall|i: int| 0 <= i < 5 ==> is_name_consonant(#[trigger] s[2 * i]) && is_name_vowel(s[2 * i + 1])
}

/// The consonant numbered `i` (of 18), in the order b d f g h j k l m n p r s t v w y z.
pub open spec fn consonant_at(i: int) -> char {
    if i == 0 { 'b' } else if i == 1 { 'd' } else if i == 2 { 'f' } else if i == 3 { 'g' } else if i == 4 { 'h' }
    else if i == 5 { 'j' } else if i == 6 { 'k' } else if i == 7 { 'l' } else if i == 8 { 'm' } else if i == 9 { 'n' }
    else if i == 10 { 'p' } else if i == 11 { 'r' } else if i == 12 { 's' } else if i == 13 { 't' } else if i == 14 { 'v' }
    else if i == 15 { 'w' } else if i == 16 { 'y' } else { 'z' }
}

/// The vowel numbered `i` (of 5), in the order a e i o u.
pub open spec fn vowel_at(i: int) -> char {
    if i == 0 { 'a' } else if i == 1 { 'e' } else if i == 2 { 'i' } else if i == 3 { 'o' } else { 'u' }
}

/// The consonant numbered `i` (of 18).
fn consonant(i: usize) -> (c: char)
    requires
        i < 18,
    ensures
        c == consonant_at(i as int),
        is_name_consonant(c),
{
    if i == 0 { 'b' } else if i == 1 { 'd' } else if i == 2 { 'f' } else if i == 3 { 'g' } else if i == 4 { 'h' }
    else if i == 5 { 'j' } else if i == 6 { 'k' } else if i == 7 { 'l' } else if i == 8 { 'm' } else if i == 9 { 'n' }
    else if i == 10 { 'p' } else if i == 11 { 'r' } else if i == 12 { 's' } else if i == 13 { 't' } else if i == 14 { 'v' }
    else if i == 15 { 'w' } else if i == 16 { 'y' } else { 'z' }
}

/// The vowel numbered `i` (of 5).
fn vowel(i: usize) -> (c: char)
    requires
        i < 5,
    ensures
        c == vowel_at(i as int),
        is_name_vowel(c),
{
    if i == 0 { 'a' } else if i == 1 { 'e' } else if i == 2 { 'i' } else if i == 3 { 'o' } else { 'u' }
}

/// Draws for a name: ten numbers, a consonant's number (below 18) then a vowel's (below 5),
/// five times.
pub open spec fn name_draws(ds: Seq<usize>) -> bool {
    &&& ds.len() == 10
    &&& forall|j: int| 0 <= j < 10 ==> (#[trigger] ds[j]) < (if j % 2 == 0 { 18usize } else { 5usize })
}

/// The name the draws make: the consonant numbered by each even draw, the vowel numbered by
/// each odd one.
pub open spec fn name_of(ds: Seq<usize>) -> Seq<char> {
    Seq::new(ds.len(), |j: int| if j % 2 == 0 { consonant_at(ds[j] as int) } else { vowel_at(ds[j] as int) })
}

/// The name made by the draws `ds`.
pub fn name_from_draws(ds: &Vec<usize>) -> (s: String)
    requires
        name_draws(ds@),
    ensures
        s@ == name_of(ds@),
        is_random_name(s@),
{
    let mut s = String::new();
    let mut j: usize = 0;
    while j < 10
        invariant
            j <= 10,
            name_draws(ds@),
            s@ == name_of(ds@).take(j as int),
        decreases 10 - j,
    {
        let d = ds[j];
        let c = if j % 2 == 0 { consonant(d) } else { vowel(d) };
        string_push(&mut s, c);
        assert(s@ =~= name_of(ds@).take(j + 1));
        j = j + 1;
    }
    assert(name_of(ds@).take(10) =~= name_of(ds@));
    proof {
        assert forall|i: int| 0 <= i < 5 implies is_name_consonant(#[trigger] s@[2 * i]) && is_name_vowel(s@[2 * i + 1]) by {
            assert(ds@[2 * i] < 18usize);
            assert(ds@[2 * i + 1] < 5usize);
        }
    }
    s
}

/// A random name of five syllables, each a consonant and a vowel: the name of ten draws.
pub fn random_string(rng: &mut ChaCha8Rng) -> (s: String)
    ensures
        exists|ds: Seq<usize>| name_draws(ds) && s@ == #[trigger] name_of(ds),
        is_random_name(s@),
{
    let mut ds: Vec<usize> = Vec::new();
    let mut i: usize = 0;
    while i < 5
        invariant
            i <= 5,
            ds@.len() == 2 * i,
            forall|j: int| 0 <= j < ds@.len() ==> (#[trigger] ds@[j]) < (if j % 2 == 0 { 18usize } else { 5usize }),
        decreases 5 - i,
    {
        let a = gen_range_usize(rng, 0, 18);
        ds.push(a);
        let b = gen_range_usize(rng, 0, 5);
        ds.push(b);
        i = i + 1;
    }
    name_from_draws(&ds)
}

/// Appends the characters of `t` to `s`.
fn push_text(s: &mut String, t: &str)
    ensures
        final(s)@ == old(s)@ + t@,
{
    let cs = str_to_chars(t);
    let mut i: usize = 0;
    while i < cs.len()
        invariant
            i <= cs@.len(),
            cs@ == t@,
            s@ == old(s)@ + cs@.take(i as int),
        decreases cs@.len() - i,
    {
        string_push(s, cs[i]);
        i = i + 1;
        assert(s@ =~= old(s)@ + cs@.take(i as int));
    }
    assert(cs@.take(cs@.len() as int) =~= cs@);
}

/// The settings text of a random level.
pub open spec fn params_text(w: u16, h: u16, wall_density: u32, box_density: u32, boxes: nat) -> Seq<char> {
    "width: "@ + decimal(w as nat) + "\nheight: "@ + decimal(h as nat) + "\n"@
        + "wall_density: "@ + decimal(wall_density as nat) + "\n"@
        + "box_density: "@ + decimal(box_density as nat) + "\n"@
        + "num_boxxes: "@ + decimal(boxes) + "\n"@
}


/// The objects a random level is made of before its boxes are worked out.
pub open spec fn is_random_obj(o: Obj) -> bool {
    o == Obj::Space || o == Obj::Wall || o == Obj::Human || o == Obj::BoxxInHole
}

/// A grid without boxes has no box to count.
proof fn lemma_count_boxes_none(s: Seq<Obj>)
    requires
        forall|i: int| 0 <= i < s.len() ==> !is_box_obj(#[trigger] s[i]),
    ensures
        count_boxes(s) == 0,
    decreases s.len(),
{
    if s.len() > 0 {
        assert forall|i: int| 0 <= i < s.drop_last().len() implies !is_box_obj(#[trigger] s.drop_last()[i]) by {
            assert(s.drop_last()[i] == s[i]);
        }
        lemma_count_boxes_none(s.drop_last());
    }
}

/// The grid the wall draws make: the human at cell `hi`, and every other cell, in order, a
/// wall exactly when its draw is at most `wall_density` (the cells before the human's take
/// the draws of their own number, those after it the draw before).
pub open spec fn drawn_grid(n: int, hi: int, wall_density: u32, ds: Seq<u32>) -> Seq<Obj> {
    Seq::new(n as nat, |i: int| if i == hi { Obj::Human }
        else if ds[if i < hi { i } else { i - 1 }] <= wall_density { Obj::Wall } else { Obj::Space })
}

/// The grid made by the wall draws `ds`, one for each cell but the human's, in order.
pub fn grid_from_draws(width: u16, height: u16, x: u16, y: u16, wall_density: u32, ds: &Vec<u32>) -> (data: Vec<Obj>)
    requires
        x < width,
        y < height,
        width * height <= 256,
        ds@.len() == width * height - 1,
    ensures
        data@ == drawn_grid(width * height, x + y * width, wall_density, ds@),
{
    let n = width as usize * height as usize;
    assert(y * width <= 256) by (nonlinear_arith)
        requires y < height, width * height <= 256;
    let hi = y as usize * width as usize + x as usize;
    assert(hi < n) by (nonlinear_arith)
        requires hi == y * width + x, x < width, y < height, n == width * height;
    let ghost want = drawn_grid(n as int, hi as int, wall_density, ds@);
    let mut data: Vec<Obj> = Vec::new();
    let mut i: usize = 0;
    while i < n
        invariant
            i <= n,
            n == width * height,
            hi < n,
            ds@.len() == n - 1,
            want == drawn_grid(n as int, hi as int, wall_density, ds@),
            data@ == want.take(i as int),
        decreases n - i,
    {
        let o = if i == hi {
            Obj::Human
        } else {
            let k = if i < hi { i } else { i - 1 };
            if ds[k] <= wall_density { Obj::Wall } else { Obj::Space }
        };
        data.push(o);
        assert(data@ =~= want.take(i + 1));
        i = i + 1;
    }
    assert(want.take(n as int) =~= want);
    data
}

/// The grid of a random level: the human at (x, y), and walls drawn for the other cells in
/// order (each a wall when a draw from 0 to 99 is at most `wall_density`).
fn random_grid(width: u16, height: u16, x: u16, y: u16, wall_density: u32, rng: &mut ChaCha8Rng) -> (data: Vec<Obj>)
    requires
        x < width,
        y < height,
        width * height <= 256,
    ensures
        exists|ds: Seq<u32>| wall_draws(ds, width * height) && data@ == #[trigger] drawn_grid(width * height, x + y * width, wall_density, ds),
{
    let n = width as usize * height as usize;
    assert(n >= 1) by (nonlinear_arith)
        requires n == width * height, x < width, y < height;
    let mut ds: Vec<u32> = Vec::new();
    let mut k: usize = 1;
    while k < n
        invariant
            1 <= k <= n,
            n == width * height,
            ds@.len() == k - 1,
            forall|j: int| 0 <= j < ds@.len() ==> #[trigger] ds@[j] < 100,
        decreases n - k,
    {
        ds.push(gen_range_u32(rng, 0, 100));
        k = k + 1;
    }
    let data = grid_from_draws(width, height, x, y, wall_density, &ds);
    assert(wall_draws(ds@, width * height));
    data
}

/// Wall draws for a grid of `n` cells: one below 100 for each cell but the human's.
pub open spec fn wall_draws(ds: Seq<u32>, n: int) -> bool {
    &&& ds.len() == n - 1
    &&& forall|j: int| 0 <= j < ds.len() ==> #[trigger] ds[j] < 100
}

/// A box can be put at the drawn cell: a space from which a box could be pulled.
pub open spec fn box_fits(v: LevelView, d: (u16, u16)) -> bool {
    v.obj_at(Vector(d.0 as i32, d.1 as i32)) == Obj::Space && pullable(v, Vector(d.0 as i32, d.1 as i32))
}

/// The level after one box draw: a box in a hole at the drawn cell if a box fits there.
pub open spec fn box_step(v: LevelView, d: (u16, u16)) -> LevelView {
    if box_fits(v, d) {
        v.with_data(v.data.update(cell_index(v.w as int, Vector(d.0 as i32, d.1 as i32)), Obj::BoxxInHole))
    } else {
        v
    }
}

/// The level after the box draws `ds`, in order.
pub open spec fn boxes_drawn(v: LevelView, ds: Seq<(u16, u16)>) -> LevelView
    decreases ds.len(),
{
    if ds.len() == 0 {
        v
    } else {
        box_step(boxes_drawn(v, ds.drop_last()), ds.last())
    }
}

/// The number of boxes a random level asks for: `box_density` in 100 of its cells, at least 3.
pub open spec fn boxes_wanted(width: u16, height: u16, box_density: u32) -> int {
    if (width * height * box_density) / 100 < 3 { 3 } else { (width * height * box_density) / 100 }
}

/// The grid of a random level made by the draws: the human at (x, y); the walls of the wall
/// draws `wds`; then the boxes of the box draws `bds`, drawn until as many boxes as wanted
/// are placed or ten draws a cell are used, each draw a cell of the grid.
pub open spec fn drawn_level(width: u16, height: u16, wall_density: u32, box_density: u32, x: u16, y: u16,
    wds: Seq<u32>, bds: Seq<(u16, u16)>, v: LevelView) -> bool {
    let g = v.with_data(drawn_grid(width * height, x + y * width, wall_density, wds));
    let wanted = boxes_wanted(width, height, box_density);
    &&& x < width
    &&& y < height
    &&& v.human_pos == Vector(x as i32, y as i32)
    &&& wall_draws(wds, width * height)
    &&& forall|k: int| 0 <= k < bds.len() ==> (#[trigger] bds[k]).0 < width && bds[k].1 < height
    &&& v.data == boxes_drawn(g, bds).data
    &&& bds.len() <= 10 * width * height
    &&& (count_boxes(v.data) == wanted || bds.len() == 10 * width * height)
    &&& bds.len() > 0 ==> count_boxes(boxes_drawn(g, bds.drop_last()).data) < wanted
}

/// The box draws of two levels of one size and grid give the same grid.
proof fn lemma_boxes_drawn_same(a: LevelView, b: LevelView, ds: Seq<(u16, u16)>)
    requires
        a.w == b.w,
        a.h == b.h,
        a.data == b.data,
    ensures
        boxes_drawn(a, ds).data == boxes_drawn(b, ds).data,
        boxes_drawn(a, ds).w == a.w,
        boxes_drawn(a, ds).h == a.h,
        boxes_drawn(b, ds).w == b.w,
        boxes_drawn(b, ds).h == b.h,
    decreases ds.len(),
{
    if ds.len() > 0 {
        lemma_boxes_drawn_same(a, b, ds.drop_last());
        let x = boxes_drawn(a, ds.drop_last());
        let y = boxes_drawn(b, ds.drop_last());
        let p = Vector(ds.last().0 as i32, ds.last().1 as i32);
        assert(pullable(x, p) == pullable(y, p));
    }
}

/// On a grid of walls but for the human, no box fits: the draws leave it as it is.
proof fn lemma_boxes_none(v: LevelView, ds: Seq<(u16, u16)>)
    requires
        v.wf(),
        forall|k: int| 0 <= k < ds.len() ==> (#[trigger] ds[k]).0 < v.w && ds[k].1 < v.h,
        forall|i: int| 0 <= i < v.data.len() ==> #[trigger] v.data[i] == Obj::Wall || v.data[i] == Obj::Human,
    ensures
        boxes_drawn(v, ds) == v,
    decreases ds.len(),
{
    if ds.len() > 0 {
        lemma_boxes_none(v, ds.drop_last());
        let p = Vector(ds.last().0 as i32, ds.last().1 as i32);
        assert(ds[ds.len() - 1] == ds.last());
        assert(0 <= cell_index(v.w as int, p) < v.w * v.h) by (nonlinear_arith)
            requires 0 <= p.0 < v.w, 0 <= p.1 < v.h;
        assert(v.data[cell_index(v.w as int, p)] == Obj::Wall || v.data[cell_index(v.w as int, p)] == Obj::Human);
    }
}

/// One box draw keeps what the box placing keeps: the grid's size, the human placed, the
/// objects of a random level, every box pullable; a box is added exactly when it fits.
proof fn lemma_box_step(v: LevelView, d: (u16, u16))
    requires
        v.wf(),
        v.w <= 256,
        v.h <= 256,
        d.0 < v.w,
        d.1 < v.h,
        v.human_placed(),
        forall|j: int| 0 <= j < v.data.len() ==> is_random_obj(#[trigger] v.data[j]),
        forall|p: Vector| in_bounds(v.w as int, v.h as int, p) && #[trigger] v.obj_at(p) == Obj::BoxxInHole ==> pullable(v, p),
    ensures
        box_step(v, d).wf(),
        box_step(v, d).w == v.w,
        box_step(v, d).h == v.h,
        box_step(v, d).human_pos == v.human_pos,
        box_step(v, d).keyvals == v.keyvals,
        box_step(v, d).cleared_of_human == v.cleared_of_human,
        box_step(v, d).human_placed(),
        forall|j: int| 0 <= j < box_step(v, d).data.len() ==> is_random_obj(#[trigger] box_step(v, d).data[j]),
        forall|p: Vector| in_bounds(v.w as int, v.h as int, p) && #[trigger] box_step(v, d).obj_at(p) == Obj::BoxxInHole
            ==> pullable(box_step(v, d), p),
        count_boxes(box_step(v, d).data) == count_boxes(v.data) + (if box_fits(v, d) { 1int } else { 0int }),
{
    let width = v.w as int;
    let vv = Vector(d.0 as i32, d.1 as i32);
    let c = cell_index(width, vv);
    assert(0 <= c < width * v.h) by (nonlinear_arith)
        requires 0 <= vv.0 < width, 0 <= vv.1 < v.h, c == vv.0 + vv.1 * width;
    if box_fits(v, d) {
        let before = v.data;
        let nl = box_step(v, d);
        lemma_count_boxes_update(before, c, Obj::BoxxInHole);
        let human_pos = v.human_pos;
        assert(cell_index(width, human_pos) < width * v.h) by (nonlinear_arith)
            requires 0 <= human_pos.0 < width, 0 <= human_pos.1 < v.h;
        assert(c != cell_index(width, human_pos));
        assert(nl.data[cell_index(width, human_pos)] == before[cell_index(width, human_pos)]);
        assert forall|j: int| 0 <= j < nl.data.len() && j != cell_index(nl.w as int, nl.human_pos)
            implies #[trigger] nl.data[j] != Obj::Human && nl.data[j] != Obj::HumanInHole by {
            if j != c {
                assert(nl.data[j] == before[j]);
            }
        }
        assert forall|j: int| 0 <= j < nl.data.len() implies is_random_obj(#[trigger] nl.data[j]) by {
            if j != c {
                assert(nl.data[j] == before[j]);
            }
        }
        lemma_walls_kept(v, nl, c);
        assert forall|p: Vector| in_bounds(width, v.h as int, p) && #[trigger] nl.obj_at(p) == Obj::BoxxInHole
            implies pullable(nl, p) by {
            assert(cell_index(width, p) < width * v.h) by (nonlinear_arith)
                requires 0 <= p.0 < width, 0 <= p.1 < v.h;
            if cell_index(width, p) != c {
                assert(v.obj_at(p) == nl.obj_at(p));
                assert(pullable(v, p));
            } else {
                assert(p.0 == vv.0 && p.1 == vv.1) by (nonlinear_arith)
                    requires p.0 + p.1 * width == vv.0 + vv.1 * width, 0 <= p.0 < width, 0 <= vv.0 < width,
                        0 <= p.1, 0 <= vv.1;
                assert(pullable(v, p));
            }
            lemma_pullable_walls(v, nl, p);
        }
    }
}

/// One box draw: a box in a hole is put at the drawn cell when it is a space from which a
/// box could be pulled. Whether it was put is returned.
pub fn add_drawn_box(level: &mut Level, bx: u16, by: u16) -> (placed: bool)
    requires
        old(level)@.wf(),
        old(level)@.w <= 256,
        old(level)@.h <= 256,
        bx < old(level)@.w,
        by < old(level)@.h,
    ensures
        final(level)@ == box_step(old(level)@, (bx, by)),
        placed == box_fits(old(level)@, (bx, by)),
{
    let v = Vector(bx as i32, by as i32);
    let ghost w = level@.w as int;
    assert(cell_index(w, v) < w * level@.h) by (nonlinear_arith)
        requires 0 <= v.0 < w, 0 <= v.1 < level@.h;
    if level.get_obj_at_pt(&v) == Obj::Space && is_pullable(level, &v) {
        level.set_obj_at_pt(&v, Obj::BoxxInHole);
        true
    } else {
        false
    }
}

/// Two grids of one size with the same walls: one is `a` with a space at `c` made a box in
/// a hole.
proof fn lemma_walls_kept(a: LevelView, b: LevelView, c: int)
    requires
        a.wf(),
        b.w == a.w,
        b.h == a.h,
        b.data == a.data.update(c, Obj::BoxxInHole),
        0 <= c < a.data.len(),
        a.data[c] == Obj::Space,
    ensures
        forall|q: Vector| in_bounds(a.w as int, a.h as int, q) ==> (#[trigger] b.obj_at(q) == Obj::Wall <==> a.obj_at(q) == Obj::Wall),
{
    assert forall|q: Vector| in_bounds(a.w as int, a.h as int, q) implies (#[trigger] b.obj_at(q) == Obj::Wall <==> a.obj_at(q) == Obj::Wall) by {
        let k = cell_index(a.w as int, q);
        assert(0 <= k < a.w * a.h) by (nonlinear_arith)
            requires 0 <= q.0 < a.w, 0 <= q.1 < a.h, k == q.0 + q.1 * a.w;
        if k != c {
            assert(b.data[k] == a.data[k]);
        }
    }
}

/// Whether a box could be pulled depends only on the size and the walls.
proof fn lemma_pullable_walls(a: LevelView, b: LevelView, p: Vector)
    requires
        b.w == a.w,
        b.h == a.h,
        forall|q: Vector| in_bounds(a.w as int, a.h as int, q) ==> (#[trigger] b.obj_at(q) == Obj::Wall <==> a.obj_at(q) == Obj::Wall),
    ensures
        pullable(b, p) == pullable(a, p),
{
    assert(in_bounds(a.w as int, a.h as int, step(p, Move::Up)) ==> (b.obj_at(step(p, Move::Up)) == Obj::Wall <==> a.obj_at(step(p, Move::Up)) == Obj::Wall));
    assert(in_bounds(a.w as int, a.h as int, step2(p, Move::Up)) ==> (b.obj_at(step2(p, Move::Up)) == Obj::Wall <==> a.obj_at(step2(p, Move::Up)) == Obj::Wall));
    assert(in_bounds(a.w as int, a.h as int, step(p, Move::Right)) ==> (b.obj_at(step(p, Move::Right)) == Obj::Wall <==> a.obj_at(step(p, Move::Right)) == Obj::Wall));
    assert(in_bounds(a.w as int, a.h as int, step2(p, Move::Right)) ==> (b.obj_at(step2(p, Move::Right)) == Obj::Wall <==> a.obj_at(step2(p, Move::Right)) == Obj::Wall));
    assert(in_bounds(a.w as int, a.h as int, step(p, Move::Down)) ==> (b.obj_at(step(p, Move::Down)) == Obj::Wall <==> a.obj_at(step(p, Move::Down)) == Obj::Wall));
    assert(in_bounds(a.w as int, a.h as int, step2(p, Move::Down)) ==> (b.obj_at(step2(p, Move::Down)) == Obj::Wall <==> a.obj_at(step2(p, Move::Down)) == Obj::Wall));
    assert(in_bounds(a.w as int, a.h as int, step(p, Move::Left)) ==> (b.obj_at(step(p, Move::Left)) == Obj::Wall <==> a.obj_at(step(p, Move::Left)) == Obj::Wall));
    assert(in_bounds(a.w as int, a.h as int, step2(p, Move::Left)) ==> (b.obj_at(step2(p, Move::Left)) == Obj::Wall <==> a.obj_at(step2(p, Move::Left)) == Obj::Wall));
}

/// Makes a random level of the given size: the human at a random place, walls at random
/// (`wall_density` in 100), and boxes already in their holes at random spaces from which
/// they can be pulled (`box_density` in 100 of the cells, at least 3; placing gives up
/// after ten tries per cell). The level is titled with a random name; the second result
/// is the text of the settings used, with the number of boxes placed.
pub fn random_level_creator(width: u16, height: u16, wall_density: u32, box_density: u32, rng: &mut ChaCha8Rng) -> (r: (Level, String))
    requires
        1 <= width,
        1 <= height,
        width * height <= 256,
        (width * height) * box_density <= usize::MAX,
    ensures
        r.0@.is_built(),
        r.0@.w == width,
        r.0@.h == height,
        forall|i: int| 0 <= i < r.0@.data.len() ==> is_random_obj(#[trigger] r.0@.data[i]),
        r.0@.keyvals.len() == 1,
        r.0@.keyvals[0].0 == title_key(),
        is_random_name(r.0@.keyvals[0].1),
        r.1@ == params_text(width, height, wall_density, box_density, count_boxes(r.0@.data)),
        forall|p: Vector| in_bounds(width as int, height as int, p) && #[trigger] r.0@.obj_at(p) == Obj::BoxxInHole
            ==> pullable(r.0@, p),
        count_boxes(r.0@.data) <= boxes_wanted(width, height, box_density),
        exists|x: u16, y: u16, wds: Seq<u32>, bds: Seq<(u16, u16)>|
            #[trigger] drawn_level(width, height, wall_density, box_density, x, y, wds, bds, r.0@),
        wall_density >= 99 ==> forall|i: int| 0 <= i < r.0@.data.len() && i != cell_index(width as int, r.0@.human_pos)
            ==> #[trigger] r.0@.data[i] == Obj::Wall,
{
    assert(width <= 256 && height <= 256) by (nonlinear_arith)
        requires 1 <= width, 1 <= height, width * height <= 256;
    let mut params = String::new();
    push_text(&mut params, "width: ");
    push_decimal(&mut params, width as u64);
    push_text(&mut params, "\nheight: ");
    push_decimal(&mut params, height as u64);
    push_text(&mut params, "\n");
    let x = gen_range_u16(rng, 0, width);
    let y = gen_range_u16(rng, 0, height);
    let data = random_grid(width, height, x, y, wall_density, rng);
    let ghost hi = x + y * width;
    let ghost wds = choose|ds: Seq<u32>| wall_draws(ds, width * height) && data@ == #[trigger] drawn_grid(width * height, hi, wall_density, ds);
    assert(hi < width * height) by (nonlinear_arith)
        requires hi == x + y * width, x < width, y < height;
    let human_pos = Vector(x as i32, y as i32);
    push_text(&mut params, "wall_density: ");
    push_decimal(&mut params, wall_density as u64);
    push_text(&mut params, "\n");
    let name = random_string(rng);
    let ghost name_v = name@;
    proof {
        assert(data@[hi] == Obj::Human);
        assert forall|i: int| 0 <= i < data@.len() && i != hi implies
            #[trigger] data@[i] != Obj::Human && data@[i] != Obj::HumanInHole by {}
    }
    let mut level = Level::from_parts(name, width, height, human_pos, data);
    let ghost start = level@;
    let max_squares = width as usize * height as usize;
    let mut num_boxxes = max_squares * box_density as usize / 100;
    if num_boxxes < 3 {
        num_boxxes = 3;
    }
    let mut i: usize = 0;
    let mut insane: usize = 0;
    proof {
        lemma_count_boxes_none(level@.data);
        assert forall|p: Vector| in_bounds(width as int, height as int, p) && #[trigger] level@.obj_at(p) == Obj::BoxxInHole
            implies pullable(level@, p) by {
            assert(cell_index(width as int, p) < width * height) by (nonlinear_arith)
                requires 0 <= p.0 < width, 0 <= p.1 < height;
            assert(is_random_obj(level@.data[cell_index(width as int, p)]));
        }
    }
    let ghost g = level@;
    let ghost mut bds: Seq<(u16, u16)> = Seq::empty();
    while i < num_boxxes && insane < max_squares * 10
        invariant
            max_squares == width * height,
            max_squares <= 256,
            width <= 256,
            height <= 256,
            level@.wf(),
            level@.w == width,
            level@.h == height,
            level@.human_pos == human_pos,
            level@.human_placed(),
            !level@.cleared_of_human,
            level@.keyvals == start.keyvals,
            forall|j: int| 0 <= j < level@.data.len() ==> is_random_obj(#[trigger] level@.data[j]),
            count_boxes(level@.data) == i,
            i <= num_boxxes,
            num_boxxes == boxes_wanted(width, height, box_density),
            forall|p: Vector| in_bounds(width as int, height as int, p) && #[trigger] level@.obj_at(p) == Obj::BoxxInHole
                ==> pullable(level@, p),
            level@ == boxes_drawn(g, bds),
            insane == bds.len(),
            insane <= max_squares * 10,
            forall|k: int| 0 <= k < bds.len() ==> (#[trigger] bds[k]).0 < width && bds[k].1 < height,
            bds.len() > 0 ==> count_boxes(boxes_drawn(g, bds.drop_last()).data) < num_boxxes,
        decreases max_squares * 10 - insane,
    {
        let bx = gen_range_u16(rng, 0, width);
        let by = gen_range_u16(rng, 0, height);
        proof { lemma_box_step(level@, (bx, by)); }
        let ghost lv = level@;
        let placed = add_drawn_box(&mut level, bx, by);
        proof {
            let nb = bds.push((bx, by));
            assert(nb.drop_last() =~= bds);
            assert(nb.last() == (bx, by));
            assert(boxes_drawn(g, nb) == box_step(lv, (bx, by)));
            bds = nb;
        }
        if placed {
            i = i + 1;
        }
        insane = insane + 1;
    }
    let placed = i;
    push_text(&mut params, "box_density: ");
    push_decimal(&mut params, box_density as u64);
    push_text(&mut params, "\n");
    push_text(&mut params, "num_boxxes: ");
    push_decimal(&mut params, placed as u64);
    push_text(&mut params, "\n");
    let ghost placed_level = level@;
    level.do_noboxx_pts();
    level.do_boxx_pts();
    level.make_win_data();
    proof {
        assert forall|p: Vector| in_bounds(width as int, height as int, p) && #[trigger] level@.obj_at(p) == Obj::BoxxInHole
            implies pullable(level@, p) by {
            assert(placed_level.obj_at(p) == level@.obj_at(p));
            lemma_pullable_walls(placed_level, level@, p);
        }
        let grid = drawn_grid(width * height, hi, wall_density, wds);
        let lg = level@.with_data(grid);
        assert(g.data == grid);
        lemma_boxes_drawn_same(g, lg, bds);
        if bds.len() > 0 {
            lemma_boxes_drawn_same(g, lg, bds.drop_last());
        }
        assert(level@.human_pos == Vector(x as i32, y as i32));
        assert(level@.data == boxes_drawn(lg, bds).data);
        assert(10 * width * height == max_squares * 10) by (nonlinear_arith)
            requires max_squares == width * height;
        assert(bds.len() <= 10 * width * height);
        assert(count_boxes(level@.data) == boxes_wanted(width, height, box_density) || bds.len() == 10 * width * height);
        assert(bds.len() > 0 ==> count_boxes(boxes_drawn(lg, bds.drop_last()).data) < boxes_wanted(width, height, box_density));
        assert(drawn_level(width, height, wall_density, box_density, x, y, wds, bds, level@));
        if wall_density >= 99 {
            assert forall|i: int| 0 <= i < g.data.len() implies #[trigger] g.data[i] == Obj::Wall || g.data[i] == Obj::Human by {
                if i != hi {
                    assert(wds[if i < hi { i } else { i - 1 }] < 100);
                }
            }
            lemma_boxes_none(g, bds);
            assert(cell_index(width as int, level@.human_pos) == hi);
        }
    }
    (level, params)
}


/// Index `a` comes before index `b` when sorted by key, ties by index.
pub open spec fn key_before(keys: Seq<usize>, a: int, b: int) -> bool {
    keys[a] < keys[b] || (keys[a] == keys[b] && a < b)
}

/// `r` holds the first `r.len()` indices of `keys` sorted by key, ties by index.
pub open spec fn smallest_first(keys: Seq<usize>, r: Seq<usize>) -> bool {
    &&& forall|j: int| 0 <= j < r.len() ==> (#[trigger] r[j]) < keys.len()
    &&& forall|j: int, i: int| 0 <= j < r.len() && 0 <= i < keys.len() && !r.take(j).contains(i as usize) && i != r[j]
            ==> #[trigger] key_before(keys, r[j] as int, i)
    &&& forall|j: int, k: int| 0 <= j < k < r.len() ==> (#[trigger] r[j]) != (#[trigger] r[k])
}

/// The first `count` indices of `keys` (all of them if fewer) sorted by key, ties by index.
pub fn smallest_keys(keys: &Vec<usize>, count: usize) -> (r: Vec<usize>)
    ensures
        r@.len() == if count < keys@.len() { count as int } else { keys@.len() as int },
        smallest_first(keys@, r@),
{
    let n = keys.len();
    let want = if count < n { count } else { n };
    let mut chosen: Vec<bool> = Vec::new();
    let mut k: usize = 0;
    while k < n
        invariant
            k <= n,
            n == keys@.len(),
            chosen@.len() == k,
            forall|i: int| 0 <= i < k ==> !(#[trigger] chosen@[i]),
        decreases n - k,
    {
        chosen.push(false);
        k = k + 1;
    }
    let mut r: Vec<usize> = Vec::new();
    while r.len() < want
        invariant
            n == keys@.len(),
            want <= n,
            r@.len() <= want,
            chosen@.len() == n,
            forall|i: int| 0 <= i < n ==> (#[trigger] chosen@[i] <==> r@.contains(i as usize)),
            smallest_first(keys@, r@),
        decreases want - r@.len(),
    {
        // some index is still free
        proof { lemma_free_index(r@, n as int); }
        let mut best: usize = n;
        let mut i: usize = 0;
        while i < n
            invariant
                n == keys@.len(),
                chosen@.len() == n,
                i <= n,
                best == n || (best < i && !chosen@[best as int]),
                best == n ==> forall|q: int| 0 <= q < i ==> #[trigger] chosen@[q],
                best < n ==> forall|q: int| 0 <= q < i && !chosen@[q] && q != best ==> key_before(keys@, best as int, q),
            decreases n - i,
        {
            if !chosen[i] {
                if best == n || keys[i] < keys[best] {
                    best = i;
                }
            }
            i = i + 1;
        }
        proof {
            if best == n {
                let f = choose|f: int| 0 <= f < n && !#[trigger] r@.contains(f as usize);
                assert(chosen@[f]);
            }
        }
        let ghost before = r@;
        let ghost ch0 = chosen@;
        chosen.set(best, true);
        r.push(best);
        proof {
            assert(r@.take(before.len() as int) =~= before);
            assert forall|i: int| 0 <= i < n implies (#[trigger] chosen@[i] <==> r@.contains(i as usize)) by {
                if i == best {
                    assert(r@[before.len() as int] == best);
                } else {
                    if before.contains(i as usize) {
                        let q = choose|q: int| 0 <= q < before.len() && before[q] == i as usize;
                        assert(r@[q] == i as usize);
                    }
                    if r@.contains(i as usize) {
                        let q = choose|q: int| 0 <= q < r@.len() && r@[q] == i as usize;
                        assert(q < before.len());
                        assert(before[q] == i as usize);
                    }
                }
            }
            assert forall|j: int, i: int| 0 <= j < r@.len() && 0 <= i < keys@.len() && !r@.take(j).contains(i as usize) && i != r@[j]
                implies #[trigger] key_before(keys@, r@[j] as int, i) by {
                if j < before.len() {
                    assert(r@.take(j) =~= before.take(j));
                    assert(r@[j] == before[j]);
                } else {
                    assert(r@.take(j) =~= before);
                    assert(!ch0[i]);
                }
            }
            assert forall|j: int, k: int| 0 <= j < k < r@.len() implies (#[trigger] r@[j]) != (#[trigger] r@[k]) by {
                if k == before.len() {
                    assert(r@[j] == before[j]);
                    assert(before.contains(before[j]));
                }
            }
        }
    }
    r
}

/// Some index below `n` is not in `r` when `r` holds fewer than `n` distinct indices.
proof fn lemma_free_index(r: Seq<usize>, n: int)
    requires
        r.len() < n,
        n <= usize::MAX,
        forall|j: int, k: int| 0 <= j < k < r.len() ==> (#[trigger] r[j]) != (#[trigger] r[k]),
    ensures
        exists|f: int| 0 <= f < n && !#[trigger] r.contains(f as usize),
{
    if forall|f: int| 0 <= f < n ==> #[trigger] r.contains(f as usize) {
        let ri = r.map_values(|x: usize| x as int);
        assert forall|j: int, k: int| 0 <= j < ri.len() && 0 <= k < ri.len() && j != k implies ri[j] != ri[k] by {
            if j < k {
                assert(r[j] != r[k]);
            } else {
                assert(r[k] != r[j]);
            }
        }
        assert(ri.no_duplicates());
        ri.unique_seq_to_set();
        lemma_int_range(0, n);
        assert forall|x: int| set_int_range(0, n).contains(x) implies ri.to_set().contains(x) by {
            assert(r.contains(x as usize));
            let q = choose|q: int| 0 <= q < r.len() && r[q] == x as usize;
            assert(ri[q] == x);
        }
        lemma_len_subset(set_int_range(0, n), ri.to_set());
    }
}


/// `r` is the first indices of `len` sorted by some keys, ties by index.
pub open spec fn first_by_some_keys(r: Seq<usize>, len: int) -> bool {
    exists|keys: Seq<usize>| keys.len() == len && #[trigger] smallest_first(keys, r)
}

/// Picks `count` distinct indices below `len` at random (all of them, in order, when there
/// are no more than `count`). Below 100000 indices every index gets a random key and the
/// first `count` by key are taken; above, indices are drawn until `count` distinct ones are
/// found or 10000 draws have hit one already taken.
pub fn select_unique_n_from(count: usize, len: usize, rng: &mut ChaCha8Rng) -> (r: Vec<usize>)
    ensures
        len <= count ==> r@ == Seq::new(len as nat, |i: int| i as usize) && *final(rng) == *old(rng),
        forall|j: int| 0 <= j < r@.len() ==> (#[trigger] r@[j]) < len,
        forall|j: int, k: int| 0 <= j < k < r@.len() ==> (#[trigger] r@[j]) != (#[trigger] r@[k]),
        r@.len() <= count || len <= count,
        count < len < 100000 ==> r@.len() == count && first_by_some_keys(r@, len as int),
{
    if len <= count {
        let mut r: Vec<usize> = Vec::new();
        let mut i: usize = 0;
        while i < len
            invariant
                i <= len,
                r@ == Seq::new(i as nat, |k: int| k as usize),
            decreases len - i,
        {
            r.push(i);
            i = i + 1;
            assert(r@ =~= Seq::new(i as nat, |k: int| k as usize));
        }
        r
    } else if len < 100000 {
        let mut keys: Vec<usize> = Vec::new();
        let mut i: usize = 0;
        while i < len
            invariant
                i <= len,
                keys@.len() == i,
            decreases len - i,
        {
            keys.push(gen_range_usize(rng, 0, usize::MAX));
            i = i + 1;
        }
        let r = smallest_keys(&keys, count);
        assert(first_by_some_keys(r@, len as int)) by {
            assert(smallest_first(keys@, r@));
        }
        r
    } else {
        let mut selected: Vec<usize> = Vec::new();
        let mut everloop_count: usize = 0;
        while selected.len() < count && everloop_count < 10000
            invariant
                len > count,
                selected@.len() <= count,
                forall|j: int| 0 <= j < selected@.len() ==> (#[trigger] selected@[j]) < len,
                forall|j: int, k: int| 0 <= j < k < selected@.len() ==> (#[trigger] selected@[j]) != (#[trigger] selected@[k]),
            decreases count - selected@.len(), 10000 - everloop_count,
        {
            let idx = gen_range_usize(rng, 0, len);
            let mut found = false;
            let mut k: usize = 0;
            while k < selected.len()
                invariant
                    k <= selected@.len(),
                    found == exists|q: int| 0 <= q < k && #[trigger] selected@[q] == idx,
                decreases selected@.len() - k,
            {
                if selected[k] == idx {
                    found = true;
                }
                k = k + 1;
            }
            if !found {
                let ghost before = selected@;
                selected.push(idx);
                proof {
                    assert forall|j: int, q: int| 0 <= j < q < selected@.len() implies (#[trigger] selected@[j]) != (#[trigger] selected@[q]) by {
                        if q == before.len() {
                            assert(selected@[j] == before[j]);
                            if before[j] == idx {
                                assert(exists|q2: int| 0 <= q2 < before.len() && #[trigger] before[q2] == idx);
                            }
                        } else {
                            assert(selected@[j] == before[j] && selected@[q] == before[q]);
                        }
                    }
                }
            } else {
                everloop_count = everloop_count + 1;
            }
        }
        selected
    }
}

} // verus!
