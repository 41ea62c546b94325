//! A game in play: a level, the human's position, the moves made and the moves queued.
//! (How a move is drawn, the sprites and their timing, is left to the front end, which
//! is told what moved.)
use vstd::prelude::*;
use crate::obj::Obj;
use vstd::string::StringExecFns;
use crate::level::{Level, LevelView, cell_index, in_bounds, is_box_obj, is_hole_obj, count_boxes, level_text};
use crate::readback::count_holes;
use crate::strutil::{string_push, push_decimal, decimal};
use crate::vector::{Vector, Move, dx, dy, move_code, move_of, move_rev, moves_text, moves_to_string};
use crate::builtins::BUILTIN_LEVELS;
use crate::parse::{TextEnd, text_end, made_from, read_text};

verus! {

/// What a game holds, as mathematical values.
pub struct GameView {
    pub level_number: u32,
    pub num_moves: u32,
    pub move_history: Seq<Move>,
    pub human_pos: Vector,
    pub level: LevelView,
    pub move_queue: Seq<Move>,
}

/// A game: the level as played so far, where the human stands, the moves made (oldest
/// first) and the moves waiting (the next one last).
pub struct Game {
    pub level_number: u32,
    pub num_moves: u32,
    move_history: Vec<Move>,
    pub human_pos: Vector,
    level: Level,
    move_queue: Vec<Move>,
}

impl View for Game {
    type V = GameView;

    closed spec fn view(&self) -> GameView {
        GameView {
            level_number: self.level_number,
            num_moves: self.num_moves,
            move_history: self.move_history@,
            human_pos: self.human_pos,
            level: self.level@,
            move_queue: self.move_queue@,
        }
    }
}

/// One step from `p` in the direction of `m`.
pub open spec fn step(p: Vector, m: Move) -> Vector {
    Vector((p.0 + dx(m)) as i32, (p.1 + dy(m)) as i32)
}

/// Two steps from `p` in the direction of `m`.
pub open spec fn step2(p: Vector, m: Move) -> Vector {
    Vector((p.0 + 2 * dx(m)) as i32, (p.1 + 2 * dy(m)) as i32)
}

/// A space or a hole: somewhere the human or a box can go.
pub open spec fn is_free(o: Obj) -> bool {
    o == Obj::Space || o == Obj::Hole
}

/// The human at `hp` can move in direction `m`: onto a free cell, or onto a box whose
/// next cell is free (pushing it there).
pub open spec fn can_move(v: LevelView, hp: Vector, m: Move) -> bool {
    let o = v.obj_at_checked(step(hp, m));
    is_free(o) || (is_box_obj(o) && is_free(v.obj_at_checked(step2(hp, m))))
}

/// `seq![m]` where the human can move in direction `m`, empty otherwise.
pub open spec fn option_if(v: LevelView, hp: Vector, m: Move) -> Seq<Move> {
    if can_move(v, hp, m) { seq![m] } else { Seq::empty() }
}

/// The directions the human at `hp` can move in, in the order up, right, down, left.
pub open spec fn move_options(v: LevelView, hp: Vector) -> Seq<Move> {
    option_if(v, hp, Move::Up) + option_if(v, hp, Move::Right) + option_if(v, hp, Move::Down)
        + option_if(v, hp, Move::Left)
}

/// The grid after the human at `hp` moves in direction `m`: the cell left becomes a space
/// or hole, a box in the way goes one cell further (into a hole if there is one), and the
/// human stands on the cell moved to (in its hole if it has one).
pub open spec fn moved_grid(v: LevelView, hp: Vector, m: Move) -> Seq<Obj> {
    let w = v.w as int;
    let np = step(hp, m);
    let o = v.obj_at(np);
    let d1 = v.data.update(cell_index(w, hp), if v.obj_at(hp) == Obj::Human { Obj::Space } else { Obj::Hole });
    if is_box_obj(o) {
        let bp = step2(hp, m);
        let d2 = d1.update(cell_index(w, bp), if v.obj_at(bp) == Obj::Hole { Obj::BoxxInHole } else { Obj::Boxx });
        d2.update(cell_index(w, np), if o == Obj::BoxxInHole { Obj::HumanInHole } else { Obj::Human })
    } else {
        d1.update(cell_index(w, np), if o == Obj::Hole { Obj::HumanInHole } else { Obj::Human })
    }
}

/// What a move did, for the front end to show: the human went from `from` to `to`, and
/// if `pushed_boxx` a box went from `to` one cell further.
#[derive(Clone, Copy, PartialEq, Eq, Structural, Debug)]
pub struct MoveMade {
    pub from: Vector,
    pub to: Vector,
    pub pushed_boxx: bool,
}

/// The number of the last built-in level.
pub open spec fn last_level_number() -> int {
    BUILTIN_LEVELS@.len() - 1
}

/// What the game shows: 80 dashes, the number of moves and their letters, an empty line,
/// the level with its border, and an empty line.
pub open spec fn game_text(g: GameView) -> Seq<char> {
    Seq::new(80, |j: int| '-').push('\n') + decimal(g.num_moves as nat) + " moves: "@
        + moves_text(g.move_history) + seq!['\n', '\n'] + level_text(g.level) + seq!['\n', '\n']
}

impl GameView {
    /// The grid has one object per cell, fits the 16-bit coordinates, the human stands at
    /// its position and nowhere else, and the count of moves is the number of moves made.
    pub open spec fn wf(&self) -> bool {
        &&& self.num_moves == self.move_history.len()
        &&& self.level.wf()
        &&& self.level.w <= 32767
        &&& self.level.h <= 32767
        &&& (LevelView { human_pos: self.human_pos, ..self.level }).human_placed()
    }
}

impl Game {
    /// The directions the human can move in, in the order up, right, down, left.
    pub fn get_move_options(&self) -> (options: Vec<Move>)
        requires
            self@.wf(),
        ensures
            options@ == move_options(self@.level, self@.human_pos),
    {
        let mut options: Vec<Move> = Vec::new();
        let ghost v = self@.level;
        let ghost hp = self@.human_pos;
        let mut k: usize = 0;
        while k < 4
            invariant
                self@.wf(),
                v == self@.level,
                hp == self@.human_pos,
                k <= 4,
                options@ == (if k == 0 { Seq::empty() } else if k == 1 { option_if(v, hp, Move::Up) }
                    else if k == 2 { option_if(v, hp, Move::Up) + option_if(v, hp, Move::Right) }
                    else if k == 3 { option_if(v, hp, Move::Up) + option_if(v, hp, Move::Right) + option_if(v, hp, Move::Down) }
                    else { move_options(v, hp) }),
            decreases 4 - k,
        {
            let movedir = if k == 0 { Move::Up } else if k == 1 { Move::Right } else if k == 2 { Move::Down } else { Move::Left };
            let ghost before = options@;
            if self.can_move(movedir) {
                options.push(movedir);
            }
            assert(options@ =~= before + option_if(v, hp, movedir));
            k = k + 1;
        }
        options
    }

    /// Whether the human can move in direction `m`.
    fn can_move(&self, m: Move) -> (r: bool)
        requires
            self@.wf(),
        ensures
            r == can_move(self@.level, self@.human_pos, m),
    {
        let hp = self.human_pos;
        let v = m.to_vector();
        let np = hp.add(&v);
        match self.get_object_at_point(&np) {
            Obj::Space | Obj::Hole => true,
            Obj::Boxx | Obj::BoxxInHole => {
                let bp = hp.add(&v.double());
                match self.get_object_at_point(&bp) {
                    Obj::Space | Obj::Hole => true,
                    _ => false,
                }
            },
            _ => false,
        }
    }

    /// Whether moves are waiting to be made.
    pub fn is_queued_moves(&self) -> (r: bool)
        ensures
            r == (self@.move_queue.len() > 0),
    {
        self.move_queue.len() > 0
    }

    /// Queues a move; queued moves are made oldest first.
    pub fn append_move(&mut self, m: &Move)
        ensures
            final(self)@ == (GameView { move_queue: seq![*m] + old(self)@.move_queue, ..old(self)@ }),
    {
        self.move_queue.insert(0, *m);
        assert(self@.move_queue =~= seq![*m] + old(self)@.move_queue);
    }

    /// Makes the oldest queued move, unless the front end is still showing the last one
    /// (`animating`) or none is queued. A queued move the human cannot make is dropped.
    /// What moved is returned for the front end to show.
    pub fn process_moves(&mut self, animating: bool) -> (made: Option<MoveMade>)
        requires
            old(self)@.wf(),
            old(self)@.move_queue.len() > 0 && !animating
                && can_move(old(self)@.level, old(self)@.human_pos, old(self)@.move_queue.last())
                ==> old(self)@.num_moves < u32::MAX,
        ensures
            final(self)@.wf(),
            final(self)@.level.sprites_stripped() == old(self)@.level.sprites_stripped(),
            count_boxes(final(self)@.level.data) == count_boxes(old(self)@.level.data),
            count_holes(final(self)@.level.data) == count_holes(old(self)@.level.data),
            final(self)@.num_moves <= old(self)@.num_moves + 1,
            ({
                let g = old(self)@;
                if g.move_queue.len() == 0 || animating {
                    final(self)@ == g && made is None
                } else {
                    let m = g.move_queue.last();
                    let q = g.move_queue.drop_last();
                    if !can_move(g.level, g.human_pos, m) {
                        final(self)@ == (GameView { move_queue: q, ..g }) && made is None
                    } else {
                        &&& final(self)@ == (GameView {
                            move_queue: q,
                            move_history: g.move_history.push(m),
                            num_moves: (g.num_moves + 1) as u32,
                            human_pos: step(g.human_pos, m),
                            level: g.level.with_data(moved_grid(g.level, g.human_pos, m)),
                            ..g
                        })
                        &&& made == Some(MoveMade {
                            from: g.human_pos,
                            to: step(g.human_pos, m),
                            pushed_boxx: is_box_obj(g.level.obj_at(step(g.human_pos, m))),
                        })
                    }
                }
            }),
    {
        if self.move_queue.len() == 0 {
            return None;
        }
        if animating {
            return None;
        }
        let m = self.move_queue.pop().unwrap();
        let ghost g = old(self)@;
        let ghost lv = g.level;
        let ghost hp = g.human_pos;
        let options = self.get_move_options();
        let mut found = false;
        let mut k: usize = 0;
        while k < options.len()
            invariant
                k <= options@.len(),
                found == options@.take(k as int).contains(m),
            decreases options@.len() - k,
        {
            proof {
                let t = options@.take(k as int);
                let t1 = options@.take(k as int + 1);
                assert(t1 =~= t.push(options@[k as int]));
                if t1.contains(m) {
                    let j = choose|j: int| 0 <= j < t1.len() && t1[j] == m;
                    if j < t.len() {
                        assert(t[j] == m);
                    }
                }
                if t.contains(m) {
                    let j = choose|j: int| 0 <= j < t.len() && t[j] == m;
                    assert(t1[j] == m);
                }
                if options@[k as int] == m {
                    assert(t1[k as int] == m);
                }
            }
            if options[k] == m {
                found = true;
            }
            k = k + 1;
        }
        assert(options@.take(options@.len() as int) =~= options@);
        assert(found == can_move(lv, hp, m)) by {
            assert(move_options(lv, hp).contains(m) == can_move(lv, hp, m)) by {
                let o1 = option_if(lv, hp, Move::Up);
                let o2 = option_if(lv, hp, Move::Right);
                let o3 = option_if(lv, hp, Move::Down);
                let o4 = option_if(lv, hp, Move::Left);
                if can_move(lv, hp, m) {
                    let all = o1 + o2 + o3 + o4;
                    assert(all.len() == o1.len() + o2.len() + o3.len() + o4.len());
                    if m == Move::Up { assert(all[0] == m); }
                    if m == Move::Right { assert(all[o1.len() as int] == m); }
                    if m == Move::Down { assert(all[(o1.len() + o2.len()) as int] == m); }
                    if m == Move::Left { assert(all[(o1.len() + o2.len() + o3.len()) as int] == m); }
                } else {
                    assert forall|i: int| 0 <= i < move_options(lv, hp).len() implies move_options(lv, hp)[i] != m by {
                        let all = o1 + o2 + o3 + o4;
                        if i < o1.len() {
                            assert(all[i] == o1[i]);
                        } else if i < o1.len() + o2.len() {
                            assert(all[i] == o2[i - o1.len()]);
                        } else if i < o1.len() + o2.len() + o3.len() {
                            assert(all[i] == o3[i - o1.len() - o2.len()]);
                        } else {
                            assert(all[i] == o4[i - o1.len() - o2.len() - o3.len()]);
                        }
                    }
                }
            }
        }
        if !found {
            return None;
        }
        self.move_history.push(m);
        self.num_moves = self.num_moves + 1;

        let w = self.level.get_level_width() as u16;
        let hpos = self.human_pos;
        let v = m.to_vector();
        let np = hpos.add(&v);
        let bp = hpos.add(&v.double());
        proof {
            assert(cell_index(lv.w as int, hp) < lv.w * lv.h) by (nonlinear_arith)
                requires 0 <= hp.0 < lv.w, 0 <= hp.1 < lv.h;
            assert(in_bounds(lv.w as int, lv.h as int, np));
            assert(cell_index(lv.w as int, np) < lv.w * lv.h) by (nonlinear_arith)
                requires 0 <= np.0 < lv.w, 0 <= np.1 < lv.h;
            assert(w * hp.1 + hp.0 <= 32767 * 32767) by (nonlinear_arith)
                requires 0 <= hp.0 < w, 0 <= hp.1 < lv.h, w == lv.w, lv.w <= 32767, lv.h <= 32767;
            assert(w * np.1 + np.0 <= 32767 * 32767) by (nonlinear_arith)
                requires 0 <= np.0 < w, 0 <= np.1 < lv.h, w == lv.w, lv.w <= 32767, lv.h <= 32767;
            assert(w * np.1 == np.1 * w && w * hp.1 == hp.1 * w && w * bp.1 == bp.1 * w) by (nonlinear_arith);
        }
        // take the human off its cell
        let idx = hpos.to_index(w);
        let human_obj = self.level.get_obj_at_idx(idx);
        let left_obj = if human_obj == Obj::Human { Obj::Space } else { Obj::Hole };
        self.level.set_obj_at_idx(idx, left_obj);

        // the cell moved to
        let nidx = np.to_index(w);
        let obj = self.level.get_obj_at_idx(nidx);
        let pushed = obj == Obj::Boxx || obj == Obj::BoxxInHole;
        let new_obj = if pushed {
            proof {
                assert(in_bounds(lv.w as int, lv.h as int, bp));
                assert(cell_index(lv.w as int, bp) < lv.w * lv.h) by (nonlinear_arith)
                    requires 0 <= bp.0 < lv.w, 0 <= bp.1 < lv.h;
                assert(w * bp.1 + bp.0 <= 32767 * 32767) by (nonlinear_arith)
                    requires 0 <= bp.0 < w, 0 <= bp.1 < lv.h, w == lv.w, lv.w <= 32767, lv.h <= 32767;
            }
            let bidx = bp.to_index(w);
            let o = self.level.get_obj_at_idx(bidx);
            if o == Obj::Hole {
                self.level.set_obj_at_idx(bidx, Obj::BoxxInHole);
            } else {
                self.level.set_obj_at_idx(bidx, Obj::Boxx);
            }
            if obj == Obj::BoxxInHole { Obj::HumanInHole } else { Obj::Human }
        } else {
            if obj == Obj::Hole { Obj::HumanInHole } else { Obj::Human }
        };
        self.level.set_obj_at_idx(nidx, new_obj);
        self.human_pos = np;
        proof {
            assert(self@.level.data =~= moved_grid(lv, hp, m));
            lemma_move_keeps_wf(g, m);
            lemma_move_keeps_layout(g, m);
            lemma_move_keeps_box_count(g, m);
            assert forall|i: int| 0 <= i < self@.level.data.len() implies #[trigger] is_hole_obj(self@.level.data[i]) == is_hole_obj(lv.data[i]) by {
                assert(self@.level.sprites_stripped()[i] == lv.sprites_stripped()[i]);
            }
            lemma_stripped_holes(self@.level.data, lv.data);
        }
        Some(MoveMade { from: hpos, to: np, pushed_boxx: pushed })
    }

    /// A new game of built-in level `levelnum` (the last one if the number is past it).
    /// Every built-in text reads to a level; were one not to, the game would be of a level
    /// of one cell holding the human alone.
    pub fn new(levelnum: u32) -> (g: Game)
        ensures
            g@.wf(),
            g@.level_number == (if levelnum < BUILTIN_LEVELS@.len() { levelnum as int } else { last_level_number() }),
            g@.level.is_built(),
            g@.human_pos == g@.level.human_pos,
            g@.num_moves == 0,
            g@.move_history.len() == 0,
            g@.move_queue.len() == 0,
            text_end(BUILTIN_LEVELS@[g@.level_number as int]@) == TextEnd::Built
                ==> made_from(g@.level, read_text(BUILTIN_LEVELS@[g@.level_number as int]@)),
            text_end(BUILTIN_LEVELS@[g@.level_number as int]@) != TextEnd::Built
                ==> g@.level.w == 1 && g@.level.h == 1 && g@.level.data == seq![Obj::Human],
    {
        let mut levelnum = levelnum;
        if levelnum as usize >= BUILTIN_LEVELS.len() {
            levelnum = (BUILTIN_LEVELS.len() - 1) as u32;
        }
        match Level::from_builtin(levelnum as usize) {
            Ok(base_level) => {
                proof {
                    let st = read_text(BUILTIN_LEVELS@[levelnum as int]@);
                    assert(base_level@.w == st.w - 2 && st.w - 2 <= 127);
                    assert(base_level@.h == st.h - 2 && st.h - 2 <= 127);
                }
                Game::new_from_level(&base_level, levelnum)
            },
            Err(_) => {
                let mut data: Vec<Obj> = Vec::new();
                data.push(Obj::Human);
                assert(data@ =~= seq![Obj::Human]);
                assert(cell_index(1, Vector(0, 0)) == 0);
                let ghost lv = LevelView {
                    w: 1, h: 1, human_pos: Vector(0, 0), win_data: seq![0u64, 0, 0, 0], data: data@,
                    keyvals: Seq::empty(), noboxx_pts: Seq::empty(), boxx_pts: Seq::empty(), hole_pts: Seq::empty(),
                    wall_pts: Seq::empty(), cleared_of_human: false,
                };
                assert(lv.obj_at(Vector(0, 0)) == Obj::Human);
                assert(lv.human_placed());
                assert(lv.buildable());
                let title = String::new();
                let one = Level::from_parts(title, 1, 1, Vector(0, 0), data);
                Game::new_from_level(&one, levelnum)
            },
        }
    }

    /// A new game of `base_level`, numbered `levelnum`.
    pub fn new_from_level(base_level: &Level, levelnum: u32) -> (g: Game)
        ensures
            g@ == (GameView {
                level_number: levelnum,
                num_moves: 0,
                move_history: Seq::empty(),
                human_pos: base_level@.human_pos,
                level: base_level@,
                move_queue: Seq::empty(),
            }),
            base_level@.is_built() && base_level@.w <= 32767 && base_level@.h <= 32767 ==> g@.wf(),
    {
        let g = Game {
            level_number: levelnum,
            num_moves: 0,
            move_history: Vec::new(),
            human_pos: base_level.human_position(),
            level: base_level.clone(),
            move_queue: Vec::new(),
        };
        assert(g@.move_history =~= Seq::<Move>::empty());
        assert(g@.move_queue =~= Seq::<Move>::empty());
        assert(g@.level.human_pos == base_level@.human_pos);
        assert(LevelView { human_pos: g@.human_pos, ..g@.level } == g@.level);
        g
    }

    /// The number of the last built-in level.
    pub fn get_max_level_number(&self) -> (n: u32)
        ensures
            n == last_level_number(),
    {
        (BUILTIN_LEVELS.len() - 1) as u32
    }

    /// Queues the move of a single held key (W or up arrow, D or right, S or down, A or
    /// left); any other key, or more than one key held, queues nothing.
    pub fn process_keys(&mut self, keys: &Vec<u32>)
        ensures
            final(self)@ == (if keys@.len() == 1 && key_move(keys@[0]) is Some {
                GameView { move_queue: seq![key_move(keys@[0])->0] + old(self)@.move_queue, ..old(self)@ }
            } else {
                old(self)@
            }),
            keys@.len() == 1 && (keys@[0] == 87 || keys@[0] == 38) ==> final(self)@.move_queue.len() == old(self)@.move_queue.len() + 1
                && dx(final(self)@.move_queue[0]) == 0 && dy(final(self)@.move_queue[0]) == -1,
            keys@.len() == 1 && (keys@[0] == 83 || keys@[0] == 40) ==> final(self)@.move_queue.len() == old(self)@.move_queue.len() + 1
                && dx(final(self)@.move_queue[0]) == 0 && dy(final(self)@.move_queue[0]) == 1,
            keys@.len() == 1 && (keys@[0] == 68 || keys@[0] == 39) ==> final(self)@.move_queue.len() == old(self)@.move_queue.len() + 1
                && dx(final(self)@.move_queue[0]) == 1 && dy(final(self)@.move_queue[0]) == 0,
            keys@.len() == 1 && (keys@[0] == 65 || keys@[0] == 37) ==> final(self)@.move_queue.len() == old(self)@.move_queue.len() + 1
                && dx(final(self)@.move_queue[0]) == -1 && dy(final(self)@.move_queue[0]) == 0,
    {
        if keys.len() == 1 {
            let k = keys[0];
            if k == 87 || k == 38 {
                self.append_move(&Move::Up);
            } else if k == 68 || k == 39 {
                self.append_move(&Move::Right);
            } else if k == 83 || k == 40 {
                self.append_move(&Move::Down);
            } else if k == 65 || k == 37 {
                self.append_move(&Move::Left);
            }
        }
    }

    /// The moves made, by number (up 0, right 1, down 2, left 3).
    pub fn get_move_history(&self) -> (r: Vec<u32>)
        ensures
            r@.len() == self@.move_history.len(),
            forall|i: int| 0 <= i < r@.len() ==> #[trigger] r@[i] == move_code(self@.move_history[i]),
    {
        moves_to_codes(&self.move_history)
    }

    /// The moves made.
    pub fn get_moves(&self) -> (r: &Vec<Move>)
        ensures
            r@ == self@.move_history,
    {
        &self.move_history
    }

    /// The level as played so far.
    pub fn get_level(&self) -> (r: &Level)
        ensures
            r@ == self@.level,
    {
        &self.level
    }

    /// The object at `point`, a wall outside the grid.
    pub fn get_object_at_point(&self, point: &Vector) -> (o: Obj)
        requires
            self@.level.wf(),
        ensures
            o == self@.level.obj_at_checked(*point),
    {
        self.level.get_obj_at_pt_checked(point)
    }

    /// The directions the human can move in, by number.
    pub fn get_move_options_js(&self) -> (r: Vec<u32>)
        requires
            self@.wf(),
        ensures
            r@.len() == move_options(self@.level, self@.human_pos).len(),
            forall|i: int| 0 <= i < r@.len() ==> #[trigger] r@[i] == move_code(move_options(self@.level, self@.human_pos)[i]),
    {
        let options = self.get_move_options();
        moves_to_codes(&options)
    }

    /// Queues the move numbered `m` (up 0, right 1, down 2, left 3); another number queues
    /// nothing.
    pub fn append_move_js(&mut self, m: u32)
        ensures
            final(self)@ == (if m < 4 {
                GameView { move_queue: seq![move_of(m as int)] + old(self)@.move_queue, ..old(self)@ }
            } else {
                old(self)@
            }),
    {
        match Move::from_u32(m) {
            Some(mv) => self.append_move(&mv),
            None => {},
        }
    }

    /// The level's title ("untitled" if it has none).
    pub fn get_level_title(&self) -> (s: String)
        ensures
            s@ == (match self@.level.keyval(crate::level::title_key()) {
                Some(t) => t,
                None => crate::level::untitled(),
            }),
    {
        self.level.get_title()
    }

    pub fn get_level_width(&self) -> (r: u32)
        ensures
            r == self@.level.w,
    {
        self.level.get_level_width()
    }

    pub fn get_level_height(&self) -> (r: u32)
        ensures
            r == self@.level.h,
    {
        self.level.get_level_height()
    }

    /// Whether every hole holds a box (no box and no empty hole is left).
    pub fn have_win_condition(&self) -> (r: bool)
        ensures
            r == self@.level.won(),
    {
        self.level.have_win_condition()
    }

    /// The grid, one object number per cell, row after row.
    pub fn get_level_data(&self) -> (r: Vec<u32>)
        ensures
            r@.len() == self@.level.data.len(),
            forall|i: int| 0 <= i < r@.len() ==> #[trigger] r@[i] == crate::obj::obj_code(self@.level.data[i]),
    {
        self.level.get_data()
    }

    /// The moves made, as text.
    pub fn history_text(&self) -> (s: String)
        ensures
            s@ == moves_text(self@.move_history),
    {
        moves_to_string(&self.move_history)
    }

    /// The text the game shows: a rule, the number of moves and their letters, then the
    /// level with its border.
    pub fn display(&self) -> (s: String)
        requires
            self@.wf(),
        ensures
            s@ == game_text(self@),
    {
        let mut s = String::new();
        let mut k: usize = 0;
        while k < 80
            invariant
                k <= 80,
                s@ == Seq::new(k as nat, |j: int| '-'),
            decreases 80 - k,
        {
            string_push(&mut s, '-');
            assert(s@ =~= Seq::new((k + 1) as nat, |j: int| '-'));
            k = k + 1;
        }
        string_push(&mut s, '\n');
        push_decimal(&mut s, self.num_moves as u64);
        s.append(" moves: ");
        let ms = moves_to_string(&self.move_history);
        s.append(ms.as_str());
        string_push(&mut s, '\n');
        string_push(&mut s, '\n');
        let lt = self.level.to_string();
        s.append(lt.as_str());
        string_push(&mut s, '\n');
        string_push(&mut s, '\n');
        proof {
            reveal_strlit(" moves: ");
        }
        assert(s@ =~= game_text(self@));
        s
    }
}

/// The move of a key code: W or up arrow, D or right, S or down, A or left.
pub open spec fn key_move(k: u32) -> Option<Move> {
    if k == 87 || k == 38 {
        Some(Move::Up)
    } else if k == 68 || k == 39 {
        Some(Move::Right)
    } else if k == 83 || k == 40 {
        Some(Move::Down)
    } else if k == 65 || k == 37 {
        Some(Move::Left)
    } else {
        None
    }
}

/// A held key moves the human the way the key names: W and the up arrow (87, 38) up, S and
/// the down arrow (83, 40) down, D and the right arrow (68, 39) right, A and the left arrow
/// (65, 37) left; no other key moves it.
pub proof fn lemma_key_directions(k: u32)
    ensures
        (k == 87 || k == 38) <==> (key_move(k) matches Some(m) && dx(m) == 0 && dy(m) == -1),
        (k == 83 || k == 40) <==> (key_move(k) matches Some(m) && dx(m) == 0 && dy(m) == 1),
        (k == 68 || k == 39) <==> (key_move(k) matches Some(m) && dx(m) == 1 && dy(m) == 0),
        (k == 65 || k == 37) <==> (key_move(k) matches Some(m) && dx(m) == -1 && dy(m) == 0),
{
}

/// The numbers of the moves.
fn moves_to_codes(moves: &Vec<Move>) -> (r: Vec<u32>)
    ensures
        r@.len() == moves@.len(),
        forall|i: int| 0 <= i < r@.len() ==> #[trigger] r@[i] == move_code(moves@[i]),
{
    let mut r: Vec<u32> = Vec::new();
    let mut i: usize = 0;
    while i < moves.len()
        invariant
            i <= moves@.len(),
            r@.len() == i,
            forall|k: int| 0 <= k < i ==> #[trigger] r@[k] == move_code(moves@[k]),
        decreases moves@.len() - i,
    {
        r.push(moves[i].to_u8() as u32);
        i = i + 1;
    }
    r
}

/// A move the human can make keeps the game well formed: the grid keeps its size and the
/// human stands on the cell moved to and nowhere else.
pub proof fn lemma_move_keeps_wf(g: GameView, m: Move)
    requires
        g.wf(),
        can_move(g.level, g.human_pos, m),
    ensures
        (GameView { human_pos: step(g.human_pos, m), level: g.level.with_data(moved_grid(g.level, g.human_pos, m)), ..g }).wf(),
{
    let v = g.level;
    let hp = g.human_pos;
    let w = v.w as int;
    let h = v.h as int;
    let np = step(hp, m);
    let bp = step2(hp, m);
    assert(0 <= cell_index(w, hp) < w * h) by (nonlinear_arith)
        requires 0 <= hp.0 < w, 0 <= hp.1 < h;
    assert(in_bounds(w, h, np));
    assert(0 <= cell_index(w, np) < w * h) by (nonlinear_arith)
        requires 0 <= np.0 < w, 0 <= np.1 < h;
    assert(cell_index(w, np) != cell_index(w, hp)) by (nonlinear_arith)
        requires np != hp, 0 <= np.0 < w, 0 <= hp.0 < w, cell_index(w, np) == np.0 + np.1 * w,
            cell_index(w, hp) == hp.0 + hp.1 * w;
    if is_box_obj(v.obj_at(np)) {
        assert(in_bounds(w, h, bp));
        assert(0 <= cell_index(w, bp) < w * h) by (nonlinear_arith)
            requires 0 <= bp.0 < w, 0 <= bp.1 < h;
        assert(cell_index(w, bp) != cell_index(w, np)) by (nonlinear_arith)
            requires bp != np, 0 <= bp.0 < w, 0 <= np.0 < w, cell_index(w, np) == np.0 + np.1 * w,
                cell_index(w, bp) == bp.0 + bp.1 * w;
    }
}


/// Two grids with holes at the same cells have as many holes.
pub proof fn lemma_stripped_holes(a: Seq<Obj>, c: Seq<Obj>)
    requires
        a.len() == c.len(),
        forall|i: int| 0 <= i < a.len() ==> #[trigger] is_hole_obj(a[i]) == is_hole_obj(c[i]),
    ensures
        count_holes(a) == count_holes(c),
    decreases a.len(),
{
    if a.len() > 0 {
        assert(is_hole_obj(a[a.len() - 1]) == is_hole_obj(c[c.len() - 1]));
        lemma_stripped_holes(a.drop_last(), c.drop_last());
    }
}

/// Writing one cell changes the box count by what leaves and what comes.
pub proof fn lemma_count_boxes_update(s: Seq<Obj>, i: int, x: Obj)
    requires
        0 <= i < s.len(),
    ensures
        count_boxes(s.update(i, x)) + (if is_box_obj(s[i]) { 1int } else { 0 })
            == count_boxes(s) + (if is_box_obj(x) { 1int } else { 0 }),
    decreases s.len(),
{
    let t = s.update(i, x);
    if i == s.len() - 1 {
        assert(t.drop_last() =~= s.drop_last());
    } else {
        assert(t.drop_last() =~= s.drop_last().update(i, x));
        lemma_count_boxes_update(s.drop_last(), i, x);
    }
}

/// A move keeps the number of boxes.
pub proof fn lemma_move_keeps_box_count(g: GameView, m: Move)
    requires
        g.wf(),
        can_move(g.level, g.human_pos, m),
    ensures
        count_boxes(moved_grid(g.level, g.human_pos, m)) == count_boxes(g.level.data),
{
    let v = g.level;
    let hp = g.human_pos;
    let w = v.w as int;
    let h = v.h as int;
    let np = step(hp, m);
    let bp = step2(hp, m);
    lemma_move_keeps_wf(g, m);
    assert(0 <= cell_index(w, hp) < w * h) by (nonlinear_arith)
        requires 0 <= hp.0 < w, 0 <= hp.1 < h;
    assert(0 <= cell_index(w, np) < w * h) by (nonlinear_arith)
        requires 0 <= np.0 < w, 0 <= np.1 < h;
    assert(cell_index(w, np) != cell_index(w, hp)) by (nonlinear_arith)
        requires np != hp, 0 <= np.0 < w, 0 <= hp.0 < w, cell_index(w, np) == np.0 + np.1 * w,
            cell_index(w, hp) == hp.0 + hp.1 * w;
    let d1 = v.data.update(cell_index(w, hp), if v.obj_at(hp) == Obj::Human { Obj::Space } else { Obj::Hole });
    lemma_count_boxes_update(v.data, cell_index(w, hp), if v.obj_at(hp) == Obj::Human { Obj::Space } else { Obj::Hole });
    let o = v.obj_at(np);
    if is_box_obj(o) {
        assert(0 <= cell_index(w, bp) < w * h) by (nonlinear_arith)
            requires 0 <= bp.0 < w, 0 <= bp.1 < h;
        assert(cell_index(w, bp) != cell_index(w, np)) by (nonlinear_arith)
            requires bp != np, 0 <= bp.0 < w, 0 <= np.0 < w, cell_index(w, np) == np.0 + np.1 * w,
                cell_index(w, bp) == bp.0 + bp.1 * w;
        assert(cell_index(w, bp) != cell_index(w, hp)) by (nonlinear_arith)
            requires bp != hp, 0 <= bp.0 < w, 0 <= hp.0 < w, cell_index(w, hp) == hp.0 + hp.1 * w,
                cell_index(w, bp) == bp.0 + bp.1 * w;
        let bo = if v.obj_at(bp) == Obj::Hole { Obj::BoxxInHole } else { Obj::Boxx };
        let d2 = d1.update(cell_index(w, bp), bo);
        lemma_count_boxes_update(d1, cell_index(w, bp), bo);
        lemma_count_boxes_update(d2, cell_index(w, np), if o == Obj::BoxxInHole { Obj::HumanInHole } else { Obj::Human });
    } else {
        lemma_count_boxes_update(d1, cell_index(w, np), if o == Obj::Hole { Obj::HumanInHole } else { Obj::Human });
    }
}

/// A move keeps the walls and the holes where they are: the grid with the human and the
/// boxes taken off is the same before and after.
pub proof fn lemma_move_keeps_layout(g: GameView, m: Move)
    requires
        g.wf(),
        can_move(g.level, g.human_pos, m),
    ensures
        g.level.with_data(moved_grid(g.level, g.human_pos, m)).sprites_stripped() == g.level.sprites_stripped(),
{
    let v = g.level;
    let hp = g.human_pos;
    let w = v.w as int;
    let h = v.h as int;
    let np = step(hp, m);
    let bp = step2(hp, m);
    lemma_move_keeps_wf(g, m);
    assert(0 <= cell_index(w, hp) < w * h) by (nonlinear_arith)
        requires 0 <= hp.0 < w, 0 <= hp.1 < h;
    assert(0 <= cell_index(w, np) < w * h) by (nonlinear_arith)
        requires 0 <= np.0 < w, 0 <= np.1 < h;
    if is_box_obj(v.obj_at(np)) {
        assert(0 <= cell_index(w, bp) < w * h) by (nonlinear_arith)
            requires 0 <= bp.0 < w, 0 <= bp.1 < h;
    }
    assert(g.level.with_data(moved_grid(g.level, g.human_pos, m)).sprites_stripped() =~= g.level.sprites_stripped());
}

/// The moves offered as options are exactly the moves the game makes when they are queued.
pub proof fn lemma_options_are_moves(v: LevelView, hp: Vector, m: Move)
    ensures
        move_options(v, hp).contains(m) <==> can_move(v, hp, m),
{
    let o = move_options(v, hp);
    if can_move(v, hp, m) {
        let k: int = match m { Move::Up => 0, Move::Right => 1, Move::Down => 2, Move::Left => 3 };
        let pre = if k == 0 { Seq::<Move>::empty() } else if k == 1 { option_if(v, hp, Move::Up) }
            else if k == 2 { option_if(v, hp, Move::Up) + option_if(v, hp, Move::Right) }
            else { option_if(v, hp, Move::Up) + option_if(v, hp, Move::Right) + option_if(v, hp, Move::Down) };
        assert(o[pre.len() as int] == m);
    } else {
        assert forall|i: int| 0 <= i < o.len() implies o[i] != m by {
            if o[i] == m {
                assert(can_move(v, hp, o[i]));
            }
        }
    }
}

/// A step that pushes no box is undone by the step back: after it the human can step back
/// the other way, and that step brings back the grid and the human's place as they were.
pub proof fn lemma_walk_back(g: GameView, m: Move)
    requires
        g.wf(),
        can_move(g.level, g.human_pos, m),
        !is_box_obj(g.level.obj_at(step(g.human_pos, m))),
    ensures
        ({
            let g1 = GameView { human_pos: step(g.human_pos, m), level: g.level.with_data(moved_grid(g.level, g.human_pos, m)), ..g };
            &&& can_move(g1.level, g1.human_pos, move_rev(m))
            &&& step(g1.human_pos, move_rev(m)) == g.human_pos
            &&& moved_grid(g1.level, g1.human_pos, move_rev(m)) == g.level.data
        }),
{
    let v = g.level;
    let hp = g.human_pos;
    let w = v.w as int;
    let h = v.h as int;
    let np = step(hp, m);
    let v1 = v.with_data(moved_grid(v, hp, m));
    lemma_move_keeps_wf(g, m);
    assert(step(np, move_rev(m)) == hp);
    assert(0 <= cell_index(w, hp) < w * h) by (nonlinear_arith)
        requires 0 <= hp.0 < w, 0 <= hp.1 < h;
    assert(in_bounds(w, h, np));
    assert(0 <= cell_index(w, np) < w * h) by (nonlinear_arith)
        requires 0 <= np.0 < w, 0 <= np.1 < h;
    assert(cell_index(w, np) != cell_index(w, hp)) by (nonlinear_arith)
        requires np != hp, 0 <= np.0 < w, 0 <= hp.0 < w, cell_index(w, np) == np.0 + np.1 * w,
            cell_index(w, hp) == hp.0 + hp.1 * w;
    assert(v1.obj_at_checked(hp) == v1.obj_at(hp));
    assert(is_free(v1.obj_at(hp)));
    assert(moved_grid(v1, np, move_rev(m)) =~= v.data);
}

/// The move a key stands for in the games: u, r, d, l (either case).
pub open spec fn key_char_move(c: char) -> Option<Move> {
    if c == 'u' || c == 'U' { Some(Move::Up) }
    else if c == 'r' || c == 'R' { Some(Move::Right) }
    else if c == 'd' || c == 'D' { Some(Move::Down) }
    else if c == 'l' || c == 'L' { Some(Move::Left) }
    else { None }
}

/// A typed key moves the human the way its letter names: u up, d down, r right, l left,
/// in either case; no other key moves it.
pub proof fn lemma_char_directions(c: char)
    ensures
        (c == 'u' || c == 'U') <==> (key_char_move(c) matches Some(m) && dx(m) == 0 && dy(m) == -1),
        (c == 'd' || c == 'D') <==> (key_char_move(c) matches Some(m) && dx(m) == 0 && dy(m) == 1),
        (c == 'r' || c == 'R') <==> (key_char_move(c) matches Some(m) && dx(m) == 1 && dy(m) == 0),
        (c == 'l' || c == 'L') <==> (key_char_move(c) matches Some(m) && dx(m) == -1 && dy(m) == 0),
{
}

/// A key that quits: q (either case) or Escape.
pub open spec fn is_quit_key(c: char) -> bool {
    c == 'q' || c == 'Q' || c == '\u{1b}'
}

/// The built-in level number `n`, or the last one past the end.
pub open spec fn clamped_level(n: int) -> int {
    if n < BUILTIN_LEVELS@.len() { n } else { last_level_number() }
}

/// `g` is a new game of built-in level `n`: the level read from its text, no move made or
/// waiting.
pub open spec fn fresh_builtin_game(g: GameView, n: int) -> bool {
    &&& 0 <= n < BUILTIN_LEVELS@.len()
    &&& text_end(BUILTIN_LEVELS@[n]@) == TextEnd::Built
    &&& g.wf()
    &&& g.level_number == n
    &&& g.level.is_built()
    &&& made_from(g.level, read_text(BUILTIN_LEVELS@[n]@))
    &&& g.human_pos == g.level.human_pos
    &&& g.num_moves == 0
    &&& g.move_history.len() == 0
    &&& g.move_queue.len() == 0
}

/// The game after starting built-in level `n` over `old`: a new game of it where its text
/// reads to a level (every built-in text does), `old` otherwise.
pub open spec fn restarted(g: GameView, old: GameView, n: int) -> bool {
    if 0 <= n < BUILTIN_LEVELS@.len() && text_end(BUILTIN_LEVELS@[n]@) == TextEnd::Built {
        fresh_builtin_game(g, n)
    } else {
        g == old
    }
}

impl Game {
    /// Starts built-in level `n` over this game, where its text reads to a level.
    fn restart(&mut self, n: u32)
        ensures
            restarted(final(self)@, old(self)@, n as int),
    {
        match Level::from_builtin(n as usize) {
            Ok(l) => {
                let g = Game::new_from_level(&l, n);
                proof {
                    let st = read_text(BUILTIN_LEVELS@[n as int]@);
                    assert(l@.w == st.w - 2 && st.w - 2 <= 127);
                    assert(l@.h == st.h - 2 && st.h - 2 <= 127);
                }
                *self = g;
            },
            Err(_) => {},
        }
    }
}

/// What a key does in the games: q, Q or Escape quit (nothing changes and `false` comes
/// back); ` starts the current level again; n and N go on to the next level while there is
/// one; p and P go back while above the first; u, r, d and l (either case) queue a move;
/// any other key does nothing. A level is started only where its text reads to a level.
pub fn handle_key(state: &mut Game, current_level: &mut u32, key: char) -> (keep_going: bool)
    ensures
        keep_going == !is_quit_key(key),
        is_quit_key(key) ==> final(state)@ == old(state)@ && *final(current_level) == *old(current_level),
        key == '`' ==> *final(current_level) == *old(current_level)
            && restarted(final(state)@, old(state)@, clamped_level(*old(current_level) as int)),
        (key == 'n' || key == 'N') ==> if *old(current_level) < last_level_number() {
            *final(current_level) == *old(current_level) + 1
                && restarted(final(state)@, old(state)@, *old(current_level) + 1)
        } else {
            *final(current_level) == *old(current_level) && final(state)@ == old(state)@
        },
        (key == 'p' || key == 'P') ==> if *old(current_level) > 0 {
            *final(current_level) == *old(current_level) - 1
                && restarted(final(state)@, old(state)@, clamped_level(*old(current_level) - 1))
        } else {
            *final(current_level) == *old(current_level) && final(state)@ == old(state)@
        },
        key_char_move(key) matches Some(m) ==> *final(current_level) == *old(current_level)
            && final(state)@ == (GameView { move_queue: seq![m] + old(state)@.move_queue, ..old(state)@ }),
        (key == 'u' || key == 'U') ==> final(state)@.move_queue.len() == old(state)@.move_queue.len() + 1
            && dx(final(state)@.move_queue[0]) == 0 && dy(final(state)@.move_queue[0]) == -1,
        (key == 'd' || key == 'D') ==> final(state)@.move_queue.len() == old(state)@.move_queue.len() + 1
            && dx(final(state)@.move_queue[0]) == 0 && dy(final(state)@.move_queue[0]) == 1,
        (key == 'r' || key == 'R') ==> final(state)@.move_queue.len() == old(state)@.move_queue.len() + 1
            && dx(final(state)@.move_queue[0]) == 1 && dy(final(state)@.move_queue[0]) == 0,
        (key == 'l' || key == 'L') ==> final(state)@.move_queue.len() == old(state)@.move_queue.len() + 1
            && dx(final(state)@.move_queue[0]) == -1 && dy(final(state)@.move_queue[0]) == 0,
        !is_quit_key(key) && key != '`' && key != 'n' && key != 'N' && key != 'p' && key != 'P'
            && key_char_move(key) is None ==> final(state)@ == old(state)@ && *final(current_level) == *old(current_level),
{
    if key == 'q' || key == 'Q' || key == '\u{1b}' {
        return false;
    }
    let last = (BUILTIN_LEVELS.len() - 1) as u32;
    if key == '`' {
        let n = if *current_level > last { last } else { *current_level };
        state.restart(n);
    } else if key == 'n' || key == 'N' {
        if *current_level < last {
            *current_level = *current_level + 1;
            state.restart(*current_level);
        }
    } else if key == 'p' || key == 'P' {
        if *current_level > 0 {
            *current_level = *current_level - 1;
            let n = if *current_level > last { last } else { *current_level };
            state.restart(n);
        }
    } else if key == 'u' || key == 'U' {
        state.append_move(&Move::Up);
    } else if key == 'r' || key == 'R' {
        state.append_move(&Move::Right);
    } else if key == 'd' || key == 'D' {
        state.append_move(&Move::Down);
    } else if key == 'l' || key == 'L' {
        state.append_move(&Move::Left);
    }
    true
}

/// Moves are made in the order they were queued: queuing a move leaves the oldest queued
/// move (the next one made) and the moves after it as they were, and a move queued on an
/// empty queue is the next one made.
pub proof fn lemma_moves_in_order(q: Seq<Move>, m: Move)
    ensures
        q.len() > 0 ==> (seq![m] + q).last() == q.last() && (seq![m] + q).drop_last() == seq![m] + q.drop_last(),
        q.len() == 0 ==> (seq![m] + q).last() == m && (seq![m] + q).drop_last() == q,
{
    if q.len() > 0 {
        assert((seq![m] + q).drop_last() =~= seq![m] + q.drop_last());
    } else {
        assert((seq![m] + q).drop_last() =~= q);
    }
}

/// Counting moves: a game whose count of moves is the number of moves made keeps it so
/// when a move is made.
pub proof fn lemma_move_counted(g: GameView, m: Move)
    requires
        g.num_moves == g.move_history.len(),
        g.num_moves < u32::MAX,
    ensures
        (g.num_moves + 1) as u32 == g.move_history.push(m).len(),
{
}

} // verus!
