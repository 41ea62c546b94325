use boxbopper::game::Game;
use boxbopper::generate::{add_drawn_box, grid_from_draws, name_from_draws, random_level_creator};
use boxbopper::level::Level;
use boxbopper::obj::Obj;
use boxbopper::solve::solve_level;
use boxbopper::vector::{Move, Vector};
use rand::SeedableRng;
use rand_chacha::ChaCha8Rng;

fn counts(l: &Level) -> (usize, usize, usize) {
    let mut walls = 0;
    let mut boxes = 0;
    let mut holes = 0;
    for i in 0..(l.w as usize * l.h as usize) {
        match l.get_obj_at_idx(i) {
            Obj::Wall => walls += 1,
            Obj::Boxx => boxes += 1,
            Obj::BoxxInHole => {
                boxes += 1;
                holes += 1
            }
            Obj::Hole | Obj::HumanInHole => holes += 1,
            _ => {}
        }
    }
    (walls, boxes, holes)
}

fn char_move(c: char) -> Move {
    match c {
        'U' => Move::Up,
        'R' => Move::Right,
        'D' => Move::Down,
        _ => Move::Left,
    }
}

/// Plays `path` in a game of `level`: every move must be offered, and the game must be won.
/// Returns the number of moves that pushed a box.
fn replay_pushes(level: &Level, path: &str) -> u16 {
    let mut g = Game::new_from_level(level, 0);
    let mut pushes = 0;
    for c in path.chars() {
        let m = char_move(c);
        assert!(g.get_move_options().contains(&m));
        g.append_move(&m);
        let made = g.process_moves(false).unwrap();
        if made.pushed_boxx {
            pushes += 1;
        }
    }
    assert!(g.have_win_condition());
    assert_eq!(g.num_moves as usize, path.len());
    pushes
}

#[test]
fn name_letters_follow_the_draws() {
    assert_eq!(name_from_draws(&vec![0, 0, 17, 4, 1, 1, 2, 2, 3, 3]), "bazudefigo");
    assert_eq!(name_from_draws(&vec![16, 4, 16, 4, 16, 4, 16, 4, 16, 4]), "yuyuyuyuyu");
}

#[test]
fn walls_follow_the_draws() {
    assert_eq!(grid_from_draws(3, 1, 1, 0, 50, &vec![10, 90]), vec![Obj::Wall, Obj::Human, Obj::Space]);
    assert_eq!(grid_from_draws(3, 1, 1, 0, 50, &vec![50, 51]), vec![Obj::Wall, Obj::Human, Obj::Space]);
    assert_eq!(grid_from_draws(2, 2, 0, 1, 0, &vec![0, 1, 0]), vec![Obj::Wall, Obj::Space, Obj::Human, Obj::Wall]);
}

#[test]
fn a_drawn_box_goes_only_where_it_fits() {
    let mut level = Level::from_parts("t".to_string(), 4, 1, Vector(0, 0), vec![Obj::Human, Obj::Space, Obj::Space, Obj::Space]);
    assert!(add_drawn_box(&mut level, 2, 0));
    assert_eq!(level.get_obj_at_pt(&Vector(2, 0)), Obj::BoxxInHole);
    assert!(!add_drawn_box(&mut level, 2, 0));
    assert!(!add_drawn_box(&mut level, 0, 0));
    // beside a wall, with no two free cells on any side, no box fits
    let mut walled = Level::from_parts("t".to_string(), 4, 1, Vector(0, 0), vec![Obj::Human, Obj::Space, Obj::Wall, Obj::Space]);
    assert!(!add_drawn_box(&mut walled, 1, 0));
    assert!(!add_drawn_box(&mut walled, 3, 0));
    assert_eq!(walled.get_obj_at_pt(&Vector(1, 0)), Obj::Space);
    assert_eq!(walled.get_box_count(), 0);
    assert_eq!(level.get_box_count(), 1);
}

#[test]
fn full_wall_density_walls_every_other_cell() {
    for seed in 0..4u64 {
        let mut rng = ChaCha8Rng::seed_from_u64(seed);
        let (level, params) = random_level_creator(4, 4, 99, 20, &mut rng);
        let (walls, boxes, _) = counts(&level);
        assert_eq!(walls, 15);
        assert_eq!(boxes, 0);
        assert!(params.ends_with("num_boxxes: 0\n"));
    }
}

#[test]
fn zero_wall_density_walls_almost_nothing() {
    let mut rng = ChaCha8Rng::seed_from_u64(9);
    let (level, _) = random_level_creator(5, 4, 0, 0, &mut rng);
    let (walls, boxes, _) = counts(&level);
    // a draw of 0 still makes a wall; at least three boxes are wanted, whatever the density
    assert!(walls <= 19);
    assert!(boxes <= 3);
}

#[test]
fn solutions_replay_in_a_game() {
    let first = Level::from_builtin(0).unwrap();
    let sol = solve_level(&first, 200, 100000).unwrap();
    assert_eq!(replay_pushes(&first, &sol.path), sol.depth);

    let walk = Level::from_str("#######\n#&  *O#\n#     #\n#######\n").unwrap();
    let sol = solve_level(&walk, 60, 4000000).unwrap();
    assert_eq!(sol.path, "RRR");
    assert_eq!(sol.depth, 1);
    assert_eq!(replay_pushes(&walk, &sol.path), 1);

    let around = Level::from_str("#######\n#  *O #\n#&    #\n#######\n").unwrap();
    let sol = solve_level(&around, 60, 4000000).unwrap();
    assert_eq!(replay_pushes(&around, &sol.path), sol.depth);
    assert_eq!(sol.depth, 1);
}

#[test]
fn game_moves_keep_walls_boxes_and_holes() {
    let level = Level::from_str("#######\n#  *O #\n#&* O #\n#######\n").unwrap();
    let before = counts(&level);
    let mut g = Game::new_from_level(&level, 0);
    for m in [Move::Up, Move::Right, Move::Right, Move::Down, Move::Left, Move::Right, Move::Right, Move::Up] {
        let n = g.num_moves;
        g.append_move(&m);
        g.process_moves(false);
        assert!(g.num_moves - n <= 1);
        assert_eq!(counts(g.get_level()), before);
    }
}

#[test]
fn a_game_of_a_level_number_that_reads_is_never_empty() {
    let g = Game::new(0);
    assert_eq!(g.get_level_width(), 8);
    let h = g.human_pos;
    assert_eq!(g.get_object_at_point(&h), Obj::Human);
}

#[test]
fn a_spare_hole_wins_the_game_but_not_the_search() {
    // one box and two holes: the game counts the human standing in the spare hole as a win,
    // while the search wants every hole under a box
    let level = Level::from_parts(
        "t".to_string(), 4, 1, Vector(0, 0), vec![Obj::Human, Obj::Boxx, Obj::Hole, Obj::Hole]);
    let mut g = Game::new_from_level(&level, 0);
    g.append_move(&Move::Right);
    g.process_moves(false);
    g.append_move(&Move::Right);
    g.process_moves(false);
    assert!(g.have_win_condition());
    assert!(solve_level(&level, 10, 100000).is_none());
}
