use boxbopper::game::{handle_key, Game, MoveMade};
use boxbopper::obj::Obj;
use boxbopper::vector::{Move, Vector};

#[test]
fn first_level_options() {
    let g = Game::new(0);
    assert_eq!(g.get_move_options(), vec![Move::Right]);
    assert_eq!(g.get_move_options_js(), vec![1]);
    assert_eq!(g.get_level_width(), 8);
    assert_eq!(g.get_level_height(), 1);
    assert_eq!(g.get_level_title(), "easy-peasy-6");
    assert_eq!(g.get_object_at_point(&Vector(-1, 0)), Obj::Wall);
    assert_eq!(g.get_object_at_point(&Vector(4, 0)), Obj::Boxx);
    assert_eq!(g.get_object_at_point(&Vector(8, 0)), Obj::Wall);
}

#[test]
fn level_number_past_the_last_is_the_last() {
    let g = Game::new(100000);
    assert_eq!(g.level_number, 78);
    assert_eq!(g.get_max_level_number(), 78);
}

#[test]
fn six_rights_win_the_first_level() {
    let mut g = Game::new(0);
    let mut made = Vec::new();
    for _ in 0..6 {
        g.append_move(&Move::Right);
        made.push(g.process_moves(false));
    }
    assert!(g.have_win_condition());
    assert_eq!(g.num_moves, 6);
    assert_eq!(g.history_text(), "RRRRRR");
    assert_eq!(g.get_move_history(), vec![1, 1, 1, 1, 1, 1]);
    assert_eq!(made[0], Some(MoveMade { from: Vector(0, 0), to: Vector(1, 0), pushed_boxx: false }));
    assert_eq!(made[3], Some(MoveMade { from: Vector(3, 0), to: Vector(4, 0), pushed_boxx: true }));
    assert_eq!(g.human_pos, Vector(6, 0));
    assert_eq!(g.get_level_data(), vec![1, 1, 1, 1, 1, 1, 4, 6]);
}

#[test]
fn a_blocked_move_is_dropped() {
    let mut g = Game::new(0);
    g.append_move(&Move::Left);
    assert_eq!(g.process_moves(false), None);
    assert_eq!(g.num_moves, 0);
    assert_eq!(g.human_pos, Vector(0, 0));
    assert_eq!(g.process_moves(false), None);
}

#[test]
fn no_move_while_animating() {
    let mut g = Game::new(0);
    g.append_move(&Move::Right);
    assert_eq!(g.process_moves(true), None);
    assert_eq!(g.num_moves, 0);
    assert!(g.process_moves(false).is_some());
    assert_eq!(g.num_moves, 1);
}

#[test]
fn queued_moves_are_made_oldest_first() {
    let mut g = Game::new(0);
    g.append_move(&Move::Right);
    g.append_move(&Move::Left);
    g.process_moves(false);
    g.process_moves(false);
    assert_eq!(g.history_text(), "RL");
    assert_eq!(g.human_pos, Vector(0, 0));
}

#[test]
fn keys_queue_moves() {
    let mut g = Game::new(0);
    g.process_keys(&vec![68]);
    g.process_keys(&vec![68, 39]);
    g.process_keys(&vec![1]);
    g.process_moves(false);
    g.process_moves(false);
    assert_eq!(g.history_text(), "R");
    g.append_move_js(1);
    g.append_move_js(9);
    g.process_moves(false);
    assert_eq!(g.history_text(), "RR");
}

#[test]
fn game_display_text() {
    let mut g = Game::new(0);
    g.append_move(&Move::Right);
    g.process_moves(false);
    let dashes: String = std::iter::repeat('-').take(80).collect();
    let expected = format!("{}\n1 moves: R\n\n##########\n# &  *  O#\n##########\n\n\n", dashes);
    assert_eq!(g.display(), expected);
}

#[test]
fn a_step_back_undoes_a_walk() {
    let mut g = Game::new(0);
    let data_before = g.get_level_data();
    g.append_move(&Move::Right);
    assert!(g.process_moves(false).is_some());
    assert_eq!(g.human_pos, Vector(1, 0));
    assert!(g.get_move_options().contains(&Move::Left));
    g.append_move(&Move::Left);
    assert_eq!(g.process_moves(false), Some(MoveMade { from: Vector(1, 0), to: Vector(0, 0), pushed_boxx: false }));
    assert_eq!(g.human_pos, Vector(0, 0));
    assert_eq!(g.get_level_data(), data_before);
    assert_eq!(g.num_moves, 2);
}

#[test]
fn keys_drive_the_game() {
    let mut g = Game::new(0);
    let mut level: u32 = 0;
    assert!(handle_key(&mut g, &mut level, 'r'));
    assert!(g.is_queued_moves());
    assert!(handle_key(&mut g, &mut level, 'p'));
    assert_eq!(level, 0);
    assert!(handle_key(&mut g, &mut level, 'N'));
    assert_eq!(level, 1);
    assert_eq!(g.level_number, 1);
    assert!(!g.is_queued_moves());
    let mut last: u32 = 78;
    let mut g2 = Game::new(78);
    assert!(handle_key(&mut g2, &mut last, 'n'));
    assert_eq!(last, 78);
    assert!(handle_key(&mut g2, &mut last, '`'));
    assert_eq!(g2.level_number, 78);
    assert!(!handle_key(&mut g2, &mut last, 'q'));
    assert!(!handle_key(&mut g2, &mut last, '\u{1b}'));
    assert!(handle_key(&mut g2, &mut last, 'x'));
}
