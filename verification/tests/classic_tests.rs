use boxbopper::backup::{char_to_obj, level_from_lines, moves_to_string, new_game, _apply_moves, _undo_move,
    Direction, LevelRead, Move, Moves, Object, Point, State};

fn lines(text: &[&str]) -> Vec<String> {
    text.iter().map(|s| s.to_string()).collect()
}

fn read(text: &[&str]) -> State {
    match level_from_lines(&lines(text)) {
        LevelRead::Read(l) => new_game(&l),
        _ => panic!("level did not read"),
    }
}

#[test]
fn classic_chars() {
    assert_eq!(char_to_obj(&'*'), Ok(Object::Boulder));
    assert_eq!(char_to_obj(&'@'), Ok(Object::BoulderInHole));
    assert_eq!(char_to_obj(&'x'), Err("Char does not represent a valid object".to_string()));
    for c in ['#', ' ', '*', 'O', '&', '%', '@'] {
        assert_eq!(char_to_obj(&c).unwrap().to_char(), c);
    }
}

#[test]
fn classic_points() {
    assert_eq!(Point(3, 4).apply_dir(&Move::West.to_dir()), Point(2, 4));
    assert_eq!(Point(3, 4).apply_dir(&Move::North.to_dir().double()), Point(3, 2));
    assert_eq!(Point(0, 4).apply_dir(&Direction(-1, 0)), Point(usize::MAX, 4));
    assert_eq!(Point(3, 4).to_index(&10), 43);
    assert_eq!(moves_to_string(&vec![Move::North, Move::East, Move::South, Move::West]), "nesw");
    assert_eq!(Moves(vec![Move::South, Move::South]).to_string(), "ss");
}

#[test]
fn classic_level_reads() {
    let s = read(&["#####", "#&*O#", "#####", "", "rest"]);
    assert_eq!(s.level.w, 5);
    assert_eq!(s.level.h, 3);
    assert_eq!(s.human_pos, Point(1, 1));
    assert_eq!(s.level.data.len(), 15);
    assert_eq!(s.level.data[6], Object::Human);
    assert_eq!(s.level.data[7], Object::Boulder);
}

#[test]
fn classic_level_refusals() {
    assert!(matches!(level_from_lines(&lines(&["#####", "#&x #", "#####"])), LevelRead::BadChar(m) if m == "Char does not represent a valid object"));
    assert!(matches!(level_from_lines(&lines(&["#####", "# *O#", "#####"])), LevelRead::NoHuman { w: 5, h: 3 }));
    assert!(matches!(level_from_lines(&lines(&["##", "#&"])), LevelRead::TooSmall { w: 2, h: 2, human_pos: Point(1, 1) }));
    assert!(matches!(level_from_lines(&lines(&[])), LevelRead::NoHuman { w: 0, h: 0 }));
}

#[test]
fn classic_push_into_hole_wins() {
    let mut s = read(&["#####", "#&*O#", "#####"]);
    assert!(!s.have_win_condition());
    assert_eq!(s.get_move_options(), vec![Move::East]);
    s.apply_move(&Move::West);
    assert_eq!(s.num_moves, 0);
    s.apply_move(&Move::East);
    assert_eq!(s.num_moves, 1);
    assert_eq!(s.human_pos, Point(2, 1));
    assert_eq!(s.level.data[7], Object::Human);
    assert_eq!(s.level.data[8], Object::BoulderInHole);
    assert!(s.have_win_condition());
    assert_eq!(s.get_object_at_point(&Point(9, 9)), Object::Wall);
}

#[test]
fn classic_display() {
    let mut s = read(&["#####", "#&*O#", "#####"]);
    s.apply_move(&Move::East);
    let dashes: String = std::iter::repeat('-').take(80).collect();
    assert_eq!(s.display(), format!("{}\n1 moves: e\n\n#####\n# &@#\n#####\n\n", dashes));
}

#[test]
fn classic_undo_and_apply_moves() {
    let base = match level_from_lines(&lines(&["#####", "#&*O#", "#####"])) {
        LevelRead::Read(l) => l,
        _ => panic!("level did not read"),
    };
    let mut s = new_game(&base);
    s.apply_move(&Move::East);
    assert_eq!(_apply_moves(&mut s, &vec![Move::East]), Err("Not implemented".to_string()));
    _undo_move(base.clone(), &mut s);
    assert_eq!(s.num_moves, 0);
    assert_eq!(s.move_history.len(), 0);
    assert_eq!(s.level.data[7], Object::Boulder);
}
