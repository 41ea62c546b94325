use boxbopper::level::Level;
use boxbopper::obj::Obj;
use boxbopper::parse::{check_builtin, read_u16, BuiltinCheck};
use boxbopper::builtins::{BUILTIN_LEVELS, LEVEL_00};
use boxbopper::vector::Vector;

#[test]
fn builtin_zero_reads() {
    let level = Level::from_builtin(0).unwrap();
    assert_eq!(level.w, 8);
    assert_eq!(level.h, 1);
    assert_eq!(level.human_position(), Vector(0, 0));
    assert_eq!(level.get_title_str(), "easy-peasy-6");
    assert_eq!(level.get_keyval("moves"), "6");
    assert_eq!(level.get_keyval_or("nothing", "untitled"), "untitled");
    assert!(level.contains_key("path"));
    assert!(!level.contains_key("nothing"));
    assert_eq!(level.get_box_count(), 1);
    assert_eq!(level.get_obj_at_idx(0), Obj::Human);
    assert_eq!(level.get_obj_at_idx(4), Obj::Boxx);
    assert_eq!(level.get_obj_at_idx(7), Obj::Hole);
    assert!(!level.have_win_condition());
}

#[test]
fn builtin_zero_text() {
    let level = Level::from_str(LEVEL_00).unwrap();
    assert_eq!(level.to_string(), "##########\n#&   *  O#\n##########\n");
}

#[test]
fn builtin_past_the_last_is_refused() {
    assert!(matches!(Level::from_builtin(BUILTIN_LEVELS.len()), Err("Level number too high")));
}

#[test]
fn every_builtin_reads() {
    for i in 0..BUILTIN_LEVELS.len() {
        assert!(Level::from_builtin(i).is_ok(), "level {}", i);
    }
}

#[test]
fn builtin_numbers_match() {
    let mut no_num = Vec::new();
    for i in 0..BUILTIN_LEVELS.len() {
        match check_builtin(i) {
            BuiltinCheck::Fine => {},
            BuiltinCheck::NoNum => no_num.push(i),
            _ => panic!("level {} has a bad number", i),
        }
    }
    assert_eq!(no_num, vec![78]);
    assert!(matches!(check_builtin(79), BuiltinCheck::Invalid("Level number too high")));
}

#[test]
fn reading_numbers() {
    assert_eq!(read_u16("123"), Some(123));
    assert_eq!(read_u16("+7"), Some(7));
    assert_eq!(read_u16("0"), Some(0));
    assert_eq!(read_u16("65535"), Some(65535));
    assert_eq!(read_u16("65536"), None);
    assert_eq!(read_u16("99999999999999999999"), None);
    assert_eq!(read_u16(""), None);
    assert_eq!(read_u16("+"), None);
    assert_eq!(read_u16("-1"), None);
    assert_eq!(read_u16("1a"), None);
    assert_eq!(read_u16(" 1"), None);
}

#[test]
fn from_str_two_humans() {
    assert!(matches!(Level::from_str("#####\n#&*O#\n#&  #\n#####\n"), Err("More than one human found!")));
}

#[test]
fn from_str_no_human() {
    assert!(matches!(Level::from_str("#####\n#* O#\n#####\n"), Err("Human not found in level!")));
}

#[test]
fn from_str_unbalanced() {
    assert!(matches!(Level::from_str("####\n#&*#\n####\n"), Err("Num boxes is not equal to num holes!")));
}

#[test]
fn from_str_no_box() {
    assert!(matches!(Level::from_str("###\n#&#\n###\n"), Err("Must be at least one box!")));
}

#[test]
fn from_str_empty_inside() {
    assert!(matches!(Level::from_str("###\n#&#\n"), Err("Width and Height must be at least 1!")));
}

#[test]
fn from_str_too_big() {
    let mut s = String::new();
    for y in 0..22 {
        for x in 0..22 {
            let c = if y == 0 || y == 21 || x == 0 || x == 21 { '#' } else if x == 1 && y == 1 { '&' } else if x == 2 && y == 1 { '*' } else if x == 3 && y == 1 { 'O' } else { ' ' };
            s.push(c);
        }
        s.push('\n');
    }
    assert!(matches!(Level::from_str(&s), Err("Level too big! Maximum width 127. Maximum height 127. Maximum width * height 256.")));
}

#[test]
fn from_str_too_many_boxes() {
    let mut inner = String::from("&");
    for _ in 0..25 { inner.push('*'); }
    for _ in 0..25 { inner.push('O'); }
    let border: String = std::iter::repeat('#').take(inner.len() + 2).collect();
    let s = format!("{}\n#{}#\n{}\n", border, inner, border);
    assert!(matches!(Level::from_str(&s), Err("Too many boxes! (Maximum 24)")));
}

#[test]
fn from_str_settings_are_trimmed() {
    let level = Level::from_str("#####\n#&*O#\n#####\ntitle:   spaced out  \nx:1\n").unwrap();
    assert_eq!(level.get_title_str(), "spaced out");
    assert_eq!(level.get_keyval("x"), "1");
}

#[test]
fn set_keyval_replaces() {
    let mut level = Level::from_builtin(0).unwrap();
    level.set_keyval("title", "renamed");
    assert_eq!(level.get_title_str(), "renamed");
    level.set_keyval("extra", "yes");
    assert_eq!(level.get_keyval("extra"), "yes");
}

#[test]
fn level_data_codes() {
    let level = Level::from_builtin(0).unwrap();
    assert_eq!(level.get_data(), vec![4, 1, 1, 1, 2, 1, 1, 3]);
}

#[test]
fn obj_chars_round_trip() {
    for c in ['#', ' ', '*', 'O', '&', '%', '@'] {
        assert_eq!(Obj::from_char(&c).to_char(), c);
    }
    assert_eq!(Obj::Wall.to_u32(), 0);
    assert_eq!(Obj::BoxxInHole.to_u32(), 6);
}

#[test]
fn every_builtin_text_reads_back() {
    for i in 0..BUILTIN_LEVELS.len() {
        let level = Level::from_builtin(i).unwrap();
        let again = Level::from_str(&level.to_string()).unwrap();
        assert_eq!(again.w, level.w, "level {}", i);
        assert_eq!(again.h, level.h, "level {}", i);
        assert_eq!(again.human_position(), level.human_position(), "level {}", i);
        assert!(again.eq_data(&level), "level {}", i);
        assert_eq!(again.to_string(), level.to_string(), "level {}", i);
    }
}

#[test]
fn a_text_with_an_open_border_reads_back() {
    let l = Level::from_str("      \n #&*O \n      \n").unwrap();
    assert_eq!(l.w, 4);
    assert_eq!(l.h, 1);
    let text = l.to_string();
    assert_eq!(text, "######\n##&*O#\n######\n");
    let l2 = Level::from_str(&text).unwrap();
    assert!(l2.eq_data(&l));
    assert_eq!(l2.w, l.w);
    assert_eq!(l2.h, l.h);
}
