use boxbopper::tool::{best_variation, speed_test_lines, SpeedLine};

#[test]
fn best_variation_prefers_deeper_and_longer() {
    assert_eq!(best_variation(&vec![]), None);
    assert_eq!(best_variation(&vec![None, None]), None);
    assert_eq!(best_variation(&vec![Some((3, 10)), Some((4, 12)), Some((5, 9))]), Some(1));
    assert_eq!(best_variation(&vec![None, Some((2, 5)), Some((2, 5))]), Some(2));
    assert_eq!(best_variation(&vec![Some((2, 5)), None, Some((1, 9))]), Some(0));
}

#[test]
fn speed_test_rows() {
    let text = "# boxboppertool speed_test\n# num(u16), title(str)\n0, easy-peasy-6, 3, 6, RRRRRR, 0.001\r\n  1, basics, 19, 34, RRDD, 0.7  \nx\nonly, three, cols\n\n2, t, nine, 4, U, 1.0\n3, t, 4, 5, U, 2.5, extra";
    let rows = speed_test_lines(text);
    assert_eq!(rows.len(), 9);
    assert!(matches!(rows[0], SpeedLine::Skip));
    assert!(matches!(rows[1], SpeedLine::Skip));
    match &rows[2] {
        SpeedLine::Row(r) => {
            assert_eq!(r.num, 0);
            assert_eq!(r.title, "easy-peasy-6");
            assert_eq!(r.depth, 3);
            assert_eq!(r.moves, 6);
            assert_eq!(r.path, "RRRRRR");
            assert_eq!(r.time, "0.001");
        }
        _ => panic!("row expected"),
    }
    match &rows[3] {
        SpeedLine::Row(r) => {
            assert_eq!(r.num, 1);
            assert_eq!(r.time, "0.7");
        }
        _ => panic!("row expected"),
    }
    assert!(matches!(rows[4], SpeedLine::Skip));
    assert!(matches!(rows[5], SpeedLine::ShortRow));
    assert!(matches!(rows[6], SpeedLine::Skip));
    assert!(matches!(rows[7], SpeedLine::BadNumber(3)));
    match &rows[8] {
        SpeedLine::Row(r) => {
            assert_eq!(r.num, 3);
            assert_eq!(r.time, "2.5");
        }
        _ => panic!("row expected"),
    }
}
