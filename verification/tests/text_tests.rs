use boxbopper::textview::{level_str_to_emoji_str, level_str_to_vecs, Tint};

#[test]
fn objects_become_emoji() {
    let s = String::from("#*O&%@ \n");
    assert_eq!(level_str_to_emoji_str(&s), "░░❎🔳😀🤔✅  \n");
    let odd = String::from("ab\u{e9}");
    assert_eq!(level_str_to_emoji_str(&odd), odd);
}

#[test]
fn rows_of_pieces() {
    let rows = level_str_to_vecs(&String::from("#&\n O"), false);
    assert_eq!(rows.len(), 2);
    assert_eq!(rows[0].len(), 2);
    assert_eq!(rows[0][0].text, "#");
    assert_eq!(rows[0][0].tint, Tint::Red);
    assert_eq!(rows[0][1].text, "&");
    assert_eq!(rows[0][1].tint, Tint::LightYellow);
    assert_eq!(rows[1][0].text, " ");
    assert_eq!(rows[1][0].tint, Tint::Plain);
    assert_eq!(rows[1][1].text, "O");
}

#[test]
fn emoji_pieces() {
    let rows = level_str_to_vecs(&String::from("*@\n"), true);
    assert_eq!(rows.len(), 2);
    assert_eq!(rows[0][0].text, "❎");
    assert_eq!(rows[0][0].tint, Tint::Green);
    assert_eq!(rows[0][1].text, "✅");
    assert_eq!(rows[0][1].tint, Tint::LightGreen);
    assert_eq!(rows[1].len(), 0);
}
