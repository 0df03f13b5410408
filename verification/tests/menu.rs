use yacht::menu::{die_rows, locked_die_face, DiceSelection, Key, ScoreMenu};

#[test]
fn right_starts_at_first_die_and_skips_picked_ones() {
    let mut menu = DiceSelection::new();
    assert!(!menu.press(Key::Right, 5));
    assert_eq!(menu.cursor, Some(0));
    assert!(!menu.press(Key::Char(' '), 5));
    assert_eq!(menu.chosen, vec![0]);
    assert!(!menu.press(Key::Right, 5));
    assert_eq!(menu.cursor, Some(1));
    menu.press(Key::Char(' '), 5);
    menu.press(Key::Right, 5);
    menu.press(Key::Right, 5);
    menu.press(Key::Right, 5);
    assert_eq!(menu.cursor, Some(4));
    menu.press(Key::Right, 5);
    assert_eq!(menu.cursor, Some(2));
}

#[test]
fn left_wraps_and_skips_picked_ones() {
    let mut menu = DiceSelection::new();
    menu.press(Key::Left, 5);
    assert_eq!(menu.cursor, Some(4));
    menu.press(Key::Char(' '), 5);
    menu.press(Key::Left, 5);
    assert_eq!(menu.cursor, Some(3));
    menu.chosen.push(2);
    menu.chosen.push(1);
    menu.press(Key::Left, 5);
    assert_eq!(menu.cursor, Some(0));
    menu.press(Key::Left, 5);
    assert_eq!(menu.cursor, Some(4));
}

#[test]
fn left_from_the_first_die_goes_to_the_last_even_if_picked() {
    let mut menu = DiceSelection::new();
    menu.press(Key::Left, 3);
    menu.press(Key::Char(' '), 3);
    menu.press(Key::Right, 3);
    assert_eq!(menu.cursor, Some(0));
    menu.press(Key::Left, 3);
    assert_eq!(menu.cursor, Some(2));
}

#[test]
fn space_picks_once_and_u_undoes() {
    let mut menu = DiceSelection::new();
    menu.press(Key::Char(' '), 5);
    assert!(menu.chosen.is_empty());
    menu.press(Key::Right, 5);
    menu.press(Key::Char(' '), 5);
    menu.press(Key::Char(' '), 5);
    assert_eq!(menu.chosen, vec![0]);
    menu.press(Key::Right, 5);
    menu.press(Key::Char(' '), 5);
    assert_eq!(menu.chosen, vec![0, 1]);
    menu.press(Key::Char('u'), 5);
    assert_eq!(menu.chosen, vec![0]);
    menu.press(Key::Char('u'), 5);
    menu.press(Key::Char('u'), 5);
    assert!(menu.chosen.is_empty());
}

#[test]
fn enter_completes_and_other_keys_do_nothing() {
    let mut menu = DiceSelection::new();
    assert!(!menu.press(Key::Other, 5));
    assert!(!menu.press(Key::Up, 5));
    assert!(!menu.press(Key::Char('x'), 5));
    assert_eq!(menu.cursor, None);
    assert!(menu.chosen.is_empty());
    assert!(menu.press(Key::Char('\n'), 5));
}

#[test]
fn score_menu_wraps_both_ways() {
    let mut menu = ScoreMenu::new();
    assert_eq!(menu.row, 0);
    assert!(!menu.press(Key::Up, 4));
    assert_eq!(menu.row, 3);
    assert!(!menu.press(Key::Down, 4));
    assert_eq!(menu.row, 0);
    menu.press(Key::Down, 4);
    menu.press(Key::Down, 4);
    assert_eq!(menu.row, 2);
    menu.press(Key::Up, 4);
    assert_eq!(menu.row, 1);
    assert!(!menu.press(Key::Left, 4));
    assert_eq!(menu.row, 1);
    assert!(menu.press(Key::Char(' '), 4));
    assert!(menu.press(Key::Char('\n'), 4));
}

#[test]
fn die_faces() {
    assert_eq!(die_rows(1), ("     ", "  o  ", "     "));
    assert_eq!(die_rows(2), ("o    ", "     ", "    o"));
    assert_eq!(die_rows(3), ("o    ", "  o  ", "    o"));
    assert_eq!(die_rows(4), ("o   o", "     ", "o   o"));
    assert_eq!(die_rows(5), ("o   o", "  o  ", "o   o"));
    assert_eq!(die_rows(6), ("o   o", "o   o", "o   o"));
    assert_eq!(locked_die_face(1), " · ");
    assert_eq!(locked_die_face(4), ": :");
    assert_eq!(locked_die_face(6), ":::");
    assert_eq!(locked_die_face(7), "");
}
