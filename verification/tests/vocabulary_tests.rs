use tile_games::line::is_tile_value;
use tile_games::moves::MoveSet;
use tile_games::utils::{decimal_string, format_middle, Color};
use tile_games::Move;

const ALL: [Move; 5] = [Move::LEFT, Move::RIGHT, Move::UP, Move::DOWN, Move::NONE];

#[test]
fn moves_have_their_codes() {
    assert_eq!(Move::LEFT.to_uint(), 1);
    assert_eq!(Move::RIGHT.to_uint(), 2);
    assert_eq!(Move::UP.to_uint(), 3);
    assert_eq!(Move::DOWN.to_uint(), 4);
    assert_eq!(Move::NONE.to_uint(), 0);
}

#[test]
fn codes_give_their_moves() {
    assert_eq!(Move::from_uint(1), Move::LEFT);
    assert_eq!(Move::from_uint(2), Move::RIGHT);
    assert_eq!(Move::from_uint(3), Move::UP);
    assert_eq!(Move::from_uint(4), Move::DOWN);
    assert_eq!(Move::from_uint(0), Move::NONE);
}

#[test]
fn every_other_code_is_none() {
    assert_eq!(Move::from_uint(5), Move::NONE);
    assert_eq!(Move::from_uint(77), Move::NONE);
    assert_eq!(Move::from_uint(usize::MAX), Move::NONE);
}

#[test]
fn code_of_a_move_gives_the_move_back() {
    for m in ALL {
        assert_eq!(Move::from_uint(m.to_uint()), m);
    }
}

#[test]
fn move_set_starts_empty() {
    let set = MoveSet::new();
    for m in ALL {
        assert!(!set.contains(&m));
    }
}

#[test]
fn move_set_inserts_and_removes() {
    let mut set = MoveSet::new();
    assert!(set.insert(Move::LEFT));
    assert!(!set.insert(Move::LEFT));
    assert!(set.insert(Move::DOWN));
    assert!(set.contains(&Move::LEFT));
    assert!(set.contains(&Move::DOWN));
    assert!(!set.contains(&Move::UP));
    assert!(!set.contains(&Move::NONE));

    assert!(set.remove(&Move::LEFT));
    assert!(!set.remove(&Move::LEFT));
    assert!(!set.remove(&Move::UP));
    assert!(!set.contains(&Move::LEFT));
    assert!(set.contains(&Move::DOWN));
}

#[test]
fn move_set_can_hold_none() {
    let mut set = MoveSet::new();
    assert!(set.insert(Move::NONE));
    assert!(set.contains(&Move::NONE));
    assert!(!set.contains(&Move::LEFT));
}

#[test]
fn colors_have_their_names() {
    assert_eq!(Color::GREEN.name(), "GREEN");
    assert_eq!(Color::YELLOW.name(), "YELLOW");
    assert_eq!(Color::WHITE.name(), "WHITE");
    assert_eq!(Color::CYAN.name(), "CYAN");
    assert_eq!(Color::MAGENTA.name(), "MAGENTA");
    assert_eq!(Color::BLUE.name(), "BLUE");
    assert_eq!(Color::RED.name(), "RED");
}

#[test]
fn colors_have_their_codes() {
    let codes: Vec<i16> = [
        Color::GREEN,
        Color::YELLOW,
        Color::WHITE,
        Color::CYAN,
        Color::MAGENTA,
        Color::BLUE,
        Color::RED,
    ]
    .iter()
    .map(|c| c.code())
    .collect();
    assert_eq!(codes, vec![1, 2, 3, 4, 5, 6, 7]);
}

#[test]
fn colors_are_equal_when_their_names_are() {
    assert_eq!(Color::RED, Color::RED);
    assert_ne!(Color::RED, Color::BLUE);
    assert_eq!(Color::RED.name() == Color::BLUE.name(), Color::RED == Color::BLUE);
}

#[test]
fn format_middle_puts_the_odd_blank_in_front() {
    assert_eq!(format_middle("ab".to_string(), 5), "  ab ");
    assert_eq!(format_middle("ab".to_string(), 4), " ab ");
    assert_eq!(format_middle("a".to_string(), 2), " a");
    assert_eq!(format_middle("".to_string(), 3), "   ");
}

#[test]
fn format_middle_leaves_a_wide_text() {
    assert_eq!(format_middle("abc".to_string(), 3), "abc");
    assert_eq!(format_middle("abcdef".to_string(), 3), "abcdef");
    assert_eq!(format_middle("x".to_string(), 0), "x");
}

#[test]
fn format_middle_counts_bytes() {
    // "é" is one character of two bytes.
    assert_eq!(format_middle("é".to_string(), 4), " é ");
    assert_eq!(format_middle("é".to_string(), 2), "é");
}

#[test]
fn decimal_string_writes_digits() {
    assert_eq!(decimal_string(0), "0");
    assert_eq!(decimal_string(7), "7");
    assert_eq!(decimal_string(10), "10");
    assert_eq!(decimal_string(1023), "1023");
    assert_eq!(decimal_string(4_294_967_295), "4294967295");
    for n in [9u32, 99, 100, 12_345, 1 << 20] {
        assert_eq!(decimal_string(n), n.to_string());
    }
}

#[test]
fn tiles_are_the_powers_of_two_from_two() {
    assert!(!is_tile_value(0));
    assert!(!is_tile_value(1));
    assert!(is_tile_value(2));
    assert!(!is_tile_value(3));
    assert!(is_tile_value(4));
    assert!(!is_tile_value(6));
    assert!(is_tile_value(1 << 30));
    assert!(is_tile_value(1 << 31));
    assert!(!is_tile_value((1 << 31) + 1));
    assert!(!is_tile_value(u32::MAX));
    for k in 1..32 {
        assert!(is_tile_value(1 << k));
        if k > 1 {
            assert!(!is_tile_value((1 << k) - 1));
        }
    }
}
