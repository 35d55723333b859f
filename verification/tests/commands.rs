use ferrum::game::commands::{parse_gamemode, ring_points, str_eq, LOCATE_RINGS};

#[test]
fn game_mode_names() {
    assert_eq!(parse_gamemode("0"), Some(0));
    assert_eq!(parse_gamemode("survival"), Some(0));
    assert_eq!(parse_gamemode("creative"), Some(1));
    assert_eq!(parse_gamemode("2"), Some(2));
    assert_eq!(parse_gamemode("spectator"), Some(3));
    assert_eq!(parse_gamemode("Creative"), None);
    assert_eq!(parse_gamemode("4"), None);
    assert_eq!(parse_gamemode(""), None);
}

#[test]
fn string_equality() {
    assert!(str_eq("abc", "abc"));
    assert!(!str_eq("abc", "abd"));
    assert!(!str_eq("ab", "abc"));
    assert!(str_eq("", ""));
}

#[test]
fn locate_rings() {
    let r = ring_points(0, 0, 1);
    assert_eq!(r, vec![(-16, -16), (-16, 16), (0, -16), (0, 16), (16, -16), (16, 16), (-16, 0), (16, 0)]);
    let r2 = ring_points(100, -50, 2);
    assert_eq!(r2.len(), 16);
    for &(x, z) in &r2 {
        assert!((x - 100).abs() == 32 || (z + 50).abs() == 32);
    }
    assert_eq!(LOCATE_RINGS, 96);
}
