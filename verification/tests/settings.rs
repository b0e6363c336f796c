use rustorio_game::settings::{
    max_furnace_setting, max_miner_setting, parse_decimal, DEFAULT_MAX_FURNACE, DEFAULT_MAX_MINER,
};

#[test]
fn unset_limits_take_their_defaults() {
    assert_eq!(max_miner_setting(None), Some(20));
    assert_eq!(max_furnace_setting(None), Some(10));
    assert_eq!(DEFAULT_MAX_MINER, 20);
    assert_eq!(DEFAULT_MAX_FURNACE, 10);
}

#[test]
fn given_limits_are_read_as_decimal() {
    assert_eq!(max_miner_setting(Some("5")), Some(5));
    assert_eq!(max_miner_setting(Some("+15")), Some(15));
    assert_eq!(max_furnace_setting(Some("007")), Some(7));
    assert_eq!(max_miner_setting(Some("4294967295")), Some(u32::MAX));
}

#[test]
fn invalid_limits_are_refused() {
    assert_eq!(max_miner_setting(Some("")), None);
    assert_eq!(max_miner_setting(Some("+")), None);
    assert_eq!(max_miner_setting(Some("-1")), None);
    assert_eq!(max_miner_setting(Some(" 5")), None);
    assert_eq!(max_miner_setting(Some("5x")), None);
    assert_eq!(max_miner_setting(Some("4294967296")), None);
    assert_eq!(max_furnace_setting(Some("ten")), None);
}

#[test]
fn parsing_agrees_with_the_standard_library() {
    for text in ["0", "1", "+9", "99999", "18446744073709551615", "18446744073709551616", "", "+", "++1", "1_000", "٣"] {
        assert_eq!(parse_decimal(text, u64::MAX), text.parse::<u64>().ok(), "{text}");
        assert_eq!(
            parse_decimal(text, u32::MAX as u64),
            text.parse::<u32>().ok().map(|v| v as u64),
            "{text}"
        );
    }
    assert_eq!(parse_decimal("300", 255), None);
    assert_eq!(parse_decimal("255", 255), Some(255));
}
