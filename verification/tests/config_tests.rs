use image_classifier::config::{get_env, parse_number, ConfigError, MEGABYTE};

#[test]
fn missing_settings_take_their_defaults() {
    assert_eq!(get_env(None, None), Ok((5 * 1024 * 1024, 5020)));
}

#[test]
fn settings_are_read_as_whole_numbers() {
    assert_eq!(get_env(Some("1"), Some("80")), Ok((1_048_576, 80)));
    assert_eq!(get_env(Some("20"), None), Ok((20 * MEGABYTE, 5020)));
    assert_eq!(get_env(None, Some("65535")), Ok((5 * MEGABYTE, 65535)));
    assert_eq!(get_env(Some("0"), Some("0")), Ok((0, 0)));
    assert_eq!(get_env(Some("+7"), Some("+8080")), Ok((7 * MEGABYTE, 8080)));
    assert_eq!(get_env(Some("007"), Some("00080")), Ok((7 * MEGABYTE, 80)));
}

#[test]
fn bad_body_limit_is_reported() {
    for text in ["", "five", "5 ", " 5", "-5", "5.0", "+", "5mb", "0x10", "١"] {
        assert_eq!(get_env(Some(text), Some("80")), Err(ConfigError::BodyLimit), "text {:?}", text);
    }
}

#[test]
fn body_limit_that_cannot_be_counted_in_bytes_is_reported() {
    let most = usize::MAX / MEGABYTE;
    assert_eq!(get_env(Some(&most.to_string()), None), Ok((most * MEGABYTE, 5020)));
    assert_eq!(get_env(Some(&(most as u128 + 1).to_string()), None), Err(ConfigError::BodyLimit));
    assert_eq!(
        get_env(Some("99999999999999999999999999999999999999"), None),
        Err(ConfigError::BodyLimit)
    );
}

#[test]
fn bad_port_is_reported() {
    for text in ["", "http", "65536", "-1", "80 ", "8o8o", "99999999999999999999"] {
        assert_eq!(get_env(Some("5"), Some(text)), Err(ConfigError::Port), "text {:?}", text);
    }
}

#[test]
fn body_limit_is_looked_at_first() {
    assert_eq!(get_env(Some("x"), Some("y")), Err(ConfigError::BodyLimit));
}

#[test]
fn errors_have_their_words() {
    assert_eq!(ConfigError::BodyLimit.message(), "BODY_LIMIT_MB must be a valid integer");
    assert_eq!(ConfigError::Port.message(), "PORT must be a valid number between 0 and 65535");
}

#[test]
fn numbers_agree_with_the_standard_parser() {
    let texts = [
        "0", "1", "9", "10", "65535", "65536", "+1", "++1", "+-1", "-0", "", "+", "1+", "12a", "a12",
        " 1", "1 ", "000", "0000000000000000000000001", "18446744073709551615", "1844674407370955161",
        "1844674407370955160", "٣", "1_000",
    ];
    let limit = u64::MAX / 10 - 1;
    for text in texts {
        let want = match text.parse::<u64>() {
            Ok(value) if value <= limit => Some(value),
            _ => None,
        };
        assert_eq!(parse_number(text, limit), want, "text {:?}", text);
    }
    assert_eq!(parse_number("100", 99), None);
    assert_eq!(parse_number("99", 99), Some(99));
}
