use monkey::text::parse_i32_text;

#[test]
fn decimal_literals() {
    assert_eq!(parse_i32_text(&"123".to_string()), Some(123));
    assert_eq!(parse_i32_text(&"007".to_string()), Some(7));
    assert_eq!(parse_i32_text(&"+7".to_string()), Some(7));
    assert_eq!(parse_i32_text(&"-2147483648".to_string()), Some(i32::MIN));
    assert_eq!(parse_i32_text(&"2147483647".to_string()), Some(i32::MAX));
    assert_eq!(parse_i32_text(&"2147483648".to_string()), None);
    assert_eq!(parse_i32_text(&"-2147483649".to_string()), None);
    assert_eq!(parse_i32_text(&"".to_string()), None);
    assert_eq!(parse_i32_text(&"-".to_string()), None);
    assert_eq!(parse_i32_text(&"+".to_string()), None);
    assert_eq!(parse_i32_text(&"12a".to_string()), None);
    assert_eq!(parse_i32_text(&"99999999999999999999".to_string()), None);
    for s in ["0", "-1", "+15", "2147483647", "-2147483648", "1x", "", "--1"] {
        assert_eq!(parse_i32_text(&s.to_string()), s.parse::<i32>().ok());
    }
}
