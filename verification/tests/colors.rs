use color_bruteforcer::arguments::validate_alpha;
use color_bruteforcer::colors::{
    color_digits, get_colors, instantiate_colors, is_hex_color, parse_color, trim_color,
    validate_color, Rgb,
};

#[test]
fn test_validate_color() {
    assert_eq!(Ok(()), validate_color("#001488".to_string()));
    assert_eq!(Ok(()), validate_color("abcdef".to_string()));
    assert_eq!(Ok(()), validate_color("FFFFFF".to_string()));
    assert!(validate_color("#fff".to_string()).is_err());
    assert!(validate_alpha("fff".to_string()).is_err());
    assert!(validate_color("1488HH".to_string()).is_err());
}

#[test]
fn test_validate_color_message() {
    assert_eq!(
        Err("The color #fff is not a valid six-character hex color code.".to_string()),
        validate_color("#fff".to_string())
    );
}

#[test]
fn test_color_grammar_edges() {
    assert!(is_hex_color("09afAF"));
    assert!(is_hex_color("#09afAF"));
    assert!(!is_hex_color(""));
    assert!(!is_hex_color("#"));
    assert!(!is_hex_color("##12345"));
    assert!(!is_hex_color("1234567"));
    assert!(!is_hex_color("#1234567"));
    assert!(!is_hex_color("12345"));
    assert!(!is_hex_color("12345g"));
    assert!(!is_hex_color("12345G"));
    assert!(!is_hex_color("12345/"));
    assert!(!is_hex_color("12345:"));
    assert!(!is_hex_color("12345@"));
    assert!(!is_hex_color("12345`"));
    assert!(!is_hex_color(" 123456"));
    assert!(!is_hex_color("123456\n"));
    assert!(!is_hex_color("12345é"));
    assert!(!is_hex_color("é2345"));
    assert!(!is_hex_color("#12345é"));
}

#[test]
fn test_instantiate_colors() {
    let colors = vec!["#FFFFFF".to_string(), "000000".to_string()];
    let expected_result = vec![
        Rgb { red: 255, green: 255, blue: 255 },
        Rgb { red: 0, green: 0, blue: 0 },
    ];
    assert_eq!(expected_result, instantiate_colors(colors));
}

#[test]
fn test_instantiate_colors_empty() {
    let colors: Vec<String> = Vec::new();
    let expected_result: Vec<Rgb> = Vec::new();
    assert_eq!(expected_result, instantiate_colors(colors));
}

#[test]
fn test_get_colors_from_args() {
    let expected_result = Ok((
        vec![Rgb { red: 255, green: 255, blue: 255 }],
        vec![Rgb { red: 0, green: 0, blue: 0 }],
    ));
    let result = get_colors(vec!["#FFFFFF".to_string()], vec!["000000".to_string()]);
    assert_eq!(expected_result, result);
}

#[test]
fn test_get_colors_from_args_mismatched_number_of_colors() {
    let result = get_colors(
        vec!["#FFFFFF".to_string(), "#001488".to_string()],
        vec!["000000".to_string()],
    );
    assert!(result.is_err());
    assert_eq!(
        Err("The number of base colors and target colors must match.".to_string()),
        result
    );
}

#[test]
fn test_parse_color_channels() {
    assert_eq!(Rgb { red: 0xff, green: 0x14, blue: 0x88 }, parse_color("#ff1488"));
    assert_eq!(Rgb { red: 0xab, green: 0xcd, blue: 0xef }, parse_color("ABCDEF"));
    assert_eq!(Rgb { red: 0xab, green: 0xcd, blue: 0xef }, parse_color("abcdef"));
    assert_eq!(Rgb { red: 0x01, green: 0x23, blue: 0x45 }, parse_color("#012345"));
    assert_eq!(Rgb { red: 0x67, green: 0x89, blue: 0x0a }, parse_color("67890a"));
    assert_eq!(Rgb { red: 237, green: 28, blue: 35 }, parse_color("ed1c23"));
}

#[test]
fn test_trim_color() {
    assert_eq!("FFFFFF".to_string(), trim_color("#FFFFFF"));
    assert_eq!("000000".to_string(), trim_color("000000"));
    assert_eq!("234567".to_string(), trim_color("1234567"));
    assert_eq!("#fff".to_string(), trim_color("#fff"));
    assert_eq!("".to_string(), trim_color(""));
    assert_eq!("2345é".to_string(), trim_color("12345é"));
}

#[test]
fn test_color_digits() {
    assert_eq!(Some("FFFFFF".to_string()), color_digits("#FFFFFF"));
    assert_eq!(Some("00aa11".to_string()), color_digits("00aa11"));
    assert_eq!(None, color_digits("1488HH"));
    assert_eq!(None, color_digits("1234567"));
}
