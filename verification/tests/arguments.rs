use color_bruteforcer::arguments::{check_alpha, validate_alpha};

#[test]
fn test_validate_alpha() {
    assert_eq!(Ok(()), validate_alpha("50".to_string()));
    assert!(validate_alpha("a".to_string()).is_err());
    assert!(validate_alpha("-1".to_string()).is_err());
    assert!(validate_alpha("100".to_string()).is_err());
}

#[test]
fn test_validate_alpha_bounds() {
    assert_eq!(Ok(()), validate_alpha("1".to_string()));
    assert_eq!(Ok(()), validate_alpha("99".to_string()));
    assert!(validate_alpha("0".to_string()).is_err());
}

#[test]
fn test_validate_alpha_messages() {
    assert_eq!(
        Err("Cannot parse alpha \"a\" as an integer.".to_string()),
        validate_alpha("a".to_string())
    );
    assert_eq!(
        Err("The alphas to search must be between 1 and 99.".to_string()),
        validate_alpha("100".to_string())
    );
    assert_eq!(
        Err("Cannot parse alpha \"fff\" as an integer.".to_string()),
        validate_alpha("fff".to_string())
    );
}

#[test]
fn test_check_alpha() {
    assert_eq!(Ok(()), check_alpha(Some(30), "30"));
    assert_eq!(
        Err("The alphas to search must be between 1 and 99.".to_string()),
        check_alpha(Some(-1), "-1")
    );
    assert_eq!(
        Err("Cannot parse alpha \"x\" as an integer.".to_string()),
        check_alpha(None, "x")
    );
}

#[test]
fn test_validate_alpha_reads_signs_and_leading_zeros() {
    assert_eq!(Ok(()), validate_alpha("+50".to_string()));
    assert_eq!(Ok(()), validate_alpha("050".to_string()));
    assert_eq!(Ok(()), validate_alpha("+0099".to_string()));
    assert_eq!(
        Err("The alphas to search must be between 1 and 99.".to_string()),
        validate_alpha("-0".to_string())
    );
    assert_eq!(
        Err("The alphas to search must be between 1 and 99.".to_string()),
        validate_alpha("-2147483648".to_string())
    );
}

#[test]
fn test_validate_alpha_unreadable_texts() {
    for text in ["", "+", "-", " 5", "5 ", "5.0", "1_0", "+-5", "2147483648", "99999999999", "५"] {
        assert_eq!(
            Err(format!("Cannot parse alpha \"{}\" as an integer.", text)),
            validate_alpha(text.to_string())
        );
    }
}
