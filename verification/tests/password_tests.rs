use passcualito::password::{align_password, default_charset, generate_random_password, PassOptions};
use passcualito::password::{Charset, Password, PasswordError};

#[test]
fn test_generate_random_password_default() {
    let password = generate_random_password(PassOptions::Default);
    assert_eq!(password.len(), 20);

    for c in password.chars() {
        assert!(default_charset().contains(c));
    }
}

#[test]
fn test_generate_random_password_custom_charset() {
    let charset = "abc123";
    let password = generate_random_password(PassOptions::LengthCharset(50, charset));
    assert_eq!(password.len(), 50);
    for c in password.chars() {
        assert!(charset.contains(c));
    }
}

#[test]
fn test_align_password_short() {
    let input = "short";
    let aligned = align_password(input);
    assert_eq!(aligned.len(), 16);
    assert!(aligned.starts_with("short"));
    assert!(aligned.ends_with(&"*".repeat(16 - input.len())));
}

#[test]
fn test_align_password_exact() {
    let input = "sixteen_charstr";
    assert_eq!(input.len(), 15);
    let input = "sixteen_char_str";
    assert_eq!(input.len(), 16);
    let aligned = align_password(input);
    assert_eq!(aligned, input);
}

#[test]
fn test_align_password_long() {
    let input = "thispasswordiswaytoolong";
    let aligned = align_password(input);
    assert_eq!(aligned.len(), 16);
    assert_eq!(aligned, &input[..16]);
}

#[test]
fn test_validate_master_password_accepts_long() {
    let r = Password::validate_master_password("correcthorse".to_string());
    assert_eq!(r.unwrap(), "correcthorse");
}

#[test]
fn test_validate_master_password_rejects_short() {
    let r = Password::validate_master_password("five5".to_string());
    assert_eq!(r.unwrap_err(), PasswordError::TooShort);
}

#[test]
fn test_charset_password_numeric() {
    let password = Charset::password(12, &Some("n".to_string()));
    assert_eq!(password.len(), 12);
    for c in password.chars() {
        assert!("0123456789".contains(c));
    }
}

#[test]
fn test_charset_password_default() {
    let password = Charset::password(8, &None);
    assert_eq!(password.len(), 8);
    for c in password.chars() {
        assert!(default_charset().contains(c));
    }
}

#[test]
fn test_align_password_counts_bytes() {
    // Eight two-byte characters are sixteen bytes: returned unchanged.
    let input = "\u{e9}\u{e9}\u{e9}\u{e9}\u{e9}\u{e9}\u{e9}\u{e9}";
    assert_eq!(input.len(), 16);
    assert_eq!(align_password(input), input);

    // Two two-byte characters are four bytes: padded with twelve stars.
    let input = "\u{e9}\u{e9}";
    let aligned = align_password(input);
    assert_eq!(aligned.len(), 16);
    assert_eq!(aligned, format!("{}{}", input, "*".repeat(12)));

    // Ten two-byte characters are twenty bytes: cut to the first sixteen.
    let input = "\u{e9}\u{e9}\u{e9}\u{e9}\u{e9}\u{e9}\u{e9}\u{e9}\u{e9}\u{e9}";
    let aligned = align_password(input);
    assert_eq!(aligned, "\u{e9}\u{e9}\u{e9}\u{e9}\u{e9}\u{e9}\u{e9}\u{e9}");
}
