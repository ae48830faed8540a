use ccstart::utils::encoding::{decode_config_name, encode_config_name, DecodeError};

fn round_trip(name: &str) {
    let token = encode_config_name(name);
    assert_eq!(decode_config_name(&token), Ok(name.to_string()), "token {token:?}");
}

#[test]
fn plain_names_are_their_own_tokens() {
    assert_eq!(encode_config_name("packycode"), "packycode");
    assert_eq!(encode_config_name("Zhipu GLM"), "Zhipu GLM");
    assert_eq!(encode_config_name("a-b_c 9"), "a-b_c 9");
    assert_eq!(encode_config_name(""), "");
}

#[test]
fn reserved_characters_are_escaped_in_upper_case() {
    assert_eq!(encode_config_name("a/b"), "a%2Fb");
    assert_eq!(encode_config_name("/:*?\"<>|\\"), "%2F%3A%2A%3F%22%3C%3E%7C%5C");
    assert_eq!(encode_config_name("50%"), "50%25");
}

#[test]
fn control_bytes_are_escaped() {
    assert_eq!(encode_config_name("a\tb\n"), "a%09b%0A");
    assert_eq!(encode_config_name("\u{0}\u{1f}\u{7f}"), "%00%1F%7F");
}

#[test]
fn bytes_outside_ascii_are_escaped() {
    assert_eq!(encode_config_name("配置"), "%E9%85%8D%E7%BD%AE");
    assert_eq!(encode_config_name("é"), "%C3%A9");
    assert_eq!(encode_config_name("💖"), "%F0%9F%92%96");
}

#[test]
fn tokens_hold_no_separator() {
    for name in ["a/b", "..\\..", "x:y", "/", "\\"] {
        let token = encode_config_name(name);
        assert!(!token.contains('/') && !token.contains('\\') && !token.contains(':'));
    }
}

#[test]
fn decoding_inverts_encoding() {
    for name in [
        "",
        "packycode",
        "Zhipu GLM",
        "a/b:c*d?e\"f<g>h|i\\j",
        "智谱 GLM",
        "tab\there",
        "50% off",
        "%41",
        "%",
        "%%",
        "a%2Fb",
        "💖 emoji",
        " leading and trailing ",
    ] {
        round_trip(name);
    }
}

#[test]
fn names_with_escapes_in_them_keep_apart() {
    assert_ne!(encode_config_name("%41"), encode_config_name("A"));
    assert_ne!(encode_config_name("a%2Fb"), encode_config_name("a/b"));
}

#[test]
fn decoding_takes_either_case_of_digits() {
    assert_eq!(decode_config_name("a%2fb"), Ok("a/b".to_string()));
    assert_eq!(decode_config_name("a%2Fb"), Ok("a/b".to_string()));
    assert_eq!(decode_config_name("%e9%85%8D"), Ok("配".to_string()));
}

#[test]
fn decoding_unescapes_any_byte() {
    assert_eq!(decode_config_name("%41%20%42"), Ok("A B".to_string()));
    assert_eq!(decode_config_name("plain name"), Ok("plain name".to_string()));
    assert_eq!(decode_config_name(""), Ok(String::new()));
}

#[test]
fn a_percent_sign_without_two_digits_is_malformed() {
    for token in ["%", "a%", "%4", "%zz", "%4g", "100%", "%%41", "a%2", "%G0"] {
        assert_eq!(decode_config_name(token), Err(DecodeError::MalformedEscape), "{token:?}");
    }
}

#[test]
fn unescaped_bytes_that_are_not_utf8_are_refused() {
    for token in ["%FF", "%C3", "%E9%85", "a%80b", "%ED%A0%80", "%C0%80"] {
        assert_eq!(decode_config_name(token), Err(DecodeError::InvalidUtf8), "{token:?}");
    }
}

#[test]
fn malformed_escape_is_reported_before_invalid_utf8() {
    assert_eq!(decode_config_name("%FF%"), Err(DecodeError::MalformedEscape));
}
