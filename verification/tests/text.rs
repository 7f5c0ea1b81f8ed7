use gaia_hub::models::NodeStatus;
use gaia_hub::text::{chars_of, parse_i64, parse_u64, split, str_eq, to_lowercase};

#[test]
fn unsigned_numbers() {
    assert_eq!(parse_u64("0"), Some(0));
    assert_eq!(parse_u64("007"), Some(7));
    assert_eq!(parse_u64("+15"), Some(15));
    assert_eq!(parse_u64("18446744073709551615"), Some(u64::MAX));
    assert_eq!(parse_u64("18446744073709551616"), None);
    assert_eq!(parse_u64("99999999999999999999999"), None);
    assert_eq!(parse_u64(""), None);
    assert_eq!(parse_u64("+"), None);
    assert_eq!(parse_u64("-1"), None);
    assert_eq!(parse_u64("1 "), None);
    assert_eq!(parse_u64("1e3"), None);
    assert_eq!(parse_u64("++1"), None);
    assert_eq!(parse_u64("\u{665}"), None);
    for s in ["0", "42", "+9", "", "x", "-0", "18446744073709551615", "18446744073709551616"] {
        assert_eq!(parse_u64(s), s.parse::<u64>().ok());
    }
}

#[test]
fn signed_numbers() {
    assert_eq!(parse_i64("0"), Some(0));
    assert_eq!(parse_i64("-0"), Some(0));
    assert_eq!(parse_i64("+12"), Some(12));
    assert_eq!(parse_i64("-12"), Some(-12));
    assert_eq!(parse_i64("9223372036854775807"), Some(i64::MAX));
    assert_eq!(parse_i64("9223372036854775808"), None);
    assert_eq!(parse_i64("-9223372036854775808"), Some(i64::MIN));
    assert_eq!(parse_i64("-9223372036854775809"), None);
    assert_eq!(parse_i64("-"), None);
    assert_eq!(parse_i64("+-1"), None);
    assert_eq!(parse_i64("-+1"), None);
    assert_eq!(parse_i64(""), None);
    assert_eq!(parse_i64("1.5"), None);
    for s in ["7", "-7", "+7", "--7", "", "-", "9223372036854775808", "-9223372036854775808"] {
        assert_eq!(parse_i64(s), s.parse::<i64>().ok());
    }
}

#[test]
fn splitting_keeps_empty_pieces() {
    let v = |p: &[&str]| p.iter().map(|s| s.to_string()).collect::<Vec<String>>();
    assert_eq!(split("a,b,c", ','), v(&["a", "b", "c"]));
    assert_eq!(split("", ','), v(&[""]));
    assert_eq!(split(",,", ','), v(&["", "", ""]));
    assert_eq!(split("a,", ','), v(&["a", ""]));
    assert_eq!(split(",a", ','), v(&["", "a"]));
    assert_eq!(split("abc", ','), v(&["abc"]));
    for s in ["x,y", "", ",", "no commas", "a,,b,"] {
        let std: Vec<String> = s.split(',').map(|p| p.to_string()).collect();
        assert_eq!(split(s, ','), std);
    }
}

#[test]
fn lowercase_touches_ascii_letters_only() {
    assert_eq!(to_lowercase("Llama-3_70B"), "llama-3_70b");
    assert_eq!(to_lowercase("AZaz09@[`{"), "azaz09@[`{");
    assert_eq!(to_lowercase(""), "");
    assert_eq!(to_lowercase("\u{c9}cole"), "\u{c9}cole");
}

#[test]
fn characters_and_equality() {
    assert_eq!(chars_of("a\u{e9}\u{1f600}"), vec!['a', '\u{e9}', '\u{1f600}']);
    assert!(chars_of("").is_empty());
    assert!(str_eq("online", "online"));
    assert!(!str_eq("online", "offline"));
    assert!(!str_eq("a", ""));
}

#[test]
fn status_names() {
    for s in [NodeStatus::Online, NodeStatus::Unavail, NodeStatus::Offline] {
        assert_eq!(NodeStatus::parse(s.as_str()), Some(s));
    }
    assert_eq!(NodeStatus::Online.as_str(), "online");
    assert_eq!(NodeStatus::Unavail.as_str(), "unavail");
    assert_eq!(NodeStatus::Offline.as_str(), "offline");
    assert_eq!(NodeStatus::parse("Online"), None);
    assert_eq!(NodeStatus::parse(""), None);
    assert!(NodeStatus::Online.living());
    assert!(NodeStatus::Unavail.living());
    assert!(!NodeStatus::Offline.living());
}
