use ticker_args::text::{lex_less, starts_with};

#[test]
fn starts_with_checks_prefix() {
    assert!(starts_with("verbose", "verb"));
    assert!(starts_with("verbose", ""));
    assert!(starts_with("verbose", "verbose"));
    assert!(!starts_with("verbose", "verbosely"));
    assert!(!starts_with("verbose", "vers"));
    assert!(starts_with("héllo", "hé"));
}

#[test]
fn lex_less_orders_like_str() {
    let words = ["", "V", "help", "hel", "nocache", "verbose", "version", "ver", "é", "z"];
    for a in words {
        for b in words {
            assert_eq!(lex_less(a, b), a < b, "{} {}", a, b);
        }
    }
}
