use rustscrub::text::{
    char_is_whitespace, chars_of, push_decimal, push_joined, push_range, push_text, trim_bounds,
    window_starts_with,
};

#[test]
fn white_space_is_what_the_standard_library_calls_so() {
    for code in 0u32..=0x10FFFF {
        if let Some(c) = char::from_u32(code) {
            assert_eq!(char_is_whitespace(c), c.is_whitespace(), "U+{:04X}", code);
        }
    }
}

#[test]
fn chars_in_order() {
    assert_eq!(chars_of("a→b\n"), vec!['a', '→', 'b', '\n']);
    assert_eq!(chars_of(""), Vec::<char>::new());
}

#[test]
fn pushing_text() {
    let mut s = String::from("<");
    push_text(&mut s, "a→");
    push_range(&mut s, &chars_of("0123456"), 2, 5);
    push_range(&mut s, &chars_of("0123456"), 3, 3);
    assert_eq!(s, "<a→234");
    let lines = vec!["one".to_string(), String::new(), "three".to_string()];
    push_joined(&mut s, &lines, 3);
    assert_eq!(s, "<a→234one\n\nthree");
    let mut t = String::new();
    push_joined(&mut t, &lines, 0);
    assert_eq!(t, "");
    push_joined(&mut t, &lines, 1);
    assert_eq!(t, "one");
}

#[test]
fn windows_and_prefixes() {
    let v = chars_of("  fn main");
    assert!(window_starts_with(&v, 2, 9, "fn "));
    assert!(window_starts_with(&v, 2, 9, ""));
    assert!(window_starts_with(&v, 2, 5, "fn "));
    assert!(!window_starts_with(&v, 2, 4, "fn "));
    assert!(!window_starts_with(&v, 0, 9, "fn "));
    assert!(!window_starts_with(&v, 2, 9, "fn m!"));
}

#[test]
fn trim_bounds_cut_both_ends() {
    let v = chars_of(" \t a b \u{a0}\n");
    assert_eq!(trim_bounds(&v), (3, 6));
    let v = chars_of("   ");
    let (a, b) = trim_bounds(&v);
    assert_eq!(a, b);
    let v = chars_of("x");
    assert_eq!(trim_bounds(&v), (0, 1));
    let v = chars_of("");
    assert_eq!(trim_bounds(&v), (0, 0));
}

#[test]
fn decimal_digits() {
    for (n, text) in [(0usize, "0"), (7, "7"), (10, "10"), (41, "41"), (1234567890, "1234567890")] {
        let mut s = String::from("n=");
        push_decimal(&mut s, n);
        assert_eq!(s, format!("n={}", text));
    }
    let mut s = String::new();
    push_decimal(&mut s, usize::MAX);
    assert_eq!(s, usize::MAX.to_string());
}
