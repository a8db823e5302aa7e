use rustscrub::prompt::{is_affirmative, is_yes};

#[test]
fn yes_in_any_case_and_with_white_space() {
    for answer in ["y", "Y", "yes", "YES", "Yes", "yEs", " y\n", "\tYes \r\n"] {
        assert!(is_affirmative(answer), "{:?}", answer);
    }
}

#[test]
fn everything_else_is_no() {
    for answer in ["", "\n", "n", "no", "ye", "yess", "y e s", "yes!", "ja", "ｙ"] {
        assert!(!is_affirmative(answer), "{:?}", answer);
    }
}

#[test]
fn is_yes_reads_lower_case_only() {
    assert!(is_yes("y"));
    assert!(is_yes("yes"));
    assert!(!is_yes("Y"));
    assert!(!is_yes("YES"));
    assert!(!is_yes(" yes"));
    assert!(!is_yes(""));
    assert!(!is_yes("yea"));
}
