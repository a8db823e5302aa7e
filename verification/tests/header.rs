use rustscrub::header::{classify_line, detect_header, HeaderScan, LineKind};

fn lines(text: &[&str]) -> Vec<String> {
    text.iter().map(|s| s.to_string()).collect()
}

#[test]
fn five_comment_lines_before_a_function() {
    let file = lines(&["// a", "// b", "// c", "// d", "// e", "fn main() {}", "// later"]);
    let (count, preview) = detect_header(&file);
    assert_eq!(count, 5);
    assert_eq!(preview, "// a\n// b\n// c\n// d\n// e\nfn main() {}");
}

#[test]
fn empty_file_has_no_header() {
    let (count, preview) = detect_header(&Vec::new());
    assert_eq!(count, 0);
    assert_eq!(preview, "");
}

#[test]
fn declaration_on_the_first_line() {
    let (count, preview) = detect_header(&lines(&["use std::io;", "// c"]));
    assert_eq!(count, 0);
    assert_eq!(preview, "use std::io;");
}

#[test]
fn comments_to_the_end_of_the_file() {
    let (count, preview) = detect_header(&lines(&["// a", "/* b */", "//! c", ""]));
    assert_eq!(count, 4);
    assert_eq!(preview, "// a\n/* b */\n//! c\n");
}

#[test]
fn neither_comment_nor_declaration() {
    let (count, preview) = detect_header(&lines(&["let x = 1;", "", "x += 1;"]));
    assert_eq!(count, 0);
    assert_eq!(preview, "let x = 1;\n\nx += 1;");
}

#[test]
fn blank_lines_alone_before_a_declaration() {
    let (count, _) = detect_header(&lines(&["", "  ", "fn f() {}"]));
    assert_eq!(count, 2);
}

#[test]
fn three_blank_lines_end_the_header_before_them() {
    let file = lines(&["// x", "", " \t", "", "fn f() {}"]);
    let (count, preview) = detect_header(&file);
    assert_eq!(count, 1);
    assert_eq!(preview, "// x\n\n \t\n");
}

#[test]
fn two_blank_lines_do_not_end_the_header() {
    let file = lines(&["// a", "", "", "// b", "", "", "", "fn f() {}"]);
    let (count, _) = detect_header(&file);
    assert_eq!(count, 4);
}

#[test]
fn blank_lines_before_the_first_comment_do_not_count() {
    let file = lines(&["", "", "", "", "// a", "fn f() {}"]);
    let (count, _) = detect_header(&file);
    assert_eq!(count, 5);
}

#[test]
fn other_line_past_the_third_ends_the_search() {
    let file = lines(&["// a", "// b", "// c", "let x = 1;", "// d", "fn f() {}"]);
    let (count, preview) = detect_header(&file);
    assert_eq!(count, 4);
    assert_eq!(preview, "// a\n// b\n// c\nlet x = 1;");
}

#[test]
fn other_line_among_the_first_three_is_passed_over() {
    let file = lines(&["// a", "let x = 1;", "// b", "fn f() {}"]);
    let (count, _) = detect_header(&file);
    assert_eq!(count, 3);
}

#[test]
fn search_gives_up_at_the_size_limit() {
    let file: Vec<String> = (0..60).map(|i| format!("let x{} = 1;", i)).collect();
    let (count, preview) = detect_header(&file);
    assert_eq!(count, 0);
    let shown: Vec<String> = (0..10).map(|i| format!("let x{} = 1;", i)).collect();
    assert_eq!(preview, format!("{}\n+40 more lines", shown.join("\n")));
}

#[test]
fn header_is_no_longer_than_the_size_limit() {
    let file: Vec<String> = (0..133).map(|i| format!("// line {}", i)).collect();
    let (count, preview) = detect_header(&file);
    assert_eq!(count, 50);
    let shown: Vec<String> = (0..10).map(|i| format!("// line {}", i)).collect();
    assert_eq!(preview, format!("{}\n+40 more lines", shown.join("\n")));

    let mut scan = HeaderScan::new();
    let mut read = 0;
    for line in &file {
        read += 1;
        if !scan.observe(line) {
            break;
        }
    }
    assert_eq!(read, 50);
    assert!(scan.is_done());
    assert_eq!(scan.decision().0, 50);
}

#[test]
fn declaration_at_the_size_limit() {
    for (comments, header) in [(48, 48), (49, 49), (50, 50), (51, 50), (52, 50)] {
        let mut file: Vec<String> = (0..comments).map(|i| format!("// line {}", i)).collect();
        file.push("fn main() {}".to_string());
        assert_eq!(detect_header(&file).0, header, "{} comment lines", comments);
    }
}

#[test]
fn blank_run_at_the_size_limit() {
    let mut file: Vec<String> = (0..47).map(|i| format!("// line {}", i)).collect();
    file.extend([String::new(), String::new(), String::new()]);
    file.push("// later".to_string());
    assert_eq!(detect_header(&file).0, 47);
    let mut file: Vec<String> = (0..48).map(|i| format!("// line {}", i)).collect();
    file.extend([String::new(), String::new(), String::new()]);
    assert_eq!(detect_header(&file).0, 50);
}

#[test]
fn blank_lines_up_to_the_size_limit() {
    let mut file: Vec<String> = vec!["// a".to_string()];
    for i in 0..60 {
        file.push(if i % 3 == 2 { "// b".to_string() } else { String::new() });
    }
    assert_eq!(detect_header(&file).0, 50);
    let file: Vec<String> = (0..60).map(|_| String::new()).collect();
    assert_eq!(detect_header(&file).0, 0);
}

#[test]
fn preview_of_ten_lines_has_no_note() {
    let file: Vec<String> = (0..10).map(|i| format!("// line {}", i)).collect();
    let (count, preview) = detect_header(&file);
    assert_eq!(count, 10);
    assert_eq!(preview, file.join("\n"));
    let mut longer = file.clone();
    longer.push("fn f() {}".to_string());
    let (count, preview) = detect_header(&longer);
    assert_eq!(count, 10);
    assert_eq!(preview, format!("{}\n+1 more lines", file.join("\n")));
}

#[test]
fn kinds_of_lines() {
    assert_eq!(classify_line(""), LineKind::Blank);
    assert_eq!(classify_line(" \t\u{a0}"), LineKind::Blank);
    assert_eq!(classify_line("// x"), LineKind::Comment);
    assert_eq!(classify_line("   /* x"), LineKind::Comment);
    assert_eq!(classify_line("///x"), LineKind::Doc);
    assert_eq!(classify_line("\t//! x"), LineKind::Doc);
    assert_eq!(classify_line("#![allow(dead_code)]"), LineKind::Doc);
    assert_eq!(classify_line("#[derive(Debug)]"), LineKind::Other);
    let declarations = [
        "use a;", "mod m;", "pub fn f()", "fn f()", "struct S;", "enum E {}", "impl S {}",
        "trait T {}", "   fn f()",
    ];
    for code in declarations {
        assert_eq!(classify_line(code), LineKind::Code, "{:?}", code);
    }
    for other in ["let x = 1;", "fnx", "fn", "public", "used ", "/", "#!", "const X: u8 = 1;"] {
        assert_eq!(classify_line(other), LineKind::Other, "{:?}", other);
    }
}

#[test]
fn search_line_by_line() {
    let mut scan = HeaderScan::new();
    assert!(!scan.is_done());
    assert_eq!(scan.decision(), (0, String::new()));
    assert!(scan.observe("// a"));
    assert_eq!(scan.decision(), (1, "// a".to_string()));
    assert!(scan.observe(""));
    assert!(!scan.is_done());
    assert!(!scan.observe("pub struct S;"));
    assert!(scan.is_done());
    assert_eq!(scan.decision(), (2, "// a\n\npub struct S;".to_string()));
    assert!(!scan.observe("// ignored"));
    assert_eq!(scan.decision(), (2, "// a\n\npub struct S;".to_string()));
}
