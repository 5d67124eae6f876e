use madu::files::{count_nonwhitespace_chars, format_size, is_noise_file, should_include};
use madu::metrics::{
    analyze_emojis, calculate_code_complexity, calculate_code_density, calculate_complexity,
    calculate_line_density, calculate_line_indent, calculate_max_indent_level,
    count_nesting_change, is_complexity_keyword, is_emoji,
};

fn lines(v: &[&str]) -> Vec<String> {
    v.iter().map(|s| s.to_string()).collect()
}

#[test]
fn noise_files_by_pattern() {
    assert!(is_noise_file("src/config.json", "config.json"));
    assert!(is_noise_file("project/node_modules/x.rs", "x.rs"));
    assert!(is_noise_file("a/target/debug/app", "app"));
    assert!(is_noise_file("Cargo.LOCK", "Cargo.LOCK"));
    assert!(!is_noise_file("src/main.rs", "main.rs"));
}

#[test]
fn noise_files_by_name() {
    assert!(is_noise_file("README", "README"));
    assert!(is_noise_file("docs/LICENSE-MIT", "LICENSE-MIT"));
    assert!(is_noise_file("Dockerfile.prod", "Dockerfile.prod"));
    assert!(!is_noise_file("src/licensing.rs", "licensing.rs"));
}

#[test]
fn include_exclude_filters() {
    let none: Vec<String> = vec![];
    assert_eq!(should_include("src/main.rs", &none, &none), Some(true));
    assert_eq!(
        should_include("src/main.rs", &none, &lines(&["*.rs"])),
        Some(false)
    );
    assert_eq!(
        should_include("src/main.rs", &lines(&["*.py"]), &none),
        Some(false)
    );
    assert_eq!(
        should_include("src/main.rs", &lines(&["*.rs"]), &none),
        Some(true)
    );
    // an exclusion wins over a matching inclusion
    assert_eq!(
        should_include("src/main.rs", &lines(&["*.rs"]), &lines(&["*.rs"])),
        Some(false)
    );
}

#[test]
fn invalid_glob_pattern_is_reported() {
    let none: Vec<String> = vec![];
    assert_eq!(should_include("src/main.rs", &lines(&["a[b"]), &none), None);
    assert_eq!(should_include("x", &none, &lines(&["***"])), None);
}

#[test]
fn format_size_values() {
    assert_eq!(format_size(0), "0B");
    assert_eq!(format_size(500), "500B");
    assert_eq!(format_size(1023), "1023B");
    assert_eq!(format_size(1024), "1.0K");
    assert_eq!(format_size(1536), "1.5K");
    assert_eq!(format_size(1127), "1.1K");
    assert_eq!(format_size(1048576), "1.0M");
    assert_eq!(format_size(1073741824), "1.0G");
    assert_eq!(format_size(10 * 1024 * 1024 * 1024), "10.0G");
    assert_eq!(format_size(1099511627776), "1.0T");
    // ties round to the even tenth
    assert_eq!(format_size(1280), "1.2K");
}

#[test]
fn complexity_counts_keyword_lines() {
    assert_eq!(calculate_complexity("rs", &lines(&["if a"])), 5);
    assert_eq!(calculate_complexity("png", &lines(&["if a"])), 0);
    assert_eq!(calculate_code_complexity(&lines(&["x // y"])), 1);
    // comments suppress the scan until they close
    assert_eq!(calculate_code_complexity(&lines(&["/* if a", "if b */ zz"])), 4);
}

#[test]
fn complexity_keyword_patterns() {
    assert!(is_complexity_keyword("foo && bar", 'x'));
    assert!(is_complexity_keyword("a ? b : c", ' '));
    assert!(is_complexity_keyword("while (true)", 'w'));
    assert!(!is_complexity_keyword("abc", 'a'));
}

#[test]
fn nesting_change_counts_brackets() {
    assert_eq!(count_nesting_change("foo(bar[1]) {"), 1);
    assert_eq!(count_nesting_change("}"), -1);
    assert_eq!(count_nesting_change("\"(\""), 0);
    assert_eq!(count_nesting_change("plain text"), 0);
}

#[test]
fn line_density_counts_operators() {
    assert_eq!(calculate_line_density("a+b"), 5);
    assert_eq!(calculate_line_density(""), 0);
    // "if" scores 3 and the parentheses score 2 each plus 2 as operators
    assert_eq!(calculate_line_density("if()"), 11);
}

#[test]
fn indent_levels() {
    assert_eq!(calculate_line_indent("    x"), 1);
    assert_eq!(calculate_line_indent("\tx"), 1);
    assert_eq!(calculate_line_indent("  x"), 0);
    assert_eq!(calculate_line_indent("\t\t    y"), 3);
    assert_eq!(calculate_max_indent_level(&lines(&["x", "    y", "\t\tz", "   "])), 2);
}

#[test]
fn emoji_classification() {
    assert!(is_emoji('\u{1F600}'));
    assert!(is_emoji('\u{2600}'));
    assert!(is_emoji('\u{FE0F}'));
    assert!(!is_emoji('a'));
    assert!(!is_emoji('\u{00E9}'));
}

#[test]
fn nonwhitespace_count() {
    assert_eq!(count_nonwhitespace_chars(&lines(&["a b", " c "])), 3);
    assert_eq!(count_nonwhitespace_chars(&lines(&[])), 0);
    assert_eq!(count_nonwhitespace_chars(&lines(&["\t \u{000B}"])), 0);
}

#[test]
fn density_of_plain_file() {
    // a single counted line with no brackets has depth 0, so the score is 0
    assert_eq!(calculate_code_density(&lines(&["plain words only here"])), 0);
    // comment-only files have no counted lines
    assert_eq!(calculate_code_density(&lines(&["// note", "# note", "  "])), 0);
}

#[test]
fn emoji_counts() {
    let info = analyze_emojis(&lines(&["hello \u{1F600} world \u{1F600}", "sunny \u{2600}"]));
    assert_eq!(info.total, 3);
    assert_eq!(info.unique, 2);
    assert_eq!(info.most_common, "\u{1F600}");
}

#[test]
fn emoji_counts_empty() {
    let info = analyze_emojis(&lines(&["plain text only"]));
    assert_eq!(info.total, 0);
    assert_eq!(info.unique, 0);
    assert_eq!(info.most_common, "none");
}
