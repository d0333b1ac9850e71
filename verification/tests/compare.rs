use ci_logs::compare::{blank, compare_logs, white_space};

#[test]
fn reports_lines_more_than_ten_seconds_later() {
    let a = "[0:0:1]step one\n[0:0:5]step two\n[0:0:9]step three\n";
    let b = "[0:0:1]step one\n[0:0:30]step two\n[0:0:19]step three\n[0:0:40]new step\n";
    assert_eq!(compare_logs(a, b), vec![(25, "step two")]);
}

#[test]
fn exactly_ten_seconds_is_not_reported() {
    let a = "[0:0:5]x\n";
    assert_eq!(compare_logs(a, "[0:0:15]x\n"), vec![]);
    assert_eq!(compare_logs(a, "[0:0:16]x\n"), vec![(11, "x")]);
}

#[test]
fn earlier_lines_are_not_reported() {
    assert_eq!(compare_logs("[0:1:0]x\n", "[0:0:1]x\n"), vec![]);
}

#[test]
fn repeated_lines_are_matched_in_order() {
    let a = "[0:0:10]test\n[0:0:20]test\n";
    let b = "[0:0:40]test\n[0:0:50]test\n[0:0:90]test\n";
    assert_eq!(compare_logs(a, b), vec![(30, "test"), (30, "test")]);
}

#[test]
fn blank_lines_are_never_matched() {
    let a = "[0:0:1]\n[0:0:1]   \n[0:0:1]\u{3000}\n";
    let b = "[0:1:0]\n[0:1:0]   \n[0:1:0]\u{3000}\n";
    assert_eq!(compare_logs(a, b), vec![]);
}

#[test]
fn results_are_sorted_by_seconds_then_text() {
    let a = "[0:0:0]b\n[0:0:0]a\n[0:0:0]c\n[0:0:0]z\n";
    let b = "[0:0:50]b\n[0:0:50]a\n[0:0:20]c\n[0:0:50]z\n";
    assert_eq!(
        compare_logs(a, b),
        vec![(20, "c"), (50, "a"), (50, "b"), (50, "z")]
    );
}

#[test]
fn a_log_compared_with_itself_reports_nothing() {
    let a = "[0:0:1]one\n[0:0:30]two\n[0:0:40]one\n[0:2:0]\n";
    assert_eq!(compare_logs(a, a), vec![]);
}

#[test]
fn empty_logs_report_nothing() {
    assert_eq!(compare_logs("", ""), vec![]);
    assert_eq!(compare_logs("", "[0:1:0]x\n"), vec![]);
}

#[test]
fn white_space_is_unicode_white_space() {
    for u in 0u32..0x3100 {
        if let Some(c) = char::from_u32(u) {
            assert_eq!(white_space(c), c.is_whitespace(), "{:x}", u);
        }
    }
    assert!(blank(""));
    assert!(blank(" \t\r\u{a0}"));
    assert!(!blank(" a "));
}
