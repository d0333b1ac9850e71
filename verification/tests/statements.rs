use ci_logs::text::contains;
use ci_logs::statements::{
    mark_stretches, marks_readable, series, statement_line, statement_rows,
};

const LOG: &str = "[0:0:1]start\n[0:0:5]open A\n[0:0:7]open B\n[0:0:10]close A\n[0:0:12]open A again\n[0:0:20]close B\n[0:0:30]done\n";

#[test]
fn marks_first_opening_then_first_later_closing() {
    let pats = vec![("open A", "close A"), ("open B", "close B")];
    let (marks, last) = mark_stretches(LOG, &pats);
    assert_eq!(marks, vec![(5, 10), (7, 20)]);
    assert_eq!(last, 30);
}

#[test]
fn a_line_stamped_zero_sets_no_mark() {
    let pats = vec![("go", "stop")];
    let (marks, last) = mark_stretches("[0:0:0]go\n[0:0:4]go\n[0:0:9]stop\n", &pats);
    assert_eq!(marks, vec![(4, 9)]);
    assert_eq!(last, 9);
}

#[test]
fn closing_on_the_opening_line_is_not_seen() {
    let pats = vec![("go", "go")];
    let (marks, _) = mark_stretches("[0:0:3]go\n[0:0:8]go\n", &pats);
    assert_eq!(marks, vec![(3, 8)]);
}

#[test]
fn rows_of_a_measured_log() {
    let marks = vec![(5, 10), (7, 20)];
    assert!(marks_readable(&marks, 30));
    let (row1, row2) = statement_rows(&marks, 30).unwrap();
    assert_eq!(row2, vec![12, 5, 13]);
    assert_eq!(row1, vec![30, 18, 13]);
}

#[test]
fn log_with_an_unmeasured_stretch_is_left_out() {
    assert!(marks_readable(&vec![(5, 10), (7, 0)], 30));
    assert_eq!(statement_rows(&vec![(5, 10), (7, 0)], 30), None);
    assert_eq!(statement_rows(&vec![(5, 5)], 30), None);
    assert_eq!(statement_rows(&vec![(0, 9)], 30), None);
}

#[test]
fn unreadable_marks() {
    assert!(!marks_readable(&vec![(10, 5)], 30));
    assert!(!marks_readable(&vec![(1, 20), (2, 20)], 30));
    assert!(marks_readable(&vec![(1, 20), (2, 12)], 30));
    assert!(marks_readable(&vec![], 0));
}

#[test]
fn no_stretches_gives_the_total_only() {
    let (row1, row2) = statement_rows(&vec![], 42).unwrap();
    assert_eq!(row1, vec![42]);
    assert_eq!(row2, vec![42]);
}

#[test]
fn first_value_is_the_last_stamp_and_rows_agree() {
    let marks = vec![(3, 4), (10, 20), (25, 29)];
    let (row1, row2) = statement_rows(&marks, 100).unwrap();
    assert_eq!(row1[0], 100);
    for i in 0..marks.len() {
        assert_eq!(row1[i], row2[i] + row1[i + 1]);
    }
    assert_eq!(row1[marks.len()], row2[marks.len()]);
}

#[test]
fn line_format() {
    assert_eq!(statement_line("123", &vec![30, 18, 13]), "123 30 18 13 \n");
    assert_eq!(statement_line("7", &vec![]), "7 \n");
}

#[test]
fn contains_finds_substrings() {
    assert!(contains(b"hello world", b"o w"));
    assert!(contains(b"abc", b""));
    assert!(contains(b"", b""));
    assert!(!contains(b"abc", b"abcd"));
    assert!(!contains(b"abc", b"ac"));
    assert!(contains(b"aab", b"ab"));
}

#[test]
fn the_plotted_series() {
    let s = series();
    assert_eq!(s.len(), 5);
    assert_eq!(s[0], ("Building stage0 compiler artifacts", "Copying stage0 rustc"));
    assert_eq!(s[2], ("Check compiletest suite=run-pass mode=run-pass", "test result: ok"));
    assert_eq!(s[4], ("Building LLVM", "Building stage0 compiler artifacts"));
}

#[test]
fn series_over_a_whole_log() {
    let log = "[0:0:1]Building LLVM\n[0:5:0]Building stage0 compiler artifacts\n[0:20:0]Copying stage0 rustc\n[0:21:0]Building stage1 compiler artifacts\n[0:40:0]Copying stage1 rustc\n[0:41:0]Testing libstd stage1\n[0:50:0]Testing libtest stage1\n[0:51:0]Check compiletest suite=run-pass mode=run-pass\n[1:10:0]test result: ok\n[1:30:0]done\n";
    let (marks, last) = mark_stretches(log, &series());
    assert_eq!(last, 5400);
    assert_eq!(marks, vec![(300, 1200), (1260, 2400), (3060, 4200), (2460, 3000), (1, 300)]);
    assert!(marks_readable(&marks, last));
    let (row1, row2) = statement_rows(&marks, last).unwrap();
    assert_eq!(row2, vec![5400 - 900 - 1140 - 1140 - 540 - 299, 900, 1140, 1140, 540, 299]);
    assert_eq!(row1[0], 5400);
    assert_eq!(row1[1], 900 + 1140 + 1140 + 540 + 299);
}
