use ci_logs::runs::{in_window, run_number, total_time_line, MAX, MIN};

#[test]
fn run_numbers_from_file_names() {
    assert_eq!(run_number("1234"), Some(1234));
    assert_eq!(run_number("+5"), Some(5));
    assert_eq!(run_number("0"), Some(0));
    assert_eq!(run_number("12a"), None);
    assert_eq!(run_number(""), None);
    assert_eq!(run_number("msvc"), None);
}

#[test]
fn window_of_plotted_runs() {
    assert_eq!(MIN, 0);
    assert_eq!(MAX, 10_000);
    assert!(in_window(0));
    assert!(in_window(10_000));
    assert!(!in_window(10_001));
}

#[test]
fn total_time_line_format() {
    assert_eq!(total_time_line("1234", 5400), "1234 5400\n");
    assert_eq!(total_time_line("7", 0), "7 0\n");
}
