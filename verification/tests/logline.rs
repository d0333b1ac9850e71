use ci_logs::decimal::{parse_u64, push_decimal};
use ci_logs::logline::{
    all_lines_stamped, final_seconds, last_line_stamped, parse, try_parse,
};
use ci_logs::text::{split_lines, str_eq, substr};

#[test]
fn parse_reads_hours_minutes_seconds() {
    assert_eq!(parse("[1:02:03]hello"), ("hello", 3723));
    assert_eq!(parse("[0:0:5]"), ("", 5));
    assert_eq!(parse("[10:00:00] Building LLVM"), (" Building LLVM", 36000));
}

#[test]
fn parse_keeps_text_after_first_bracket() {
    assert_eq!(parse("[0:0:1]a]b:c"), ("a]b:c", 1));
    assert_eq!(parse("[0:1:0]héllo wörld"), ("héllo wörld", 60));
}

#[test]
fn parse_ignores_fields_after_the_third() {
    assert_eq!(parse("[1:2:3:4]x"), ("x", 3723));
}

#[test]
fn parse_accepts_plus_sign_and_leading_zeros() {
    assert_eq!(parse("[+1:007:+0]x"), ("x", 3600 + 420));
}

#[test]
fn try_parse_rejects_unstamped_lines() {
    assert_eq!(try_parse(""), None);
    assert_eq!(try_parse("hello"), None);
    assert_eq!(try_parse(" [1:2:3]x"), None);
    assert_eq!(try_parse("[1:2:3"), None);
    assert_eq!(try_parse("[1:2]x"), None);
    assert_eq!(try_parse("[12]x"), None);
    assert_eq!(try_parse("[1:2:]x"), None);
    assert_eq!(try_parse("[::]x"), None);
    assert_eq!(try_parse("[a:2:3]x"), None);
    assert_eq!(try_parse("[-1:2:3]x"), None);
    assert_eq!(try_parse("[1:+:3]x"), None);
    assert_eq!(try_parse("[1 :2:3]x"), None);
    assert_eq!(try_parse("[1:2]:3]x"), None);
}

#[test]
fn try_parse_rejects_seconds_that_overflow() {
    assert_eq!(try_parse("[18446744073709551616:0:0]x"), None);
    assert_eq!(try_parse("[5124095576030431:0:15]x"), Some(("x", u64::MAX)));
    assert_eq!(try_parse("[5124095576030431:0:16]x"), None);
    assert_eq!(try_parse("[0:307445734561825861:0]x"), None);
    assert_eq!(try_parse("[0:0:18446744073709551615]x"), Some(("x", u64::MAX)));
}

#[test]
fn parse_reads_back_a_written_stamp() {
    for (h, m, s) in [(0u64, 0u64, 0u64), (3, 59, 59), (123, 4, 5)] {
        let line = format!("[{}:{}:{}]text here", h, m, s);
        assert_eq!(parse(&line), ("text here", h * 3600 + m * 60 + s));
    }
}

#[test]
fn parse_u64_reads_as_from_str() {
    for p in ["0", "42", "+42", "007", "18446744073709551615", "18446744073709551616", "", "+", "-1", "1a", " 1", "99999999999999999999"] {
        assert_eq!(parse_u64(p.as_bytes()), p.parse::<u64>().ok(), "{:?}", p);
    }
}

#[test]
fn push_decimal_writes_as_to_string() {
    for n in [0u64, 7, 10, 99, 100, 12345, u64::MAX] {
        let mut s = String::from("x=");
        push_decimal(&mut s, n);
        assert_eq!(s, format!("x={}", n));
    }
}

#[test]
fn split_lines_splits_as_lines() {
    for s in ["", "a", "a\n", "a\nb", "a\r\nb\r\n", "\n\n", "a\nb\r\n\nc\r", "\r", "x\r\r\n", "é\nü"] {
        let ours = split_lines(s);
        let std: Vec<&str> = s.lines().collect();
        assert_eq!(ours, std, "{:?}", s);
    }
}

#[test]
fn substr_cuts_at_byte_offsets() {
    assert_eq!(substr("héllo", 0, 1), "h");
    assert_eq!(substr("héllo", 1, 3), "é");
    assert_eq!(substr("héllo", 3, 6), "llo");
}

#[test]
fn str_eq_compares_contents() {
    assert!(str_eq("abc", "abc"));
    assert!(!str_eq("abc", "abd"));
    assert!(!str_eq("abc", "ab"));
    assert!(str_eq("", ""));
}

#[test]
fn whole_log_checks() {
    let log = "[0:0:1]a\n[0:0:2]b\n";
    assert!(all_lines_stamped(log));
    assert!(all_lines_stamped(""));
    assert!(!all_lines_stamped("[0:0:1]a\nb\n"));
    assert!(last_line_stamped(log));
    assert!(!last_line_stamped(""));
    assert!(!last_line_stamped("[0:0:1]a\nno stamp"));
    assert!(last_line_stamped("no stamp\n[0:0:9]end"));
    assert_eq!(final_seconds(log), 2);
    assert_eq!(final_seconds("junk\n[1:0:0]done\r\n"), 3600);
}

#[test]
fn padded_stamps_read_back() {
    for (h, m, s) in [(0u64, 0u64, 0u64), (1, 2, 3), (9, 59, 59), (123, 5, 7)] {
        let line = format!("[{:02}:{:02}:{:02}]rest", h, m, s);
        let (text, secs) = parse(&line);
        assert_eq!(text, "rest");
        assert_eq!((secs / 3600, secs % 3600 / 60, secs % 60), (h, m, s));
    }
}

#[test]
fn seconds_depend_on_the_stamp_alone() {
    for t in ["0:0:5", "01:2:3:x", "+1:07:00"] {
        let secs = parse(&format!("[{}]first", t)).1;
        for y in ["", "other text", "a]b:c", "[9:9:9]"] {
            assert_eq!(parse(&format!("[{}]{}", t, y)), (y, secs));
        }
    }
}
