//! Which saved logs are plotted, and the line written for each of them when
//! plotting how long whole builds took.

use vstd::prelude::*;
use vstd::string::*;
use crate::decimal::{ascii_text, decimal_bytes, parse_u64, push_decimal, spec_parse_u64};

verus! {

/// The smallest build number that is plotted.
pub const MIN: usize = 0;

/// The largest build number that is plotted.
pub const MAX: usize = 10_000;

/// The build number that a log's file name gives, as `usize::from_str` reads
/// it, or `None` where the name is not a number.
pub open spec fn spec_run_number(name: Seq<u8>) -> Option<usize> {
    match spec_parse_u64(name) {
        Some(v) => if v <= usize::MAX {
            Some(v as usize)
        } else {
            None
        },
        None => None,
    }
}

/// Reads the build number from a log's file name.
pub fn run_number(name: &str) -> (r: Option<usize>)
    ensures
        r == spec_run_number(name.spec_bytes()),
{
    match parse_u64(name.as_bytes()) {
        Some(v) => if v <= usize::MAX as u64 {
            Some(v as usize)
        } else {
            None
        },
        None => None,
    }
}

/// Whether the build numbered `num` is plotted.
pub fn in_window(num: usize) -> (r: bool)
    ensures
        r == (MIN <= num <= MAX),
{
    MIN <= num && num <= MAX
}

/// The line written for a log: its name, a space, the seconds the build took
/// and the end of the line.
pub fn total_time_line(name: &str, secs: u64) -> (r: String)
    ensures
        r@ == name@ + seq![' '] + ascii_text(decimal_bytes(secs as nat)) + seq!['\n'],
{
    let mut s = String::from_str(name);
    s.append(" ");
    push_decimal(&mut s, secs);
    s.append("\n");
    proof {
        reveal_strlit(" ");
        reveal_strlit("\n");
    }
    s
}

} // verus!
