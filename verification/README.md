# ci_logs

Tools for looking at how long CI builds of rust took, from their logs. Every
line of a build log starts with a stamp `[h:m:s]`, the time since the build
started.

The library (`src/`, verified with Verus):

- `logline`: reading a stamped line into its text and seconds.
- `text`, `decimal`: lines as `str::lines` splits them, substrings by byte
  offset, and decimal numbers as `u64::from_str` reads and `to_string` writes them.
- `compare`, `order`: the lines of one log that came more than ten seconds
  later than the same lines of another, sorted.
- `statements`: how long the stretches between pairs of log statements took,
  and the rows written for plotting them.
- `runs`: which saved logs are plotted, and the row for the total time.
- `appveyor`: the build history of AppVeyor listed page by page, and which
  builds, jobs and logs are fetched.

The program (`app/`) does the file and network work around it:
`download-logs <token>`, `compare-two-logs <a> <b>`, `plot-total-time <dir>`
and `plot-two-log-statements <dir>`.
