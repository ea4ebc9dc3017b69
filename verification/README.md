# pseudofs

Parsers for the sampling of Linux' pseudo-filesystems (procfs), written in
Verus: each parser states in its contract what it reads out of the text of a
pseudo-file, and Verus proves that it does so, without panicking.

- `src/` is the verified library:
  - `text.rs`: the mathematical model of the text of a pseudo-file (lines,
    space-separated words, whitespace-separated fields, decimal numbers);
  - `splitter.rs`: the line and space splitter that the parsers share;
  - `procfs/`: the incremental parsers of /proc/stat, /proc/meminfo,
    /proc/uptime and /proc/diskstats, with the data stores that they fill;
  - `parsers/`: line-by-line parsers of /proc/stat, /proc/meminfo and
    /proc/uptime, and the parser of /proc/version;
  - `time.rs`: durations with nanosecond resolution.
  Each parser that requires well-formed input comes with a function that
  tells whether a given text is well-formed.
- `app/` holds what the library leaves to ordinary Rust: reading the files,
  querying the clock tick rate, and the samplers that feed the parsers.
- `tests/` holds the tests of the library.
