# ninja_rs

Parts of the ninja build system in Rust, for Windows hosts, with their
behaviour stated in contracts and proved with Verus.

`src/` is the verified library:

- `path` — path canonicalization (root prefixes, drive letters, `.` and `..`
  segments, `/` and `\` separators) and the long test path.
- `drive`, `includes`, `clparser`, `longpath` — same-drive test, include
  paths relative to a base, `/showIncludes` lines, NT long-path prefixes.
- `build_log` — the version 7 build log: the 16-, 32- and 64-byte delimiter
  scans, record decoding, the check that numeric fields are readable, records
  keyed by path, decimal and hexadecimal field decoders.
- `ninja`, `build`, `status` — command-line option values, build settings and
  the choice of status printer.
- `stat`, `dump`, `numeric`, `text` — file-time conversion, hex dump text,
  and the arithmetic and text helpers the rest builds on.

`app/` is the program around it: clap parsing, file and directory access, the
Windows NT calls, processor-feature detection, rayon threads, logging and the
C interface of the ninja core. `tests/` exercises the library.
