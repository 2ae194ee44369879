# snapshot

A small tool that takes snapshots of a directory tree and compares them,
driven by a command line of keys (`-s`, `-d`, `-c`, ...) and their parameters.

- `src/components.rs`: the command line parser (`parse_commands`, `key_check`).
- `src/dir.rs`: snapshot entries, the comparison of two snapshots
  (`compare_snaps`) and the text of its report and of the tree listing.
- `src/app.rs`: the decisions of the program: what the command line asks
  for, and which working directory the configuration names.
- `src/text.rs`: decimal numbers and repeated characters.
- `app/`: the program itself: file system access, the JSON form of
  snapshots, printing.

Everything under `src/` is verified with Verus; the laws of the library are
public proof functions next to the code they speak of (`law_*`).
