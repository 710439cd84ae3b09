# cs252chkr

Retrieves and displays useful metadata about a git repository for grading purposes: the
initial commit, each author's commit count and changed lines, and an estimate of the time each
author spent (the git-hours algorithm).

- `src/` is the verified library. `git.rs` holds the statistics over a list of commit records
  (per-author counts, the session-based time estimate, the initial commit, pathspec splitting,
  patch line classification); `lib.rs` holds the error type, the `CommitMetadata` trait and
  `zip_by_author`; `timeline.rs` orders commits by time (a stable insertion sort) and states
  each author's estimate over that author's commit times in ascending order, whatever order the
  commits were walked in; `pairing.rs` proves how `zip_by_author` behaves when its lists are
  swapped or its first list is permuted; `datetime.rs` holds the time range, minute arithmetic and humanized text,
  calling chrono and chrono-humanize; `structs.rs` and `constants.rs` hold the records and
  settings.
- Per-author tallies are kept in vectors searched by author name rather than in a `HashMap`
  keyed by `String`: vstd specifies `HashMap` usefully only for keys whose hashing it knows, and
  with `String` keys not even the length after an insert can be proved. Sorting is done by
  insertion sorts written and proved here, since vstd gives `slice::sort_by` no specification.
- `app/` is the command-line program: it reads the repository with git2, hands the library
  plain commit records, and prints the report.
- `tests/` exercises the library on concrete histories.
