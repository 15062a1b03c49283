# wks

Small text tools, with their logic as a verified library.

- `src/` is the library, verified with Verus. Each module holds the logic of
  one tool and states it in contracts over `Seq<char>` views:
  - `lib.rs`: delimiter aliases and their closing partners;
  - `text.rs`: splitting, joining, lines, trimming, searching and numbers;
  - `github_url.rs`: reading GitHub links (the URL grammar itself is left
    to the `url` crate);
  - `brath.rs`: finding the branch in a `branch/path` argument;
  - `termdown.rs`: resolving wall-clock and relative times (local time zone
    rules are left to `chrono`);
  - `bacon.rs`, `confirm.rs`, `propose.rs`, `anki.rs`, `links.rs`,
    `partialsort.rs`, `shift.rs`, `strip_wrapper.rs`, `wrap_block.rs`,
    `velvidek.rs`, `qrtool.rs`, `walk.rs`: the other tools.
- `app/` is the program: one subcommand per tool, doing the reading,
  printing, process spawning and argument handling.
- `tests/` runs the library on concrete inputs.
