# hq

Query HTML files by CSS selector, and find which CSS rules the HTML files use.

- `src/` is the library, verified with Verus:
  - `css.rs`: style rules, read from a stylesheet with cssparser, and
    `prune_css`, which removes rules from a stylesheet;
  - `prune_laws.rs`: laws of `prune_css`;
  - `check_css.rs`: the table of selectors under test, marking them used as
    HTML documents match them, the results and the pruned stylesheets;
  - `engine.rs`: checking selectors and counting their matches with lol_html;
  - `text.rs`, `paths.rs`: white space, lines, trimming, file extensions;
  - `scan.rs`: what a query computes once files are read, and exit codes;
  - `progress.rs`, `error.rs`.
- `app/` is the `hq` command: arguments, file walking and reading, worker
  threads, output and exit codes.
- `tests/` runs the library on concrete values.
