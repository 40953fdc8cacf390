# nxtop

The logic of a terminal system monitor, verified with Verus: it reads the
text of `/proc` and `/sys`, keeps per-core CPU histories, rates of network
interfaces, a filterable and tree-shaped process list, and builds the texts
and bars that the screens show.

- `src/text.rs` — lines, words, trimming and searching in text, each with
  a specification that says what the standard library's function returns.
- `src/num.rs` — decimal numbers: reading them as `str::parse` does and
  writing them.
- `src/order.rs` — lexicographic order and a stable sort by key.
- `src/proc.rs` — parsers for `/proc/stat`, `/proc/meminfo`,
  `/proc/net/dev`, `/proc/[pid]/stat`, hwmon sensors, DRM cards and
  `nvidia-smi` output.
- `src/tree.rs` — the process tree, flattened in depth-first order.
- `src/app.rs` — the monitor's state: histories, tabs, selection, filter,
  tick and byte deltas.
- `src/theme.rs` — thresholds, bars and row labels.
- `app/` — reading the files, running commands, the floating-point figures
  and the ratatui drawing.
- `tests/` — scenarios, and comparisons with the standard library's own
  functions.
