# rom

A monitor for Nix builds: it reads the output of `nix` (its internal JSON
log format, or the human-readable lines) and draws the state of a run —
a dependency tree of the running and failed builds with a legend, a plain
list, or a dashboard — and a summary when the run ends.  It keeps a history
of build times, from which running builds get an estimate.

The library is written in Verus; every function in `src/` is verified
against its contract.

- `src/` — the verified library: the nix log model (`nix`, `paths`,
  `types`), the run state and its summaries (`state`, `summary`, `ordered`,
  `activity_model`), the reaction to each message and line (`update`,
  `monitor`), the build history and its file format (`cache`, `calendar`),
  the command line (`cli`), and everything drawn on screen (`render`,
  `tree`, `view`, `display`, `icons`, `term`, `text`, `lowercase`).
- `app/` — the program around it: argument parsing, running `nix`, reading
  its output, timing, and writing to the terminal and the history file.  The
  `.drv` files below a started build are read with
  `nix derivation show --recursive` and handed to the library's walk step.
- `tests/` — tests of the library on concrete values.
