# FlipperClipper

The verified core of a small video editor: open a clip, trim it, crop it, change its speed, and
export it with FFmpeg.

- `src/` is the library. Everything that decides something is here, with contracts that Verus
  proves: the command line an export runs, the speed curve, sizes and rates, what a probe's report
  says, the settings file, which update is offered, where FFmpeg is looked for, how progress and
  failures are reported.
- `app/` is the window around it: Tauri commands, processes, files and the network.
- `tests/` runs the library.

Quantities with a fraction are whole billionths, so that every rounding is stated. The one thing a
curve needs that whole numbers do not give, the logarithm of the ratio of two speeds, is handed in
by the caller, in units of 10^-15.

What is taken on trust is written where it is called: `serde_json` in `src/json.rs`, `semver` in
`src/version.rs`, and a few functions of the standard library in `src/text.rs` and
`src/sysutil.rs`.
