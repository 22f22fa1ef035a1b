# Cleave

The tiling rules of an auto-tiler for the [niri](https://github.com/niri-wm/niri) compositor, verified with
[Verus](https://github.com/verus-lang/verus).

The tiler manages up to `-n <N>` windows per workspace. One window fills the screen, two share it, the third
and the fourth are stacked onto them, and the fifth and the sixth form a third column. The seventh window
starts a screenful of its own.

- `src/` holds the rules. `rules.rs` states them, `settle.rs` and `cleave.rs` carry them out, and `laws.rs` and
  `pattern.rs` prove what holds of them as a whole. `fraction.rs` computes widths in double precision with
  whole numbers. `niri.rs` is the border to `niri_ipc`: what is believed of that crate is stated there.
- `app/` is the program: it talks to niri and carries out what the rules ask for.
- `tests/` runs the library.
