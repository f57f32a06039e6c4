# penguin_game

A 2D platformer in which a penguin rocket-jumps through a level. This crate is
the game's logic, verified with Verus; the window, drawing, floating-point
physics and the command line live in `app/`.

## Layout

- `src/level_parsing.rs`, `src/raw_level.rs`, `src/levels.rs`: the binary level
  format (`penguinlevel-bin-v0`), parsed into a raw level whose coordinates are
  the IEEE-754 bit patterns stored in the file. `parse` is specified exactly by
  `spec_parse`.
- `src/demo.rs`: the text format of demo movies (`penguindemo-text-v0`), their
  playback and their recording. Look angles are kept as the decimal text of
  degrees. `src/demo_laws.rs` proves that writing a movie and reading it back
  gives the same movie, and that playing a recording back gives, update by
  update, the inputs that were recorded.
- `src/input.rs`: inputs, sets of inputs, and the device that plays a movie up
  to an update and then hands over to another device.
- `src/game_rules.rs`: fuel, rocket cooldown, the time to live of rockets,
  explosions, tooltips and status icons, and the choice of update rate.
- `src/launch.rs`: which level and which demo movie the game starts with.
- `src/pico_args.rs`: a small command-line argument parser over raw bytes.
- `src/wasm.rs`: the option records that the browser page hands over, and the
  demangling of stack traces.
- `src/text_utils.rs`: byte and text helpers shared by the above.
- `app/`: the game itself, built on the library with `macroquad` and `parry2d`.
