# visterm

A terminal toolkit that turns pictures and video into Braille or text art and
runs a snake game. The library in `src/` is verified with Verus; `app/` is the
interactive program around it (menus, terminal input and output, image
decoding, ffmpeg, the game and playback loops).

Library modules:

- `ramp` — brightness to glyph on a density ramp.
- `braille` — 2×4 pixel blocks to Braille characters, optionally coloured.
- `art` — pictures to text art, and art without colour codes for saving.
- `frames` — key/delta encoding of rendered video frames and their terminal output.
- `player` — playback decisions: pause, resume, quit, next frame.
- `snake`, `rng`, `keys` — the snake game's rules and its XorShift generator.
- `picture` — RGBA pictures and nearest-neighbour scaling (through the `image` crate).
- `probe`, `text`, `choices`, `ui`, `decimal` — reading the video prober's reply and
  menu answers, progress bars, banners, decimal digits.
