# motion_illusion

A verified library behind a motion-illusion camera effect: a random colour
texture in which no two neighbouring pixels share a colour other than white,
the relief rule that recolours such pixels where the picture moves, and the
pixel plumbing between frames and a `0x00RRGGBB` display buffer.

- `src/palette.rs` – the sixteen-colour palette and its laws.
- `src/grid.rs` – row-major addressing lemmas.
- `src/frame.rs` – frames, packing into display words, cropping, shifting.
- `src/noise.rs` – texture generation and the conflict rule.
- `src/relief.rs` – recolouring of conflicting pixels under motion.
- `src/random.rs` – the calls into `rand`.
- `src/session.rs` – the capture loop's decisions.
- `app/` – the camera, OpenCV processing and the window.
