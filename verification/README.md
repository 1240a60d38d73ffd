# vellum_lyrics

A terminal lyrics display that shows one word at a time, driven by the
timestamps of enhanced LRC. The library in `src/` is verified with Verus;
`app/` is the thin program around it (terminal, MPRIS, process spawning,
font rasterising).

- `src/text.rs` – Unicode whitespace, trimming, scanning, decimal parsing.
- `src/lyrics.rs` – the LRC / enhanced-LRC parser, its specification
  (`lrc_flow`, `parse_lrc_result`), stable ordering by start time, the
  active-word lookup, and the laws proved about them.
- `src/app.rs` – the loaded lyrics, the active word and the status line.
- `src/control.rs` – the front end's decisions: request bookkeeping, what
  each frame draws, the wait until the next frame, fetch commands.
- `src/screen.rs` – terminal geometry, theme colour, redraw decisions.
- `src/kitty.rs` – Kitty graphics commands (base64 payload in chunks).
- `src/player.rs` – track title/artist and playback position.
