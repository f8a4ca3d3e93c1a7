# mcping-api

A library that knows how Minecraft servers say what they are, and how the game draws it, and a small
HTTP service on top of it.

- `src/minecraft/` speaks the status protocols of Java servers (new and old), Bedrock servers, the
  full query and SRV records: which bytes to send, what an answer means, what to do next. It reads a
  server's status from its JSON, flattens text components to styled spans, and draws descriptions,
  cards and server lists pixel by pixel.
- `src/api.rs` holds the decisions of the HTTP service.
- `app/` is the service itself: sockets, files, the clock, and the HTTP server. It also reads numbers
  with a fraction, which the library takes as plain integers.
- `tests/` runs the library on known values.

Everything in `src/` is verified with Verus: each function states what it returns, and the modules
state what holds of them as a whole (that what was written is read back, that no character of a
description is lost, that merging spans keeps their text, and the like). What the library believes of
other code without proof stands in one file, `src/minecraft/outside.rs`.

The service needs the game's font and pictures under `assets/minecraft` (or where the environment
variable `ASSETS` points): `mcfont.bin`, `unifont_bmp.bin`, `sprites/ping_1.png` to `ping_5.png`,
`sprites/unreachable.png`, `gui/options_background.png` and `gui/button_1165.png`.
