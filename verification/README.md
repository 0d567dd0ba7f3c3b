# soloband

A MusicXML score library with a verified core, written in Verus.

`src/` is the verified library. Every function there is verified by Verus
against its contract; the one that reads the wall clock (`choir::unix_time_ms`)
has no contract on its value, and what it does with the reading is the
verified `choir::unix_ms_from_elapsed`:

- `text`, `decimal`: character-level utilities and decimal numerals.
- `xml`, `musicxml`, `mxl`: the element tree of a parsed document, the
  MusicXML reader, compressed `.mxl` archives and the choice between the two.
- `model`: the score model (alterations in cents).
- `transpose`, `unroller`: transposition, and the play order of a part
  with repeats, voltas and jumps.
- `midi`, `melody`, `chords`, `accompaniment`, `timing`: Standard MIDI File
  encoding, melody events, chord analysis and voicing, what each
  accompaniment instrument plays, and the exact part of the timemap.
- `top_layer`, `note_timeline`, `notation`, `jianpu`: note selection, the
  melody used for performance feedback, and engraving decisions that do
  not depend on coordinates.
- `options`, `overlay`, `wav`, `choir`: option parsing, SVG layering, the
  WAV container, and the decisions of the choir synchronisation protocol.

Calls into roxmltree, zip and std that the logic needs go through small
trusted functions whose contracts name what the call returns.

`app/` is ordinary Rust around the library: file reading, timing in
milliseconds and the MIDI tick grid (floating point), audio rendering with
rustysynth, JSON with serde, and the choir's networking with tokio,
tokio-tungstenite and mdns-sd.

SVG rendering of scores (layout, engraving at coordinates, the jianpu
renderer) and the playback map built on that layout are not provided: they
are floating-point geometry throughout. The library keeps the engraving
decisions that do not depend on coordinates (`notation`, `jianpu`,
`top_layer`).

`tests/` holds the tests.
