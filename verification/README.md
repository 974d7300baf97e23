# drf-parser

Readers for Cadence display resource files (`display.drf`), layer-map files
and KLayout layer-property files (`.lyp`), with their behaviour stated as
Verus contracts and proved.

- `src/text.rs`, `src/num.rs`: characters, whitespace, search, trimming,
  replacement, and unsigned numbers read from and written as text.
- `src/named_map.rs`: a map from names to values that keeps insertion order
  and never holds two entries of one name.
- `src/ast/`: colors, stipples, line styles, packets and displays.
- `src/parser/reader.rs`: the word reader and its bracket stack.
- `src/parser/drf.rs`: the display-resource parser; `src/parser/mod.rs`: the
  older parser for definition names written with their `(`.
- `src/parser/layermap.rs`: the layer-map parser.
- `src/parser/lyp.rs`: the layer-property reader, which builds one display
  and a layer map and checks that they are consistent.
- `app/`: the command-line program, file reading, JSON output and the
  WebAssembly exports.
