# factorio-mod-settings-converter

Converts Factorio's `mod-settings.dat` to JSON or YAML and back.

- `src/` is the verified library: the binary format (`immutable_string`,
  `property_tree`, `mod_settings`, with little-endian integers in `endian`),
  the conversion between property trees and their JSON shape (`json`), the
  document form that a JSON map gives objects (`document`), and the laws:
  byte round trips (`laws`), canonical bytes (`canonical`) and the JSON
  round trips (`json_laws`).
- `app/main.rs` is the command-line program: argument handling, files, and
  the serde glue for JSON and YAML.

A `Number` value is held as the bit pattern of its double, so the library
itself needs no floating point.
