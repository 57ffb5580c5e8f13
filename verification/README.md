# zen

The byte-level part of the Zen type tooling, as a Verus-verified library.

- `src/name.rs` relabels a built face: the records that name the family are
  renamed from the upstream family to ours, the records that name the maker name
  us, the OS/2 vendor tag becomes `HNZO`, and every other table is carried across
  byte for byte. The copyright notice (nameID 0) is never touched.
- `src/laws.rs` proves what holds of a rewrite as a whole: tables are carried,
  a built `name` table reads back, the whole file sums to `0xB1B0AFBA`, a
  table's checksum can be taken over four-byte-aligned pieces and ignores zero
  padding, and a second rewrite changes nothing. That last one holds where the
  first rewrite settles the face: its output is under 4 GiB, every `head`
  table is at least 12 bytes (room for the checksum adjustment), an `OS/2`
  table is at least 62 bytes (room for the vendor tag), and the rebuilt `name`
  table fits its 16-bit count, offsets and string store. Past those limits the
  rewrite still does what it always does; only the law is not claimed there.
- `src/gsub.rs` reads the single substitutions of named layout features
  (stylistic sets and the like) out of a font's GSUB table through skrifa, so
  a static cut can draw the alternate under the original glyph id.
- `src/text.rs`, `src/sfnt.rs`, `src/svg.rs` and `src/instance.rs` hold the
  string forms and the family renaming (every "Geist" becomes "Zen"),
  big-endian fields and checksum, SVG attribute and number scanning, and the
  tables and name records a static cut writes.

`app/` is the command-line program around it: the outline geometry (kerning,
fitting, shaping) is floating point and is drawn through skrifa, so it lives
there and calls the library for the byte-level work.
