# elixir_font_discovery (verified core)

The byte-level and decision logic of the Elixir Font Discovery NIF, written in Verus.

- `src/bytes.rs`: big-endian reads.
- `src/checksum.rs`: the sfnt whole-font checksum and the `head` checksum adjustment.
- `src/sfnt.rs`: scaler types and table-directory lookups of standalone faces.
- `src/collection.rs`: extracting one face of a TrueType collection as a standalone font.
- `src/layout.rs`: what an extracted face is made of, and that it sums to the magic value.
- `src/face.rs`: the standalone font for a font file, refusing variable fonts.
- `src/family.rs`: the candidate families for a requested family name.
- `src/resolve.rs`: the decisions taken while trying the candidate families.
- `app/lib.rs`: the NIF itself, which queries the system font source through font-kit,
  reads font files and encodes the answer with rustler.
