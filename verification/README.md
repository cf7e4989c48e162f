# abaqus_inp

A parser for the mesh part of Abaqus input files (`.inp`), written in Verus
and verified against its specification.

It reads `*NODE`, `*ELEMENT`, `*NSET`, `*ELSET` and `*INCLUDE` (with
continuation lines, `GENERATE` ranges and set-name references) and skips every
other keyword. Node coordinates are kept as the float literals written in the
file (`0` where absent); every one of them parses with `str::parse::<f64>`.

Layout:

- `src/text.rs`: trimming, splitting and case-insensitive comparison of characters.
- `src/number.rs`: labels (`u32`), the float-literal grammar, decimal rendering.
- `src/lexer.rs`: lines into logical records (continuation lines joined).
- `src/mesh.rs`: the mesh types, their models, and lookups.
- `src/keyword.rs`, `src/data.rs`: what keyword and data records do.
- `src/parser.rs`: reading records, `parse_str`, and `Source` for `*INCLUDE`.
- `src/laws.rs`: properties proved of every parse.
- `app/main.rs`: file reading (`parse_file`, following includes) and a CLI summary.
