# sv_parser_pp

The verified core of a SystemVerilog preprocessor.

- `src/preprocessed.rs`: the preprocessed text, and for every byte of it the
  file and byte position it came from (`PreprocessedText`, `Origin`).
- `src/macro_text.rs`, `src/macros.rs`: cutting a macro body into pieces,
  binding actual arguments and defaults, and expanding a macro use.
- `src/defines.rs`: the table of defined macros.
- `src/directives.rs`: which bodies of `` `ifdef``/`` `ifndef`` groups are
  kept, and the file name an `` `include`` names.
- `src/preprocessor.rs`: the state of the walk through one file and what each
  step of the walk does.
- `src/laws.rs`: properties that span several of the functions above.
- `app/lib.rs`: reading files, running the preprocessor grammar, and driving
  the walk; it uses the grammar and syntax-tree crates of the parser.

- `app/grammar/`: the SystemVerilog grammar parsers (expressions, package
  items and delays) with their syntax-tree types. They are built from parser
  combinators around sub-parsers and node types of the grammar crate that are
  not part of this project's sources, so they stay outside the library.

`app/` reads each macro's arguments and body from the file that defines it,
when the definition is met.
