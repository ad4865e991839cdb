# ricevm_limbo

Parts of a compiler for the Limbo language of the Inferno operating
system, targeting the Dis virtual machine, written in Verus: the lexer, the
parser, the symbol tables of module interfaces with their constants, the
storage layout and opcode choices that code generation rests on, and the
Dis module writer. The pass that walks function bodies and emits Dis
instructions is not part of this crate.

`src/` is the verified library:

- `token.rs`, `lexer.rs`: tokens and the lexer. `tokenize` returns tokens
  that end with exactly one `Eof`, stand in source order, and are at most
  one more than the source's bytes.
- `ast.rs`, `parser.rs`: the syntax tree and a recursive descent parser with
  Pratt parsing for expressions. An expression's tree is stated against a
  grammar over tokens (`expr_rel`) that encodes the binding powers, call
  arguments and slices included. Types, `if`/`while`/`do`/`for` statements,
  blocks, `case`/`alt`/`pick` arms, exception and type-alias declarations
  and a file's top-level items are stated against the tokens too; module
  and ADT members and function signatures are stated by their shape only.
  Every parsing step only moves forward, and a parsed file has been read to
  its `Eof`.
- `symtab.rs`: resolved types and the symbol table, with maps from names to
  symbols.
- `includes.rs`: resolving declared types, building the symbol tables of
  module interfaces, and folding their constant expressions (integer and
  string arithmetic, `iota`, earlier constants); real arithmetic is left
  to an implementation of the `Reals` trait.
- `codegen.rs`: the storage classification and byte layout of values,
  tuples and ADT records, pointer maps, operands, the choice of move and
  channel opcodes, the words that constants store, and the folding of
  integer and string constants.
- `writer.rs`: a Dis module in memory and the Dis binary format it is
  written in, byte for byte.
- `text.rs`: decimal text, and the quoted `Debug` text that std gives
  strings and characters.

`app/` holds the error types that implement `std::error::Error`, reading
include files from disk, and the `Reals` implementation over `f64`.

`tests/` holds the tests.
