# typewriter

The front end of a small statically typed language that is embedded in
JavaScript, written in Verus: every function of the library carries a
contract that Verus proves.

## Layout

- `src/parser`: a recursive descent parser from source text into an
  arena of IR nodes (`src/ir`), with the type signatures it reads interned
  in a type table. `src/parser/grammar.rs` states the language it reads
  as spec functions; each parsing function succeeds exactly where the
  language reads something, and ends where it ends (unless the type table
  fills up).
- `src/symbols`: scoped symbol tables (a tree of tables walked with a
  zipper), the collector that fills them from a program, and the resolver
  that checks every name against them.
- `src/type_checker`: constraint gathering, constraint solving into a
  substitution, applying it, and the final checks (assignments, struct
  and enum initializations, names used as values).
- `src/pipeline.rs`: the phases one after the other.
- `app/`: the WebAssembly entry point.
- `tests/`: scenario tests, and tests of the laws that the library proves.

Symbols live in an `id_arena::Arena`; the library calls it through a few
functions whose contracts state what the arena does.
