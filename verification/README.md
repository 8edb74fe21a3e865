# lox

A front end for the Lox scripting language, verified with Verus, and a
tree-walking interpreter around it.

## Layout

- `src/` is the verified library.
  - `token.rs`, `range.rs`: tokens, keywords and source spans.
  - `text.rs`: UTF-8 facts and byte-level helpers on source text.
  - `ident.rs`: the Unicode identifier classes, from `unicode-ident`.
  - `lexer.rs`: the lexer, against `lex`, a specification of what it reads
    from every offset.
  - `string.rs`: Lox string values and the unescaping of string literals,
    against `unescape_bytes`.
  - `ast/`: expressions and statements, their identities, and their shapes
    (the trees as the grammar speaks of them).
  - `grammar.rs`: the grammar as the parser reads it: for every rule, what
    a source parses to from a cursor, or the error met and where parsing
    stands after it, panic-mode recovery included.
  - `parser.rs`: the recursive-descent parser; each parsing function is
    proved to give what its rule of the grammar gives, and a parse to give
    every expression its own identity and to read every name from the
    source.
  - `resolver.rs`: the scope resolver, against a model of its scopes.
  - `environment.rs`: variable stores and a tree of enclosing environments.
  - `native.rs`: the native functions' names and arities.
  - `report.rs`: the lines shown for lexical, syntax and resolution errors.
- `app/` is the `minilox` program: reading a script, the evaluator, which
  computes with floating-point numbers, values, native calls and the
  interactive loop.
- `tests/` runs the library on concrete sources.
