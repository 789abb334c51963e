# objj

An Objective-J compiler, assembler and method tree-shaker, written in Verus.
It compiles `.j` source into JavaScript, follows `@import`s to bundle a whole
application into one output, and can leave out the methods nothing reaches.

## Layout

- `src/` — the verified library
  - `lexer.rs` — the token grammar as spec functions, and the lexer proved
    to produce exactly those tokens
  - `compiler.rs` — the preprocessor and compiler (`compile`): imports,
    `#define` macros, `#if` conditions, classes, methods, message sends
  - `expr.rs` — evaluation of `#if` conditions over exact fractions
  - `analyzer.rs` — the method reachability analysis
  - `assembler.rs` — following imports (a question-and-answer state machine
    that leaves file access to the caller), ordering, bundling, pruning and
    minifying
  - `paths.rs` — path normalisation and resolution
  - `tables.rs`, `buffer.rs`, `text.rs`, `scan.rs`, `classes.rs` — macro and
    class tables, output buffers, text helpers, regular-expression matches
    and character classes (the `regex` crate is called through a few
    wrappers whose contracts are trusted)
- `tests/` — tests of the library
- `app/` — the `objjc` command-line program: arguments, files, printing

## Usage

```sh
objjc compile <file.j> [--debug] [--types] [-o OUT]
objjc bundle  <main.j> [--base DIR] [--framework DIR]... [--tree-shake]
              [--mode safe|moderate|aggressive|off] [--minify] [--onload]
              [--verbose] [-o OUT]
objjc exe     <main.j> [bundle options] [-o OUT]
```

`exe` bundles the application, puts the Objective-J runtime before it
(`OBJJ_RUNTIME_PATH`, or `<prefix>/share/objj/Runtime.js` next to the
installed binary), adds a call to the program's `main(args, argc)` and builds
a native binary with `bun build --compile` (bun must be on the `PATH`). Without
`-o` the binary is named after the main file's stem.

Framework imports (`@import <Foo.j>`) are searched in the directories given
with `--framework`, then in the project's `Frameworks` folder, then in the
shared frameworks directory (`OBJJ_FRAMEWORKS_PATH`, or
`<prefix>/share/objj/Frameworks` next to the installed binary).
