# bytecode_deps

Tests and scripts of a Solidity project often hold the bytecode of the contracts they exercise:
`new Counter(1)` and `type(Counter).creationCode` both compile `Counter` into the test. Whenever the
body of `Counter` changes, the test has to be compiled anew.

This library finds such references, replaces those that can be replaced by calls of cheatcodes
(`deployCode`, `getCode`), and reports the files that stay natively linked. It is written in Rust and
verified with Verus.

## Layout

| Path | What it holds |
| --- | --- |
| `src/hir.rs` | the resolved syntax, as far as references depend on it |
| `src/dependency.rs` | a single reference, and how it is read from a call |
| `src/collector.rs` | the walk over a contract, and what becomes of each reference |
| `src/imports.rs` | the import graph |
| `src/deps.rs` | the analysis of a compiler job |
| `src/rewrite.rs`, `src/updates.rs` | the text that replaces references, and where it goes |
| `src/path.rs`, `src/path_set.rs`, `src/project.rs`, `src/remapping.rs` | paths, project layout, remappings |
| `src/text.rs` | slices, prefixes, order and decimal numbers |
| `src/references.rs`, `src/layout.rs`, `src/laws.rs` | what is proved of the whole |
| `app/` | takes over the syntax from the `solar` compiler and looks paths up on disk |

## What is proved

Every function states exactly what it returns. Beyond that:

* no reference to a source is lost: it is replaced, or its file is linked natively;
* only a reference whose replacement means the same is replaced; scripts, free functions and creation
  code in pure functions are left alone;
* the updates to a file do not overlap, where its syntax is laid out as the grammar asks;
* a job classifies the files it looks at and no others, and running it again changes nothing.

## What is trusted

Wrappers around `Path::components`, `Path::join`, `Path::strip_prefix`, `PathExt::to_slash_lossy`
(`path-slash`), `ProjectPathsConfig::is_source_file` (`foundry-compilers`) and `Itertools::join`
(`itertools`). Their contracts stand above them, in `src/path.rs`, `src/project.rs` and `src/text.rs`.
Paths are read as `std::path` reads them on the platform the crate is built for.
