# frontend

The parts of a compiler front end that decide and compute, written in Verus: every function states
what it returns or changes, and Verus proves it.

- `src/errors`, `src/error_messages`: diagnostics. What becomes of one that is emitted, put aside,
  delayed or captured by a parallel item, and the order in which captured ones come out.
- `src/sync`: stages of work over several threads. How they are cut into chunks, who runs what, and
  which panic a scope raises; append-only vectors, worker-local slots, and a session's mode.
- `src/interface`, `src/hir_analysis.rs`, `src/feature.rs`: a session. Which passes run, where
  outputs go, the rules that describe dependencies, and the settings of the command line.
- `src/stable_hash.rs`, `src/intern.rs`, `src/sharded.rs`, `src/base_n.rs` and the rest: data
  structures.
- `src/fx.rs`: the collections and the hasher that come from other crates. What is stated of them is
  believed, not proved. Besides, two things are believed of the standard library: what
  `String::push` does (`src/text.rs`), and that the text that `{:?}` writes for a character depends
  on the character alone (`src/error_messages/args.rs`).
- `app`: clocks, files, locks, threads and the terminal, in ordinary Rust.

Functions named `law_..` state what holds across several functions.

Locks, clocks, random values and files stay outside the library: what they yield comes in as an
argument, and what is to be done about it goes out as a value. Work that ends a scope, which a
destructor would do, is a method (`leave`, `fire`, `into_removed`).
