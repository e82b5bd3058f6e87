# llama

Inference for Llama-style language models, written and proved in Verus: loading weights from a
safetensors archive, the forward pass with its key-value cache, sampling, text generation, chat
sessions with history and rollback, and a manager that finds sessions by identifier.

* `src/` is the verified library. Scalars are abstract: the operators are written against the trait
  `arith::Arithmetic`, and a contract states which of its operations are applied to which values,
  in which order. `laws.rs` states what holds of the library as a whole; some of it holds of
  arithmetic whose operations have one result each (`determined.rs`), and some needs that products
  of 0 and the values that occur add nothing (`pieces.rs`).
* `app/` supplies single-precision arithmetic, reads models from disk, prints progress and lets
  threads share sessions.
* `tests/` runs the library with `f32`.

What is taken on trust is in `archive.rs` (the safetensors parser), `manager.rs` (random
identifiers) and `sampling.rs` (the standard library's sort).
