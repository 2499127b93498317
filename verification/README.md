# wasm_calling

A calling convention for wasm exports whose arguments and results cross the
boundary as streams of scalars, and the post-processing that turns such
exports into ordinary wasm functions.

A wrapped export reads each argument, and writes its result, through calls of
helper imports named `wasm_calling_support_*`. The post-processing finds those
helpers and the exports named `WRAPPED_*`, walks the blocks of each wrapped
function from its entry, and rebuilds it: every call of an input helper
becomes a read of the next parameter, every call of an output helper a store
into the next result local, and the body ends by reading the result locals.

Layout:

- `src/` is the verified library (Verus).
  - `wasm.rs`: the model of the parts of a module that the rewriting reads.
  - `rewrite.rs`: the scan of a wrapped function and the rebuilding of it,
    with the laws that tie the two together.
  - `postprocess.rs`: what the post-processing does to a whole module.
  - `support.rs`: the helper imports and the signature metadata exports.
  - `naming.rs`: the names of wrappers and metadata, and how they are read back.
  - `value.rs`: reading a constant as a count.
  - `magic_arg.rs`: the scalar encoding of values, with its round trip.
  - `wrapping.rs`: what the wrapping and the derivation decide before any
    code is written.
  - `calling_test.rs`: the sample functions.
- `app/` is the program around it: loading and writing the module with
  `walrus`, converting between `walrus` and the model, and the token
  generation of the wrapping and derivation with `syn` and `quote`.
- `tests/` holds the tests of the library.
