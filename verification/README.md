# two_phase_interner

Interning of strings and byte arrays in two phases: collect values (each
distinct value gets an `Atom` handle and a usage count), then `optimize`
to lay the values down most-used first, and `serialize` them behind
ULEB128 length prefixes.

An `Atom` carries two numbers. `id` is the value's place in first-interned
order and never changes: `resolve`, `resolve_index` and
`resolve_index_bytes` go by it, so atoms handed out before `optimize` keep
naming their values and offsets. `handle` is the value's position in
storage when the atom was handed out; `optimize` moves values, so an
`intern` after `optimize` returns the new position as its handle.

Layout:

- `src/storage.rs`: the `Internable` and `Storage` traits and the two
  storages (`StringStorage` over a `String`, `ArrayStorage` over a `Vec<u8>`),
  with the UTF-8 boundary reasoning that makes string slices safe.
- `src/order.rs`: the rank order used by `optimize` (count descending, then
  length ascending, then insertion order), a verified stable sort, and the
  proof that the order is unique.
- `src/uleb.rs`: the ULEB128 encoding as a specification and the call into
  the `leb128` crate.
- `src/interner.rs`: `Interner` and `Atom`, with their contracts.
- `src/laws.rs`: properties that span several calls, including laws over
  whole runs of `intern`, `optimize` and `serialize`.
- `app/lib.rs`: an interactive session on standard input and output.
