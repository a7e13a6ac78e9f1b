# sigil-s3

A bounded, read-only S3-compatible object client: path-style `GET`, `HEAD` and
one page of a ListObjectsV2 listing at a time, with anonymous, presigned and
host-signed requests.

- `src/` is the library, verified with Verus. It builds requests, decides how
  much of a response to read next, decodes responses and listings, and plans the
  exchange with a host that owns the network and the signing keys. Texts are
  modelled by their UTF-8 bytes, and every function's contract gives its result,
  errors included, for every input that its `requires` admits. Most functions
  have none; those that do ask for what machine integers or slices need, such as
  a result that can be represented or an index within bounds. Proof functions whose names begin with
  `law_` state what holds across functions.
- `tests/` runs the library.
- `app/` is the WebAssembly component around it: bindings, conversions and the
  loop that performs the reads.

One function is trusted: `text::utf8_text`, which calls `core::str::from_utf8`.
