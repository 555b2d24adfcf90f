# elemaudio-resources

Resource ownership for audio demos, with its behaviour proved by Verus.

- `src/text.rs` — character helpers: Unicode white space, trimming,
  splitting, decimal digits.
- `src/resource.rs` — resource identifiers and the names derived from file
  names, interleaved audio buffers and their channels, the kinds of
  resource, and `ResourceManager`, which owns resources by identifier.
- `src/http.rs` — request targets and query strings, request lines,
  `Content-Length` headers, response heads.
- `src/server.rs` — the resource server's decisions: routes, what each
  route does to the store and to playback, listings, WAV export headers.
- `src/laws.rs` — properties that hold across operations.
- `app/main.rs` — the HTTP server itself: sockets, WAV decoding and sample
  conversion, JSON and binary encodings of listings.

Sample values are a type parameter of the library; the server uses `f32`
and `f64`.
