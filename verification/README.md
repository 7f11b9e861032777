# labby-gateway

The decision-making core of an MCP gateway's upstream pool, written in Verus:
exposure allowlists, the cached tool / resource / skill catalogs, task routes,
bounded and deterministic listings, and the choices made around each upstream
request. The public functions of `src/` carry `requires` / `ensures` contracts
that Verus proves (a few private helpers and trait methods rely on their
callers' contracts instead); laws that relate several functions are public
`law_*` proof functions.

Layout:

- `src/` — the verified library, one module per concern (see each module's
  header comment). The modules take plain values: a caller reads the world
  (catalog state, clock, the replies of upstreams) and hands them in, and acts
  on what comes back.
- `app/` — ordinary Rust around the library: conversions from `rmcp` types,
  child-process supervision, the stderr forwarding task, and the async loops
  that perform the I/O the library decides on.
- `tests/` — executable tests of the library on concrete values.

Trusted boundary: the few `#[verifier::external_body]` wrappers (an `anyhow`
rendering and context, `base64` decoding, two `rmcp` error-code constants,
`Arc::clone` and collecting characters into a `String`) are documented where
they stand; nothing else is assumed.

What the library leaves to its embedder:

- Redaction of forwarded stderr. Each forwarded line must be scrubbed of
  secrets before it reaches the diagnostic tail or a log. The scrubbing rules
  belong to the gateway's runtime crate, which this workspace does not
  contain; `app/stderr_forward.rs` therefore takes the scrubber as an argument
  and applies it to every line it forwards.
- Connection incarnations and generations. Whether a listing or read outcome
  is stale is decided here (`observed_listing_applies`,
  `apply_observed_resource_list_*`, `exact_read_applies`), but the
  incarnation and generation numbers come from the caller.
- Paging of resource and template listings: the library receives complete
  listings.
