# gdtf_share

A client for the GDTF Share API and an indexed library of its fixture entries, written in
Verus with its behaviour stated in contracts and proved.

- `src/` is the verified library:
  - `client.rs` builds the login, list and download requests and reads their responses
    (session cookie, status codes);
  - `http.rs` holds requests and responses as plain values;
  - `error.rs` holds the client's errors and their messages;
  - `library.rs` indexes entries by revision, UUID and each searchable field, lists all or the
    latest revisions, and searches by words; its model is the map of held entries, from which
    every index and the latest revision of each UUID follow;
  - `query.rs` combines exact and range filters over those indexes, and states how setting
    filters composes (order, overwriting, narrowing, empty and unbounded ranges);
  - `index.rs`, `order.rs`, `text.rs` and `revision.rs` hold the index structures (ordered
    maps for numbers and UUIDs, a sorted list searched by bisection for text), sorted listings,
    text operations and revision ids they rest on.
- `app/` sends the requests over HTTP with `ehttp`, decodes the JSON entry list with `serde`,
  and holds the serde forms of the entry types.
- `tests/` runs the library on concrete values.
