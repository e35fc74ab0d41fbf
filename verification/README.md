# blastr

A nostr relay that runs as a Cloudflare worker and publishes the events it
receives to all known online relays. Events are put on ten work queues; the
consumer of each queue sends its batch to its own share of the online relay
list. Events already published are refused, and nostr wallet connect (NIP-47)
requests and responses are kept in a D1 store and served to subscribers
instead of being broadcast.

## Layout

- `src/` is the verified core, written with Verus:
  - `queues.rs`: queue names, the share of relays of each queue consumer, the
    relay list and its fallback.
  - `event.rs`: events as plain values, their equality and the byte order of
    ids, and the calls into the `nostr` library (tag references, signature
    checks).
  - `client.rs`: reading what a client sends (through the `nostr` library's
    parsers) into an event, a subscription request or anything else, the
    decoding of a filter's `#e` and `#p` queries, and what the HTTP and
    websocket handlers do with each.
  - `filter.rs`: subscription filters and how a connection merges them.
  - `order.rs`: the two event orders, a stable sort and the removal of
    repeated neighbours, with their laws.
  - `nwc.rs`: the wallet connect store's queries, the assembly of stored
    events, the answers to store writes, soft deletes, and what a
    subscription poll sends.
  - `message.rs`: the steps of taking in a client's event, and the decisions
    of the websocket subscription handling.
- `app/` is the worker around it: HTTP and websocket endpoints, KV, D1, queues,
  the cache and the upstream websockets.
- `tests/` runs the library on concrete values, with real signed events.
