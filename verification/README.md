# reflex

The core of a general-purpose proxy, written and verified in Verus.

`src/` is the library. Every function there has a contract that Verus proves:

- `text`, `net`, `table`, `buf`: characters, addresses, small maps, byte buffers.
- `crypto`: SHA-1, SHA-256, HMAC, HKDF, AES-128 with GCM, Base64.
- `config`: settings of outbounds, routing, DNS and the control API.
- `dns`: messages on the wire, the cache, the order of servers, the choice of a
  server, and the steps of answering a query.
- `inbound`: destinations, framed messages, transparent proxying, and the virtual
  network device with its packets, its address translation and its routes.
- `app`: sniffing of protocols, dispatching, outbounds, rule sets, and the control
  API with its requests, answers and feeds.
- `cli`: the command line.

Laws that span several functions are public proof functions whose names begin
with `law_`.

What comes from other crates (`bytes`, `lru`, `dashmap`, `serde_json`), and what of
the standard library has no contract of its own, stands behind items whose doc
comments begin with "Trusted:"; each says what is believed of the call.

`app/` is the program around the library: sockets, files, the device, and settings
as they stand in files. `tests/` runs the library.
