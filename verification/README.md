# rucimp

The protocol logic of a proxy toolbox, written in Verus and proved against
its contracts: gRPC framing and varints, the spe1 question/answer
steganography protocol and the HTTP framing it travels in, the embed and
AI-generated traffic shapers, websocket early data, traffic records and
their truncation rules, and the routing plans of the transparent proxy.

Layout:

- `src/` — the verified library. Each module states its data model with
  spec functions and views; the laws that span several functions are the
  public `lemma_*` proof functions (round trips of encodings, what a reader
  gives back of a writer's message, the limits a simplified record keeps).
  Calls into outside crates (`bytes`, `base64`, `rand`, `serde_json`,
  `tokio-tungstenite`) stand behind small trusted wrappers whose doc
  comments say what is assumed of them.
- `tests/` — tests of the library on concrete values.
- `app/` — the unverified rim: asynchronous stream drivers that perform the
  I/O the library's state machines ask for, serde forms of the library's
  types, file saving and command running.

Not part of this crate:

- the user-space TCP/IP stacks (smoltcp and lwip devices and their packet
  plumbing), which live in crates that are not dependencies here;
- QUIC, the Lua-scripted configuration and `StaticEngine`, which build on
  the proxy framework itself;
- the transparent proxy's UDP path and its resolver, and the HTTP API
  server (only the text of its replies is kept, in `api`);
- listener shutdown, config file lookup and other process plumbing.
