# provider-proxy

The core of a proxy that answers Anthropic-style requests with other providers, verified with
Verus.

- `src/` is the library. It turns the server-sent events of a streamed chat completion into
  content-block events or into one message, and decides what happens with stored OAuth tokens.
  JSON is read and built with `serde_json`, behind wrappers in `src/json.rs`.
- `app/` performs what the library decides: it stores tokens, sends requests and reads the clock.
- `tests/` runs the library.

The token manager is a state machine. A driver performs each `AuthStep` and hands the outcome to
the method that the step names; `app/auth.rs` is such a driver.
