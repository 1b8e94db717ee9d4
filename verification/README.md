# rayline_c82

The decisions of the C82 routing policy, verified with Verus: how a request to the Messages API
becomes a history of turns, what is sent to the chosen worker, when an attempt is repeated, what
the decision log says, and how replies and event streams come to name the public model alone.

- `src/` is the library. Every function states what it returns; the `law_` functions state what
  holds across functions.
  - `text`, `number`, `json`, `wire`, `render`: texts, JSON values, their text, and the rendering
    that Python's `json.dumps` gives.
  - `startup`, `turn`, `history`, `dispatch`, `retry`, `record`: one request, from the start of
    the service to the log.
  - `alias`, `sse`, `framing`, `reply`: the reply.
- `tests/` runs the library on concrete values.
- `app/` is the service around it: HTTP, clock, locks and files. The router that scores the
  workers and the metrics sink stand behind the traits of `app/ports.rs`.

What is not proved but believed of `serde_json`, `sha2`, `hyper` and `std` stands in the contracts
of the functions marked `#[verifier::external_body]` and in one `assume_specification`.
