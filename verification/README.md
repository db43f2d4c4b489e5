# rust_lob

A limit order book with price-time priority, verified with Verus, and the
server around it.

## Layout

- `src/` — the verified library.
  - `avl` — the height-balanced tree of price levels (insert, delete, ordered
    walks), its logarithmic height bound, and the rotations as spec
    functions that fix each operation's resulting shape and rebalancing
    steps.
  - `orderbook` — the matching engine (`Arena`): adding, cancelling and
    modifying limit orders, snapshots of the top levels, the trade log.
  - `matching`, `tradelog` — laws of matching: share accounting, price-time
    priority, an append-only trade log, modify as cancel-then-add.
  - `text`, `parser` — reading order files line by line.
  - `processor`, `sessions`, `chunks`, `codec`, `upload_flow` — uploads:
    chunking, session bookkeeping, deflate bodies, what the routes do with
    each chunk, replaying orders through a fresh book.
  - `app_state`, `auth` — error answers, rate-limit decisions, HMAC request
    authentication.
  - `sim`, `stream`, `socket` — the simulator's book keeping, the batching
    of websocket updates, and what the socket does with each client request.
  - `levels`, `stats`, `preview`, `client` — what the browser client
    computes: grouped price levels, latency histograms, which chosen files
    it parses itself, preview rows, the latest trades it lists.
- `tests/` — tests of the library on concrete values.
- `app/` — the axum server: routes, websocket, Redis and Postgres I/O, and
  the simulator's random draws.

Prices are counted in hundredths.
