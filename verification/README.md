# oracle_core

A price oracle for Soroban: trusted publishers submit prices for asset pairs,
and each pair's feed is the median of the latest price of every publisher,
guarded by a circuit breaker that refuses prices too far from the current
median. The logic is verified with Verus.

- `src/` is the verified library.
  - `contract.rs`: the oracle's state (`OracleContract`) and the requests it
    answers, specified over `OracleView`.
  - `median.rs`: sorting and the median, with outlier resistance and order
    independence proved.
  - `feeds.rs`, `order.rs`, `keyed.rs`: the feed table in ledger key order,
    the byte order on keys, and lists read as maps.
  - `host.rs`: the Soroban host vectors that prices are gathered and sorted in.
  - `laws.rs`: what holds across requests.
- `app/` is the Soroban contract: it reads and writes ledger storage, checks
  authorization with the host, publishes events and calls the library.
- `tests/` runs the library on concrete cases.
