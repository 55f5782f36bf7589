# payment_processor

A small HTTP payment/ledger service. Clients sign up, their balances are kept
in memory, credited and debited by request, and flushed on demand to
nonce-stamped files; start-up checks what storage holds before serving.

The service's logic is a Verus library with contracts proved by Verus:

- `src/api` — request bodies and their validation, and the request flows
  (registration, transactions, balance reads, balance flushes) as steps over the
  in-memory state; the storage work happens between the steps.
- `src/cache.rs` — the client registry and balance book, with dirty tracking and
  the non-destructive settlement of flushed balances.
- `src/bootstrap.rs` — start-up: flush file names, the `1..=N` nonce sequence
  check, orphan `.tmp` detection, and rehydration from the clients ledger.
- `src/storage.rs` — the flush file's name and contents.
- `src/domain` — the balance-book variant with a persisted base and an unflushed
  delta per client, in which overdrafts are refused.
- `src/money.rs`, `src/text.rs`, `src/date.rs` — decimal amounts, string
  helpers and calendar dates shared by the above.
- `src/laws.rs` — properties that span several operations.

`app/` is the HTTP server around the library (actix-web, tokio, file I/O and
serde), and `tests/` exercises the library on concrete values.
