# Warehouse Lab

A virtual warehouse that takes changes of balances from many clients, keeps each
of them through crashes, and counts each of them once, however often it is
delivered.

- `src/` is the verified library. Every function states what it returns, and
  Verus proves it.
  - Formats: `codec`, `text`, `binary`, `digest`, `wal`, `snapshot`, `checkpoint`.
  - State: `table` and `sharded` (maps), `balances`, `dedup` (which operations are
    known, and how a batch is reserved and ended), `order`, `state`, `recovery`.
  - What holds over several calls: `dedup_laws`, `store_laws`, `overlap_laws`, and the proof
    functions whose names begin with `law_` in the other modules.
  - The index on disk: `bloom`, `dedup_disk`, `history`.
  - The cluster: `cluster`, `lease`, `replay`, `startup`.
  - The edges: `config`, `api`, `metrics`, `workload`.
- `tests/` runs the library on concrete values.
- `app/` is the node around the library: files, the databases of the index, NATS
  JetStream, HTTP, and the load and fault tools.

Digests, checksums, the decoding of UTF-8 and the hashing of strings come from
`sha2`, `crc32fast` and the standard library; each stands behind one function
with a contract that says what is relied on.
