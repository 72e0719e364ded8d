# pool_indexer

The core of an indexer of shielded pools, with contracts that Verus proves.

- `src/` is the library. The commitment tree of a pool is kept in memory of one node per level
  (`frontier`, `builder`), confirmation batches are planned from it (`batch`), and witnesses are put
  together from archived complete nodes (`witness`). Receipts are decoded into settlements, pools and
  spends (`logs`, `amm`, `pools`, `vnote`, `spend`), and every refusal of an endpoint is decided
  (`api`, `readiness`).
- `app/` is the HTTP layer: it asks the node, the registry and the database, and hands what they
  reply to the library.
- `tests/` runs the library with the real field arithmetic and hash.

What is not proved is the arithmetic of `halo2curves`, the constants of `halo2_poseidon`, the Keccak
digest of `sha3`, and the text functions of `hex`, `ethabi` and the standard library. Each is called
in one small function or named in one declaration, whose comment says what is taken for granted.
