# rustchain

A small proof-of-work blockchain whose rules are stated as Verus contracts
and proved.

- `src/` is the verified library:
  - `transaction.rs`: wallets (a 32-byte Ed25519 secret), signed
    transfers, their signing payload and JSON text, signature validity;
  - `block.rs`: blocks, header hashing and mining, the chain with its block
    checks, difficulty adjustment, replayed balances and counts, transaction
    filtering, and the address details kept in step with the chain;
  - `ledger.rs`: the replay of balances, transaction counts and address
    details over a chain, how they agree, and that coins are conserved;
  - `merkle.rs`: the Merkle root of a block's transactions;
  - `mempool.rs`: the pool of waiting transactions (highest fee first) and
    the miner that assembles blocks and runs one round of mining at a time;
  - `address_map.rs`, `encoding.rs`: a map keyed by address text, and
    decimal numbers and JSON string literals (through `serde_json`);
  - `crypto.rs`: SHA-256, hex and Ed25519 through `sha2`, `hex` and
    `ed25519-dalek`, with the trusted contracts of those calls;
  - `p2p.rs`: the messages nodes exchange.
- `app/` is the node around it: the HTTP API (axum), the P2P network
  (libp2p), the thread that runs a round of mining every few seconds, and
  JSON persistence.
- `tests/` exercise the library on concrete values.
