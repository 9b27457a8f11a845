# nano_chain

A small proof-of-work block chain, a ledger of unspent transaction outputs,
and the decision logic of a peer-discovery protocol, verified with Verus.

- `src/` is the verified library:
  - `digest.rs`: decimal rendering, UTF-8 bytes, SHA3-256 (through `sha3`) and
    standard base64 (through `base64`), with their specifications;
  - `blockchain.rs`: blocks, proof of work, and a chain whose invariant is that
    every block is correctly linked to the one before;
  - `utxo.rs`: the ledger, how a batch of transactions is checked and applied;
  - `peer_discovery/`: protocol messages, what a node decides on each message
    and on each request to its pool manager,
    and channels whose receiver can be told to stop;
  - `node.rs`: the state of a full node.
- `app/` is the program: it mints a demonstration chain (the difficulty of the
  next block is a floating-point logarithm, and the timestamp is read from the
  clock, both there), or, with
  `--config FILE`, runs a peer-discovery node over TCP.
- `tests/` exercises the library.
