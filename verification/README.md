# wallet_nostr

A Cashu wallet database that is kept on Nostr. The wallet's info, its quotes and its transactions
are events that the wallet encrypts to itself and signs; keysets, keys and the states of proofs are
held in memory.

- `src/` is the store itself, verified with Verus: how records are written to events and read from
  them, what is asked of the relays, what is made of the events that come back, and what is held in
  memory. It calls `nostr-sdk` for encryption and signing, `serde_json` for rows of tags and
  `itertools` for grouping; what it takes from each is stated where the call is made.
- `app/` connects the store to relays and to a local event database.
- `tests/` runs the store with the real crates.

| module | what it holds |
|---|---|
| `text` | decimal and hexadecimal numbers as text |
| `collections` | sets and maps that keep the order of insertion |
| `nuts` | amounts, units, keyset ids, proofs and the queries on them |
| `tag`, `event` | tags, events, filters, and gathering the events of a subscription |
| `sealing` | the wallet's keys: encrypting, decrypting, signing |
| `wallet_info` | the wallet's info and its event |
| `quotes`, `mint_quote`, `melt_quote` | quotes and their events |
| `proofs` | transactions and the proofs that they leave |
| `keysets` | known keysets |
| `database` | the store as a whole |
