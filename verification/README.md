# elections_phragmen

A verified election module: accounts vote for candidates and lock stake behind their votes, and at
the end of every term sequential Phragmén decides who takes the seats of members and runners-up.

The crate is written in Verus. Every executable function in `src/` carries a contract, and Verus
proves that the code keeps it.

- `types`, `config`, `state`: what the module stores, its parameters, its invariant
- `candidacy`, `voting`, `election`: the calls and the election itself
- `genesis`, `migrations`, `calls`: the beginning of a chain, changes of its storage layout, weights
- `phragmen`: the election method, which comes from the `sp_npos_elections` crate and is trusted
- `ids`, `arith`: lists of accounts, arithmetic
- `outcome`, `bonds`, `stability`, `laws`: what the operations promise together

The module holds no balances. It returns lists of actions, which its surroundings perform in order.
`app/` is such surroundings for a FRAME runtime. The tests have a small one of their own.

`substrate-bip39` and `syn` stand in `Cargo.toml` for their versions only: the other crates do not
build with later ones.
