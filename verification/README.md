# kassigner

The core of an air-gapped Kaspa signer, written in Verus: everything that
decides what is signed, shown or shipped is proved against its contract.

- `wallet` holds the transaction model, the three transaction formats and the
  signed response (`pskt`, `response`, with the format itself in `wire`),
  script recognition, signing for single keys, accounts, stealth outputs,
  multisig and covenants, signing progress, and the start-up checks.
- `qr` splits a payload into frames and reads frames back.
- `release` makes and checks the release manifest and its signature.
- `version` holds the version numbers.
- `crypto` is the boundary to the `sha2` and `k256` crates. Each function there
  states what is taken from the crate on trust; nothing else in the library is
  trusted.

The laws of the library are the public proof functions whose names begin with
`law_`; the round trips of the formats, for example, stand in
`wallet::roundtrip`.

`app` is the release tool around `release`: it reads and writes the files. The
public key that releases are checked against is given at build time in
`KASSIGNER_RELEASE_PUBKEY`.
