# lakeside

A ticket-gated Cashu faucet whose decisions are verified with Verus.

- `src/` is the verified library: token amounts (`token_amount`), ticket code
  normalisation and hashing (`tickets`, `text`, `hashing`), ticket metadata
  (`metadata`), merging a CSV export into the ticket store (`csv_import`,
  `ticket_order`), answering claims (`faucet`), budgeting a batch mint and
  formatting its output (`minting`, `decimal`, `filenames`), timestamps
  (`timestamp`) and wallet set-up decisions (`wallet`).
- `app/` is the `lakeside` command line and HTTP server: argument parsing, the
  JSON tickets file, CSV reading, the Cashu wallet and the axum routes.
- `tests/` exercises the library on concrete inputs.
