# splitpay

Expense sharing for groups: members book expenses into an escrow held by the
contract, keep running balances of who owes whom, and the group's creator
settles by paying every member back.

- `src/` is the verified library. `contract.rs` holds the contract state and
  its operations, each proved against the model in `model.rs`. `laws.rs`,
  `history.rs` and `repayment.rs` prove properties that span operations:
  balances of a group sum to zero, groups and their payment histories are
  never overwritten and settled groups never change, settlement pays out of
  the group's own deposits only (and pays every payer back exactly when
  expenses split evenly), two expenses commute, and a direct split hands
  out exactly its amount.
- `app/` is the Soroban contract around it: authorization, instance
  storage, ledger time and token transfers.
- `tests/` runs the library on concrete scenarios.
