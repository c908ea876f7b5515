# Concurrent proposers

A verified library for building Ethereum blocks out of the batches of several proposers.

- `src/concurrent_proposer` merges batches into a block: in turn, in turn with strict attribution of
  fees, by price with shared fees, and by price with a share of gas for each proposer. Each merge is a
  machine that asks for a transaction to be checked or executed and takes in the result.
- `src/batching` builds a batch out of registered transactions. It looks for the transactions that
  have to go first, and asks for simulations, balances, checks and executions on the way.
- `src/transaction_register.rs` keeps the transactions that were announced for the next block.
- `src/execution_state.rs` and `src/trace.rs` read simulation results out of the traces of
  executions and count gas; `src/simulation_laws.rs` shows that what single simulations report does not
  depend on their order.
- `src/backend.rs` prepares the environment of the next block.
- `src/num.rs`, `src/fixed_bytes.rs`, `src/table.rs`, `src/text.rs` and `src/transaction.rs` hold the
  values that all of this works on.

What holds of all runs is stated and proved in proof functions whose names begin with `law_`.

`app` runs the library against a node: it asks the node for its state, lets the virtual machine work,
and sends results out.
