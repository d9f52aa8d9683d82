# disburse

The three Soroban contracts of the Disburse payroll protocol — the
organization registry, payroll and vesting — written as verified state
machines.

- `src/` is the library, verified with Verus. Each contract is a state type
  (`OrgRegistryContract`, `PayrollContract`, `VestingContract`) whose
  operations take an invocation context (`host::Env`) and record there what
  they ask of the ledger: authorizations, token transfers, events and the
  registry's cross-contract call into payroll. The contracts state, over
  spec models of that state, exactly which result and which actions each
  call produces; the laws the protocol promises (split payouts, withdrawal
  floors, vesting math, roster counts) are proved as lemmas beside them.
- `app/` holds the Soroban contracts themselves: storage, conversions between
  ledger values and the library's values, the cross-contract clients, and the
  execution of the recorded actions.
- `tests/` exercises the library on concrete scenarios.
