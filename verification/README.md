# aio_base_backend

The backend of the AIO canister: registries of agents and MCP services, the
token economy (accounts, stakes, grants, activity logs), social profiles,
contacts and chat, pixel-art projects, service descriptions and their
inverted keyword index, execution traces and the work ledger, devices, the
mining-reward ledger and its mining rounds, and the checks and reading of the
payment webhook.

## Layout

- `src/` — the verified library. Each store is a plain value with a
  well-formedness predicate and a mathematical view; every public operation
  states in its contract what it returns and how the store changes. Laws that
  relate several operations are public proof functions next to them.
- `tests/` — executable tests of the library on concrete values.
- `app/` — the canister around the library: its state, the Candid and JSON
  forms of the library's values, HTTP outcalls to BitPay, the token-ledger
  calls, the mining timer, and the reward amounts and price arithmetic, which
  are done in floating point.

Calls into outside crates from the library (HMAC-SHA256, Base64, JSON parsing,
hashing, Unicode case) go through small wrappers whose contracts name what the
outside function computes.
