# TarascaPay

An expense-splitting service for trips, shared homes and everyday life. All
money is handled in integer cents.

- `src/` is the library, verified with Verus: splitting an expense (equal
  parts, exact amounts, percentages, proportional parts) with the largest
  remainder method, settling a group with at most N-1 transfers, the
  dashboard's debts, and the rules of the API (validation, session tokens,
  receipts, groups, expenses, settlements, settings).
- `app/` is the HTTP server (axum, PostgreSQL through sqlx) that reads
  requests and the database and hands plain values to the library.
- `tests/` exercises the library on concrete values.
