# gradebook

The data and rules of a school grade portal: user accounts with bcrypt-hashed passwords,
and a grade book of quarterly grades per student and subject. Every operation states its
result in a proved contract over a mathematical model of the two tables.

- `src/model.rs` — the `users` and `grades` rows, the store, and its table constraints.
- `src/text.rs` — text equality, binary-collation order, decimal rendering.
- `src/sorting.rs` — `ORDER BY` on nullable text columns.
- `src/grades.rs` — saving, listing, subjects, deleting grades.
- `src/accounts.rs` — sign-up, log-in, profiles, password change and reset, student list.
- `src/schema.rs` — migrating an older `users` table.
- `src/datetime.rs` — the SQL `DATETIME` text of a Unix time.
- `src/crypto.rs`, `src/clock.rs` — the calls into `bcrypt` and the system clock.
- `src/laws.rs` — properties across commands (log-in after sign-up, read-back after save, ...).
- `src/histories.rs` — the same properties across any run of later commands.
- `app/` — the Tauri commands and the SQLite file that keeps the store.
