# kcv

Stores environment variables in the macOS keychain, one keychain item per
environment holding a JSON object of its variables, and injects them into a
process.

The library in `src/` is verified with Verus:

- `text` — character-level helpers and the code-point order on names.
- `keymap` — a string-keyed map kept in ascending key order; its view is a
  `Map`, and its entry list is a function of that map alone.
- `envset` — one environment's variables, their validation, and their JSON
  form (encoding and decoding go through `serde_json`).
- `dotenv` — the `.env` grammar as spec functions, a parser proved to follow
  it, a writer, and the proof that the parser reads back what the writer
  wrote.
- `store` — the byte-level `Store` interface, an in-memory store, and the
  decisions a keychain store makes around its lookups.
- `cmd` — `set`, `import`, `list` and the planning of `exec`, each with a
  contract over the store's contents before and after.
- `error` — errors with their exit statuses and messages.
- `prompt` — the handling of a line read as a secret, and the decision
  after an import: keep the file, ask, or delete it on a yes.

`app/` is the command-line program: argument parsing, the terminal, files,
the keychain itself and the final `execvp`.
