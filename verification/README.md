# reesync

Selectively bring a project up to date with a newer copy of the template it
was generated from: diff the two directories, browse the differing files in a
checkbox tree, and copy the ones you tick.

## Layout

- `src/` — the verified library (Verus):
  - `diff.rs` — comparison of two directory listings by path and SHA-256
    content hash, the walk's skip rule, commit-line cleanup;
  - `ignore_list.rs` — the `.reesyncignore` skip-list over `globset`;
  - `tree_model.rs`, `tree.rs` — the checkbox tree, its mathematical model and
    its operations (build, toggle, expand/collapse, flatten);
  - `session.rs` — the browser state and what each key does to it;
  - `render.rs` — the texts the browser draws and the version string;
  - `text.rs` — small text helpers (paths compared by components, trimming,
    lines);
  - `tree_laws.rs`, `build_laws.rs`, `build_shape.rs` — properties proved
    across operations and of the built tree.
- `app/` — the command: argument handling, walking and reading directories,
  `git log`, the terminal UI and the copy.
- `tests/` — tests of the library.
