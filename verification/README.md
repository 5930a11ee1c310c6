# hybrid_mount

The planning and bookkeeping core of Hybrid Mount, a module mounter that
combines OverlayFS, Magic Mount and a kernel VFS redirection backend. The
library is written in Verus: each function states its behaviour in
`requires` / `ensures` clauses and Verus proves the code against them.

## Layout

- `src/` — the verified library.
  - `scanner`, `plan/` — reading module layouts and building the mount plan:
    the shared mount tree (`mount_tree`), backend conflicts, and the
    OverlayFS operations with their lower layers (`plan/layers`).
  - `mount_flow`, `pipeline`, `execution`, `staging`, `storage/` — the order
    of the boot mount phases, what a failure rolls back, and the storage
    sizing.
  - `runtime/` — hot loading and unloading: VFS rule transactions, the uid
    ledger and its policy.
  - `sys/` — process output capture, mount tables, kernel module images and
    loader selection, kernel config and KMI parsing.
- `tests/` — tests against the compiled library.
- `app/` — the parts that touch the system: process spawning, directory
  walks, mounts and file I/O. They hand plain values to the library and act
  on what it decides.

Calls into `flate2`, `object`, `regex-lite` and `getrandom` go through small
wrappers whose contracts state what those crates document; each wrapper's
doc comment says what is assumed of it.
