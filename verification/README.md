# moss

The decisions of a package manager client, written in Verus: every function of the library
states what it does, and the proofs are checked.

- `src/client/` is the client. `step.rs` holds the scripts that change a system, `run.rs` the
  machine that runs them, `blit.rs` the plan that puts a tree of files on the filesystem,
  `cache.rs` the caching of packages, `resolve.rs` the choice of packages, and `setup.rs` the
  calls that open a client and keep its repositories up to date. `laws.rs`, `trees.rs` and
  `roots.rs` state what holds of every run, however it goes.
- `src/sync/` is the `sync` command: `select.rs` decides what changes, `machine.rs` is its course.
- `src/registry.rs`, `package.rs`, `state.rs`, `layout.rs`, `installation.rs` and
  `repository.rs` hold the data that these work on; `text.rs` and `list.rs` serve them.
- `tests/` run the library on concrete values.
- `app/` performs what the library asks for, on a real filesystem and real services.

The library performs no input or output. It rests on one fact that is not proved: what
`nix::sys::stat::Mode::from_bits_truncate` keeps of a mode.
