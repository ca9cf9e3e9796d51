# git_core

The domain core of a visual git client, written in Verus: every function in
`src/` carries a contract and is proved against it.

- `src/graph.rs` lays out the commit graph into lanes and edges.
- `src/paths.rs` normalises the paths a write is asked for and refuses any
  that leave the working tree.
- `src/status.rs`, `src/refs.rs`, `src/detail.rs` and `src/sort.rs` turn what
  a repository reports into deterministically ordered listings.
- `src/write.rs`, `src/commit.rs` and `src/git_binary.rs` hold the decisions
  behind staging, unstaging and committing through the user's own `git`:
  the refusals and their order, what each listed path does, and how a commit
  attempt's outcome is read from whether `HEAD` moved.
- `src/fixtures.rs`, `src/recipe.rs` and `src/manifest.rs` describe the
  deterministic fixture repositories, what each of their commits holds, and
  the manifest written beside them.
- `src/error.rs` and `src/model.rs` are the error and data types.

`app/` is the shell around the library: it opens repositories through
libgit2, runs `git`, serialises the library's values, writes the fixtures,
and exposes the commands a UI calls. It hands the library plain values and
performs what the library decides.

`tests/` exercises the library from outside, including a replay of the
fixture recipe in an in-memory object database against the recorded object
ids.
