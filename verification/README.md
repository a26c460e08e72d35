# cargo-featurex

Lists the feature combinations of the packages of a cargo workspace, and runs a
cargo command (`check`, `test`, `clippy`, `build`) on each of them.

A package's features are numbered in dependency order; each feature stands for
itself and everything it enables. The `featurex` section of a package's or the
workspace's metadata names features that are always enabled (`required`) and
features that are never varied (`ignored`); a name ending in `?` may be missing
from the package. The combinations are the required features together with each
subset of the other features, each distinct combination once.

Layout:

- `src/` — the library, verified with Verus:
  - `feature_set.rs`: numbering, metadata resolution, feature sets and their
    combinations; `feature_set/order.rs` holds the ordering and its laws,
    `feature_set/bits.rs` the word-sized bit set that feature sets are made of,
    and `feature_set/bitset.rs` a bit set over any unsigned integer storage
    or array of them;
  - `metadata.rs`: parsing of the `featurex` lists;
  - `collect_result.rs`: collecting results while keeping every error;
  - `interner.rs`, `powerset.rs`: the string interner and the subset
    enumeration that the library calls;
  - `limits.rs`: whether a workspace's metadata stays within what the
    interner and the word-sized bit sets can take;
  - `lib.rs`: packages and the workspace.
- `app/main.rs` — the `cargo featurex` command: reads `cargo metadata`, prints
  or runs the combinations.
- `tests/` — tests of the library.
