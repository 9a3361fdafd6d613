# geometric_tree

Immutable, history-independent maps, sets and lists on geometric search trees (G-trees),
written in Verus: every public function carries a contract, and Verus proves the code
against it.

A G-tree gives each key a geometrically distributed rank; a node holds the maximal run of keys
that share the highest rank of its subtree. With ranks derived from a hash of the key, the tree
is a function of its contents alone. The two structural operations are `unzip` (split around a
position) and `zip` (join two ordered trees); insertion and removal are built from them.

## Layout

- `src/tree.rs`: the G-tree. Its model is the in-order sequence of items (key, value, rank) of a
  tree, `tree_items`, with the well-formedness predicate `tree_wf`. `unzip`, `zip`, `insert`,
  `remove`, `find` and `entries` are specified over that sequence. The proof functions at the
  end state the laws: the tree of a well-formed item sequence is unique (`lemma_definition_3`,
  `lemma_history_independent`), zipping the parts of an unzip gives the tree back
  (`lemma_unzip_zip`), zip is associative (`lemma_zip_associative`), and the height of a tree is
  at most the rank of its root (`lemma_height_at_most_rank`).
- `src/binary.rs`: the binary zip tree with the same operations, and the proof that a G-tree
  unfolds into the zip tree of the same items (`lemma_unfold_is_zip_tree`).
- `src/map.rs`, `src/set.rs`: `GMap` and `GSet`, viewed as a `Map` and a `Set`.
- `src/list.rs`: `GList`, a G-tree indexed by position, viewed as a `Seq`.
- `src/rank.rs`: the `Cyrb` hash, `hash`, `hash_utf16`, the exact integer rank of a hash
  (`rank_of_hash`), and the rank functions `hashed`, `hashed_by` and `random`.

## Checking

`tests/` holds ordinary Rust tests of the compiled library, including the statistical claims
(node sizes, heights, the geometric distribution of ranks) that no contract can state.
