# B-tree set, verified

A B-tree set with a configurable minimum degree `t`, written in Verus and proved
correct against a mathematical model: the tree is viewed as the strictly
increasing sequence of its keys (of their views, for keys such as `String`).

Layout:

- `src/key.rs` — `BTreeKey`: a strict total order on a key's view with a
  three-way `compare`, implemented for the primitive integer types, `char`,
  `bool` and pairs of keys.
- `src/text.rs` — `BTreeKey` for `String` and `&str`: lexicographic order of
  characters, decided by the standard library's string comparison.
- `src/sorted.rs` — sorted sequences of keys and how insertion, removal and
  concatenation keep them sorted.
- `src/node.rs` — nodes, their in-order content, the B-tree shape invariant and
  the lemmas that relate the content of a node to that of its children.
- `src/insert.rs` — proactive splitting and insertion into a non-full node.
- `src/delete.rs` — rotations, merges, predecessor/successor removal and the
  full deletion descent.
- `src/query.rs` — binary search within a node, lookup, in-order and range
  listings, height.
- `src/lib.rs` — `BTree`, its contracts and the laws proved of it (sorted
  listing, insert/delete round trips, logarithmic height bounds).
- `tests/` — the behaviour tests, plus tests against `std::collections::BTreeSet`.
