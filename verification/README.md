# wtx collections

Collections with fixed or growable capacity, written in Verus: the public functions state
what they return or change, and Verus proves the code against those contracts. The router
in `radix_tree.rs` is the exception in part: its search is stated exactly, but what the
builder does to a tree is stated exactly only where the route becomes a new root, where it
clashes with the first root, and for some shapes of literal trees (an empty tree, roots that
start with distinct bytes, one root with leaves that start with distinct bytes, and the split
of a single root into such a tree). For the other insertions the contract says how many nodes
are added and that a clashing route leaves the tree as it was.

- `src/collection/` — the collections and what they share:
  - `vector.rs`, `deque.rs`, `blocks_deque.rs`: a growable vector, a double-ended ring
    buffer, and a ring of blocks of elements with data attached to each block;
  - `array_vector.rs`, `array_string.rs`, `fixed_string.rs`, `array_wrapper.rs`: storage
    bounded by an array length, with lengths held by `u8`, `u16`, `u32` or `usize`;
  - `short_slice.rs`, `uninit.rs`, `compressed_rows.rs`: slices and strings with short
    lengths, a buffer filled once, and rows stored back to back;
  - `radix_tree.rs`: a router that matches paths against routes with parameters and
    wildcards;
  - `traits.rs`: `Clear`, `Truncate`, `TryExtend` and `CapacityUpperBound`, with what each
    implementation does;
  - `text.rs`, `misc.rs`, `slices.rs`: UTF-8 and slice helpers with their specifications.
- `src/collections/`: array vectors of `Copy` elements and borrowed, partially initialized
  buffers.
- `src/crypto.rs`: nonce helpers and constants.
- `tests/`: scenarios on concrete values.

A `BlocksDeque` keeps each block in consecutive slots of its ring buffer: no block runs across
the end of the buffer (`lemma_blocks_never_cross_end`), and `as_slices` splits the elements
where the buffer ends.

Laws that relate several operations (a pop undoes a push, a search finds the only route of
a tree) are public proof functions next to the operations they speak of, named `lemma_*`.
The router's laws hold for every tree of literal nodes: a search succeeds only on the text of
a path from a root along edges, and, where of two nodes reached from one node neither begins
with the other, on every such path that ends at a node with a value. For the builder they are proved on
the shapes above: a route that the builder added is found with its value and routes already
there are still found. They are not proved for routes with parameters beyond one route, and
a tree can leave the second condition: a child added under a root other than the last takes
the place of a root, and a later root is then no longer searched.
