# lfll

Ordered linked lists after the algorithm of Fomitchev and Ruppert, verified with Verus:

- `LockFreeLinkedList`: an ordered list of keys and elements;
- `LockFreeSkipList`: the same with towers of shortcut levels over the bottom list;
- `LockFreeDequeList`: elements kept in push order under `i64` sequence keys.

Nodes live in an arena and are named by handles (index plus one, 0 is null). Each
node holds a successor word with a mark bit and a flag bit (`succ.rs`); a deletion
flags the predecessor, marks the node, then unlinks it, and the unlinked node goes to
a garbage bag (`garbage.rs`). Every operation is proved to keep the list consistent and
to do to its entries (a sequence of key and element pairs, in key order) what its
contract says.

Layout:

- `src/`: the verified library;
- `tests/`: tests of the library;
- `app/`: a process-wide garbage bag and collectors shared between threads.
