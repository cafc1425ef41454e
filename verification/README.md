# Transactional heap with multi-word compare-and-swap

A heap of objects addressed by slot. A transaction records compare-and-swaps
on slots and applies them all at once or not at all: it first claims every
slot with its descriptor's tag, then either stores the new words and commits,
or gives the claimed slots back. Replaced objects are not dropped at once:
the session that retired them defers the drop until the collector's epoch has
moved on by two, which happens when every session taking part has become
quiet.

The library models the heap as a value owned by its user, with every
operation proved against its contract: operations that change shared state take the heap by `&mut`, and
ending a transaction or a session is an explicit call (`Transaction::finish`,
`Session::close`) in place of a destructor.

Layout of `src/`:

- `slots.rs`: the vector of slot words and its compare-and-swap.
- `arena.rs`: the store of objects and the words that stand for them.
- `descriptor.rs`: descriptor states, the all-or-nothing `apply`, `cancel`,
  and the laws of committing and withdrawing.
- `collector.rs`: the packed epoch word (epoch, active and quiet counts),
  session entry and exit, deferred drops, and the counting invariant.
- `heap.rs`: the heap, sessions, transactions and read handles.
