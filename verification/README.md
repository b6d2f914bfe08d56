# lib

Fixed-capacity collections and a single-threaded channel, written in Verus:
every operation carries a contract over a mathematical model of its data
structure, and the contracts are proved.

- `src/collections`: binary heaps (`heap`), generational slabs (`slab`,
  `pin_slab`, `pin_cell_slab`), two-generation index sets drained in batches
  (`batch`, `batch_set`), lane arenas and fixed arrays (`arena`, `array`,
  `linked_pool`, `fixed`), an open-addressing map (`fixed::hash`), a pool of
  values reset in place (`fixed::pinned::recycle`), and completion arenas whose
  entries outlive their owners until an external source finishes with them
  (`completion`, with serial-checked and one-word variants).
- `src/channel`: the channel as a state machine; each step names the task
  its caller has to wake.
- `app/`: the channel halves shared behind `Rc<RefCell<..>>` with real wakers,
  and the error types with `Display`.
- `tests/`: executable checks on concrete values.

Shared state is passed explicitly: a reservation or lease names its entry,
and the arena it lives in is an argument of each call. Methods named `close`, `cancel`, `detach`,
`release`, `rollback` and `disconnect` do what dropping the handle does.
