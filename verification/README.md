# flashvault

A small LRU cache with a capacity bound, lazy TTL expiry and live statistics,
verified with Verus.

- `src/model.rs`: the mathematical model (a sequence of entries,
  most-recently-used first), the transitions of `put`, `get` and `remove`, and
  the laws of the cache proved over them.
- `src/history.rs`: the state reached after a whole sequence of calls, and
  the laws over such sequences.
- `src/cache.rs`: `Cache`, a key map plus a slab of nodes threaded into a
  doubly linked list, proved to refine the model; and `Stats`.
- `src/clock.rs`: the `Clock` trait, the wall clock and a hand-set test clock.
- `src/repl.rs`: the interactive command language (tokens to command, and
  what each command does and answers).
- `src/demo.rs`: the canned demonstration workload and what it observes.
- `app/main.rs`: the command-line front end: argument handling, reading
  lines, the clock and the pause of the demo, and printing.
