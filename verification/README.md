# lgbm_compute

Compute kernels for histogram-based gradient boosting: histogram construction, split records and
their order, row partitions, growth of a tree leaf by leaf, scores and the binary objective.

- `src/` is the library. Every function carries a contract, and Verus proves it.
- `tests/` runs the library on concrete values.
- `app/` is the runtime around it: settings from the environment, floating-point arithmetic, the
  growth loops over a backend, and the device kernels.

Numbers in double precision are carried by their bit pattern (`number::Real64`): the library only
compares them. Sums are folds with an addition that the caller hands in (`fold`), so a contract says
which values are added to which cell, and in which order. The fixed-point build adds integers, and
there the order provably does not matter.

A growth is a state machine (`kernels::grow_machine` on the host, `kernels::resident_machine` over
resident buffers): each step takes what the last piece of outside work returned, and names the next
one.
