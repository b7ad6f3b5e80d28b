# a_sabr

Contact graph routing for delay-tolerant networks, verified with Verus.

A contact plan lists the nodes of a network and the contacts between them: a
window during which one node can send to another, with a data rate and a
delay. Each contact has a manager that decides when a bundle of a given size
and priority can be sent on it, and books the transmission. Routers compute
paths over the contacts, keep them for later bundles, and book the hops.

Dates, durations, rates and volumes are fixed-point integers (`u64`, see
`src/types.rs`): a time unit is `TICKS_PER_UNIT` (1000) ticks and a volume unit
is `VOLUME_SCALE` (1000) steps, so a date of 1.5 is `1_500` and a rate in
volume units per time unit is also a number of steps per tick. A transmission
of `size` steps at `rate` lasts `size / rate` ticks exactly where the division
is exact, and is rounded up to the next tick otherwise.

## Layout

- `src/contact_manager/`: the `ContactManager` trait and its managers.
  - `segmentation/seg.rs`: free intervals, cut by each booking.
  - `segmentation/pseg.rs`: booked intervals with priorities; a bundle may
    take a window booked for a lower priority.
  - `legacy/`: queue-based managers, with or without priority levels and
    per-level budgets (`eto.rs`, `evl.rs` name the usual configurations).
- `src/pathfinding/`: `try_make_hop` (the earliest hop over the contacts from
  one node to another) and a node-parenting search built on it.
- `src/route_storage/`: the guard that refuses bundles known to be too large,
  a cache of search trees and a table of routes.
- `src/routing/`: booking of paths and trees, and the `Spsn` and `VolCgr`
  routers.
- `src/contact_plan.rs`, `src/multigraph.rs`: the contact plan and its
  grouping by sending and receiving node.

Functions state their behaviour in `requires` / `ensures`. Where a router
calls a search or a storage through their traits, its contract is stated over
what those traits promise (for instance, that a search result is walkable,
closed under the hops from its reached nodes, and that no single hop from a
reached node gives a stage the search prefers), not over one implementation.
Properties that relate several functions are public proof functions named
`law_*`.
The tests under `tests/` run the library on concrete networks.
