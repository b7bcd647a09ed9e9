# event_bus

A publish/subscribe event bus whose subscriptions match event types by
dot-separated glob patterns (`crop.*`, `*.harvested`, `*`), written in Verus.

- `src/glob.rs`: the pattern language (`matches_glob`) with its specification
  (`glob_matches`, `split_on`) and its laws.
- `src/event.rs`: event identifiers, priorities, events, subscriptions, statistics.
- `src/bus.rs`: the bus itself, its invariant (`wf`), the contract of every
  operation, and the laws that relate operations.
- `src/runs.rs`: laws over whole runs of calls (identifiers never repeat,
  counts of subscriptions and pending events, ticks, what the history holds).
- `app/`: serde-serialisable copies of the library's types, with conversions.

Events carry a payload of a type of the user's choice (`EventBus<D>`); the bus
never reads it.
