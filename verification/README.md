# bpa

Routing and bundle storage for a bundle protocol agent, verified with Verus.

- `src/routing/` is the routing table. Routes are ranked by priority, by how narrow their pattern
  is, and by what they do; a lookup goes through them in that order and follows routes that point
  on to other endpoints. `lookup.rs` says what a lookup finds, `table.rs` holds the table, and
  `laws.rs` states what holds of it as a whole.
- `src/storage/bundle_mem.rs` is a store in memory that evicts the bundles used the longest ago
  when it holds too much. `naming.rs` has the names of bundles, `shard.rs` the parts that they
  belong to, and `recency.rs` the order of use. `mem_model.rs` gives its states and steps,
  `mem_laws.rs` its laws. What is to be logged or counted is recorded as events, which the caller
  takes and tells.
- `src/storage/cached.rs` is a cache in front of a store. It is told of each request and of what
  the store answered.
- `src/eid.rs` and `src/pattern.rs` are endpoint identifiers and the patterns that take them;
  `src/order.rs` is the vocabulary of orders.
- `app/` puts the stores behind locks and asynchronous requests, and does the logging and the
  metrics.
