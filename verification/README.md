# miso

A SwissTable-style open-addressing hash map, verified with Verus.

- `bitmask`: sixteen-bit masks over the positions of a group, and the
  iterator over their set positions.
- `control`: control bytes (empty, deleted, full with a seven-bit tag) and
  the control-byte array with its sentinel and the copies of its first
  fifteen slots.
- `group`, `scalar`, `neon`: loading sixteen control bytes and asking which
  positions hold a tag, an empty byte or a deleted byte; two implementations
  of the same queries.
- `slots`: hash splitting, table capacities, and counts of slots by state.
- `hashing`: the map's `RandomState`; the only code here that Verus does not
  check. Hashing asks for a key model (`slots::key_model`): equality is
  equality of views and the hash is deterministic, as vstd's
  `obeys_key_model` states it.
- `miso`: the map that probes one slot at a time.
- `table`: the map that probes sixteen slots at a time.
- `laws`: laws that relate several operations (read after write, read after
  delete, overwrite, insert then delete, order of bitmask iteration,
  agreement of the two group implementations), each over the states before
  and after the operations.

Both maps are views of `Map<K::V, V>`: `insert`, `get` and `delete` are
specified as `Map::insert`, lookup and `Map::remove` on that view, and their
invariant (control bytes agree with the stored entries, every key is reached
by its probe sequence, counts of live entries and tombstones) is kept by
every operation, including growth and rehashing.
