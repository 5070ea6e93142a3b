# schemajs

The storage core of a small JavaScript-programmable database, written in Verus
and verified.

`src/` is the verified library:

- `item`, `data_shard_header`, `data_shard`, `data_update`: the byte layout of
  data shard files (a header of item slots, then encoded items), reading,
  appending, deleting and updating rows in place;
- `kv_shard`: key/value shard files of fixed-size values;
- `shard`: what shards have in common (`Shard`, `ShardConfig`);
- `map_shard`: a chain of shards that behaves as one, with shard file names
  that are read back;
- `temp_map_shard`: temporary shards reconciled into a chain;
- `index`: length-prefixed index entries and text keys;
- `users`: users, roles, sessions and password checks;
- `engine`: the check a row must pass to enter its table;
- `services`: what a connection request is answered, and which requests
  carry a known session;
- `graph`: module graph options and which graph errors a check reports;
- `helpers`: the helpers tables register and how they are looked up, and
  where schemes keep their files;
- `utils`, `text`, `bytes`, `ids`: small rules and helpers.

Shard files are held in memory as byte vectors; `app/` reads and writes them,
lists shard folders, and holds the serializable copies of the library's types.

`map_shard` keeps the shards behind its master as a vector of (file name,
shard) pairs, in the order they were put behind, and replaces a shard by its
name with a loop written and proved here. An insertion-ordered map keyed by
name would serve too, but its contents could not be described in the
contracts for a generic shard type: a description of what such a map holds
would have to be generic over the shard type, which the specifications here
cannot be.
