# gateway_proxy

A proxy between a chat gateway and the clients of a bot. The library in `src/` is
verified with Verus; `app/` is the ordinary Rust around it: sockets, the database,
locks and tasks.

- `text`, `session_id`, `string_map`, `clock`: strings, ids, maps and clocks.
- `json`, `codec`: JSON values as mathematical trees, and JSON text.
- `items`, `guild`: arrays of items with ids, and what each event does to the JSON
  of a guild.
- `cache_model`, `cache`: the guild cache as a mathematical state, and the cache
  that keeps to it.
- `cache_laws`, `index_laws`, `plain`: what holds of the cache, whatever events come.
- `state`: shards, sessions, connections, buffered events and wake attempts.
- `db_config`, `auth`: the clients, and who holds a token.
- `wake`: what is sent to wake a client.

Numbers that are kept as floating-point values may lose digits each time a guild is
stored anew; everything else in the JSON of a guild is kept exactly, as deep as the
parser reads it.
