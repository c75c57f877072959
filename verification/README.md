# mumbler

The session model of a shared tabletop map that drives Mumble's positional
audio: objects and their groups, the order they are listed in, the peers of a
session and the rooms they are in, the settings panels, the error log, and
the change tracking of the Mumble Link. Verus proves the functions of `src/`
against their contracts. What it takes on trust is listed here: in
`src/error.rs`, the declaration of `anyhow::Error`, the wrapper around
`anyhow::Error::msg` (no contract) and the wrapper that formats an
`anyhow::Error` (no contract); in `src/ids.rs`, the wrapper around
`u32::to_string`; in `src/state.rs`, the specifications of `String::clear`
and `String::push_str`.

## Layout

- `src/ids.rs`, `src/values.rs`: identifiers, property keys, values and
  property maps.
- `src/id_map.rs`: maps keyed by identifiers, kept as lists of entries.
- `src/sort_key.rs`, `src/children.rs`: sort keys and the sorted children of
  a group.
- `src/objects.rs`: objects, their updates, and visibility and locking through
  the chain of groups.
- `src/walk.rs`, `src/order.rs`, `src/hierarchy.rs`: the groups of a session,
  kept sorted, and the depth-first walk over them.
- `src/scene.rs`: the map's objects, order and peers, kept in step across the
  server's updates.
- `src/rooms.rs`: the room list, kept sorted by name, and player counts.
- `src/peers.rs`: the peers, by id and by public key.
- `src/drag_over.rs`, `src/object_list.rs`: the object list and where a
  dragged object lands.
- `src/settings.rs`: the settings panels: an object's properties, a room's
  name, background and grid, and a token's or static's name and image.
- `src/log.rs`, `src/error.rs`, `src/link.rs`, `src/state.rs`,
  `src/visibility.rs`: the log and the text of its time stamps, errors,
  the Mumble Link's pending changes, change-tracking values and visibility
  levels.
- `app/`: the browser glue: shared handles with change detection, the error
  log's listeners and clock, and error conversions.
- `tests/`: tests on concrete values.
