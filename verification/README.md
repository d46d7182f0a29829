# scm_crafter

Decision logic of a client for a text-protocol crafting game, with its contracts and laws
proved.

- `src/world.rs` — the rooms, their doors, the depth-first route search and its laws
  (a route is a walk through doors to the destination that never enters a room twice,
  though it may pass back through the room it starts from).
- `src/element.rs` — the elements, the recipe book, name lookup; every ingredient is
  simpler than what it makes.
- `src/text.rs` — trimming, lowercasing and transliterating lookup keys; sorted joins.
- `src/json.rs` — the server's JSON replies as plain values, and field lookups.
- `src/protocol.rs` — request lines, which reply answers which command, what replies mean.
- `src/session.rs` — where the player is and what they carry; the plan for coming to
  carry a set of elements within the inventory's capacity.
- `src/craft.rs` — the order of crafts that makes an element from what storage holds.
- `src/search.rs` — the exhaustive search over ingredient combinations, and the record of
  the combinations already tried.
- `app/` — the network client and the program that drives it.
