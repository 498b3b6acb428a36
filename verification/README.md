# tap_mud

A line-based multiplayer text adventure: a TCP server that hosts a shared world
(rooms, items, NPCs, quests, groups and turn-based fights) and two clients, one
graphical and one for the terminal. The game logic is a library verified with
Verus; the programs around it are ordinary Rust.

## Layout

- `src/text.rs`: character-level helpers (splitting, trimming, numbers, case).
- `src/client/`: the client side. `protocol` reads server lines, `tap` is the
  graphical client's state and how each reply or event changes it (replies are
  matched with the oldest waiting command), `state` holds display helpers,
  `console` the terminal client's line handling, and `laws` the properties
  proved of them.
- `src/server/`: the server side. `world` holds the world tables, `player` a
  connected player, `reply` what the server sends, `game` the server state with
  connecting, broadcasting and leaving, `commands` every command, `session` a
  connection's lines and the loading of a world, `validate` the checks of a
  world definition, and `laws` the properties proved of them.
- `app/`: `main.rs` starts the server (`server`), the graphical client
  (`gui <ip:port>`) or the terminal client (`cli <ip:port>`); networking, the
  YAML world file, JSON payloads, logging and drawing live there.
- `tests/`: tests of the library, from outside.

The server reads `config/world.yaml` and refuses to start on a world with
dangling references, shared display names, unreachable rooms or no loop.
