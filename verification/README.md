# s2

A bot for a grid arena game, with its decision logic verified by Verus.

- `src/grid.rs`: the 90 x 51 board, jumps of three cells, and what a route is.
- `src/astar.rs`: A* search over jumps (`find_path_macro_grid`), proved to return a
  walkable, loop-free route whenever one costs less than `i32::MAX`, and a cheapest one
  when every landing cell costs at least one.
- `src/helper.rs`: drawing walls into the board, scoring the board for a turn (row
  bonus, enemy and projectile penalties), and choosing the next move.
- `src/bot.rs`: the bot as a state machine from server message to reply.
- `src/archive.rs`: which entries of an archive are listed.
- `src/laws.rs`: properties spanning several functions.
- `app/`: the websocket client and the archive lister around the library.
