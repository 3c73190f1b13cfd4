# equate

The rules of Equate, a board game like Scrabble where tiles are digits and
operators and every line of tiles must be a correct equation, written in Verus
with their specifications proved.

- `src/` is the verified library: tiles and the standard bag, the 19 x 19
  board with its premium squares, exact evaluation of equations, the placement
  rules of a move, scoring, game state, and the room logic of the server
  (players, turns, connections, moves, the lobby).
- `tests/` runs the library on concrete games.
- `app/` is the server around it: HTTP routes, WebSocket sessions and the JSON
  forms of the library's types.

Equations are evaluated in exact fractions of 128-bit integers; a step that
would need larger integers is reported as out of range, and every equation the
library accepts is proved correct in exact arithmetic.

When the two sides of an equation differ, the message gives each side as a
whole number, as a decimal when its expansion ends (`3.5`), or else as a
fraction in lowest terms (`2/3`).
