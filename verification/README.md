# game_gateway

The WebSocket gateway of a live quiz game. Clients send commands (join,
start, answer, next question) for a game; one actor per game applies them in
order, saves the game to Redis in MessagePack form and broadcasts the
resulting events to the users concerned.

`src/` is the library, verified with Verus:

- `game`, `question`, `player`, `events`, `commands`: the game state machine
  and what each command does to it, with its well-formedness laws;
- `scoring`: points, ranking and the leaderboard, with the podium laws;
- `assoc`: the id-keyed association lists that hold players and answers;
- `msgpack`, `codec`: the stored form of a game, written by the library
  (integers in their shortest signed form) and read through rmpv, with the
  laws that a stored game reads back as itself and that the order of its
  fields does not matter;
- `time`: instants, the system clock, and the calls into chrono;
- `session`: the user id from the `Cookie` header;
- `actor`, `socket`, `store`, `config`: the decisions of the game actor and of
  a client connection, the storage key, and the configuration.

`app/` holds the program around it: the HTTP/WebSocket server (axum), Redis
I/O, the actor and connection registries, and the JSON forms of commands and
events.
