# lobby_server

The logic of a lobby server for a team-based game, written in Verus and
proved against its contracts.

- `src/ids.rs`: player, lobby, game and champion identifiers (random UUIDs).
- `src/protocol.rs`: the requests clients send and the messages the server
  sends back.
- `src/framing.rs`: the big-endian length prefix in front of each message.
- `src/lobby.rs`: lobbies and their teams: placing players on the smallest
  team, removing players, changing the number and size of teams, and what a
  lobby reports. The laws at the end of the file state what these operations
  keep (the players, the number of teams) and when every team fits its size.
- `src/username.rs`: how a requested username is turned into the name a
  player gets, with the proof that the search always ends.
- `src/state.rs`: the server's state and its answer to each event, as the
  new state plus the messages to deliver.
- `app/`: the program around the library: QUIC connections (quinn), the
  tokio event loop, postcard encoding of the wire types, and the delivery of
  the messages the library decides to send.
- `tests/`: tests of the library on concrete values.
