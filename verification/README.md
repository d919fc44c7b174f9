# theta

Messages between peers over datagrams. A message goes through a channel, and each channel says
whether its messages are reliable (sent again until they are acknowledged, and handled at most
once), whether they are ordered (delivered in the order in which they were sent), and how often it
is used (the more often, the shorter its id).

The library is written in [Verus](https://github.com/verus-lang/verus): what every function does is
stated next to it and proved, except for the few that only call a hash table or `str::from_utf8`,
of which it is stated and taken for granted.

- `src/proto`: the byte format.
- `src/util`: slot maps, queues and other things that the protocol is built on.
- `src/net`: the protocol. `model.rs` says in plain values what a connection is and what becomes of
  it; `send.rs`, `acknowledge.rs`, `initialize.rs`, `connection.rs` and `server.rs` do it;
  `consistency.rs`, `handshake.rs` and `laws/` hold what follows for the protocol as a whole.
- `app`: sockets, threads, clocks and logs around the library, and a chat on the command line.
- `tests`: the library at work.

## A connection

1. Both sides tell each other which channels they have and which ids they give them, through a
   reliable and ordered channel with an id of its own.
2. Once a side has been told everything and knows that the other one has been, too, it goes over
   to exchanging messages.
3. As time passes, packets that were not acknowledged are sent again, and acknowledgements are
   sent, even empty ones, so that the other side sees that this one is still there. A peer that
   nothing was heard from for half a minute is forgotten.
