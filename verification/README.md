# gossamer

An IRC server core: line framing and message parsing for client connections,
the registration state machine of a connection, and the network state shared by
linked servers (clients, subnets and the tree of servers), with the messages a
node sends to its links.

- `src/` is the library, verified with Verus:
  - `buffer`, `framing`, `codec`, `raw`, `irc`: buffers from a bounded pool,
    splitting received bytes into lines, and parsing lines into IRC messages;
  - `client`: one client connection, from received bytes to the requests it
    makes of the server, and its send queue;
  - `state`: the network's clients, subnets and servers, and their invariant;
  - `network`, `link`: a node of the network, what it queues for its links
    (subnets and clients as they are added, and a burst of what it knows to a
    new peer), what it does with what its links tell it, what a closed link
    takes away with it, and the link handshake;
  - `ircd`: the replies a server sends its clients.
- `tests/` runs the library on concrete inputs.
- `app/` is the daemon around the library: sockets, tasks and channels.
