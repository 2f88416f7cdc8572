# transport_oracle

Oracle transport: one row of a query is one Stream, a send is one INSERT; TNS
and TTC against a listener. The library is written in Verus: what each function
does is stated in its contract and proved.

- `src/tns.rs`, `src/ttc.rs`: packets, and the messages and fields inside them.
- `src/client.rs`, `src/session.rs`: the two sides of a connection, each a state
  that takes the packet the other sent and says what to send next.
- `src/lib.rs`: the transport, its targets and the Streams of its rows.
- `src/exchange.rs`: what the two sides come to together.
- `src/wire.rs`, `src/cursor.rs`, `src/text.rs`, `src/sql.rs`, `src/error.rs`:
  numbers, bytes, text, tables and errors.
- `app/`: sockets, the clock and closures around the library.

Three items are trusted, all in `src/text.rs`: `String::push`,
`String::from_utf8_lossy` and the `Debug` of a string.
