# pathdns

A DNS forwarder that routes each query by its name: to an upstream server, to a fixed answer, or
through a pair of servers of which the better answer wins.

- `src/` is the library. It holds every decision of the server: parsing, routing, rule sets,
  deduplication, response filters, upstream selection, the query log and the dashboard's routes.
  Each function states what it does in its contract, and Verus proves it.
- `tests/` runs the library on concrete values.
- `app/` is the server around the library: sockets, files, timers, TLS and HTTP.

Calls into other crates stand behind small wrappers, whose contracts say what is taken for granted
of them. Most of them are in `src/outside.rs`, `src/small.rs` and beside the module that uses them.
