# rumqttd_router

The routing core of an MQTT broker, verified with Verus.

A `Router` owns all that a broker knows of its clients: who is connected, what
each has sent and is to be sent, the acks that are pending, the commit log of
every filter that was subscribed to, retained publishes, and the sessions of
clients that went away. Each handler takes the router from one state to the
next, and its contract says which: `final(self)@` is the old state with one of
the functions of `router::state` applied to it.

- `src/router/state.rs`: the state of a router, and what each event makes of it
- `src/router/invariants.rs`: what holds between any two steps
- `src/router/requests.rs`: how many requests there are for a filter, wherever
  they are
- `src/router/single.rs`: when nobody has two of them
- `src/router/laws.rs`, `src/segments/laws.rs`: what follows from that
- `src/router/routing.rs`: the router and its handlers
- `src/router/`: its parts: connections, in- and outboxes, logs, scheduler,
  saved sessions
- `src/segments/`: commit logs
- `src/arena.rs`, `src/payload.rs`, `src/clock.rs`: what is taken from `slab`,
  `bytes` and the clocks, and what is believed of it
- `app/`: the thread and the channels around a router

Handlers that depend on time come twice: one that takes the time, whose contract
is exact, and one that reads the clocks, once for the whole event.
