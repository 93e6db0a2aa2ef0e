# herd

A minimal game that generates load for a region, verified with Verus.

A region holds a population of its own: attractors, residents that belong to one
and gather there, nomads that wander, crowds that hurt what stands in them, and a
spawner that refills what dies. Beside it lives whatever edges bring. A client
asks an edge for a crowd, walks it, hands part of it back, and walks part of it
into another region and home again.

## Layout

- `src/` is the library. What the three peers decide is here, with a contract and
  a proof: one tick of a herd, what a client asks for and in which order, what a
  command line means, what a run reports.
- `tests/` runs the library on concrete values.
- `app/` is the program around it, `herd sim`, `herd edge` and `herd game`: sockets,
  clocks, certificates and printing, with what only a clock or a float can say: that
  a second has gone by, and which rank a quantile has.

## Reading the library

`tick` says what one tick makes of a herd and its region, pass by pass, as plain
functions; `motion` says it of one entity; `sim` is the code that does it.
`conduct`, `tether` and `endurance` say what follows: of every tick, of how far an
entity strays, and of a whole run. For the client `crowd` holds both the functions
and the code, `upkeep` says what follows whatever an edge answers, and `rehearsal`
says what follows through a link without a connection.

A few functions call `umwelt` or `async-nats` and are believed rather than proved:
distances and roots in `units`, the world's configuration in `world`, the set of
the living in `region`, and default limits and server addresses in `common`. Each
says above it what it claims.
