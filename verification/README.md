# monitoring-platform

Measurements over OTLP: a receiver that stores each measurement once, under an identity derived from
what it says, and a collector that runs beside the applications of a device whose clock is set late and
corrects the timestamps that the wrong clock made.

* `src/` is the library. It holds the rules and the computations, each function with a contract that
  Verus proves: the offset history and the resolution of timestamps (`collector::epoch`,
  `collector::correct`), holding, spilling and delivering batches (`collector::buffer`,
  `collector::runtime`), the conversion of a batch to measurements (`otlp`), their identities
  (`content_id`), the statements that read and write them (`store`), keys (`auth`), and what the HTTP
  interfaces decide (`api`, `wire`). Functions named `law_...` state what holds of several of them
  together.
* `app/` is the program around it: arguments, sockets, files, the database, the clocks of the kernel,
  and what needs a double as a number: the messages of the protocol in the library's values, the weights
  of encodings, and the numbers among attribute values.
* `tests/` runs the library, with an SQLite database in memory where a statement is concerned.

What is taken on trust is marked `external_body` or `assume_specification`, and says which function of
which crate it speaks of.
