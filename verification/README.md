# ribbon

An append-only log of agent events in ndjson, and queries over it.

- `src/` is the library, verified with Verus: the format of the log (`log`), filters (`filter`),
  the current status of every agent (`status`) and the previous state of a task (`previous`).
  `text` and `names` hold what the others need of strings, `event` the events and the state
  machine, `error` the errors.
- `app/` is the store on disk: files, JSON and stderr.
- `tests/` runs the library.

The functions of `src/` state in `ensures` what they return; of the time of a new event they state
only that its fraction is less than a second. The functions named `law_...` state what holds of
several functions together. What the library takes on trust of `std` stands in `src/text.rs` and at
`read_clock` in `src/event.rs`.
