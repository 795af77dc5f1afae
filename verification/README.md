# metrics_cloudwatch

Collects what an application records with the `metrics` crate and sends it to CloudWatch.

- `src/` is the library, verified with Verus. A `Collector` is told what is recorded, sums it up by
  period and by key, and gives it out, once it is due, as a batch of metrics; `put_requests` splits a
  batch up into requests that keep to the limits of CloudWatch. `src/laws.rs`, `src/totals.rs` and the
  functions named `law_...` in the other modules state what holds of the library as a whole.
- `app/` is ordinary Rust around the library: the recorder, the timer, the channels between them and
  the client that sends the requests.
- `tests/` runs the library on concrete values.

CloudWatch takes numbers as doubles. All numbers here are integers, so the library keeps a double as
the integer that it stands for and rounds where a double would (`src/double.rs`).

What is not proved but believed: that `chrono` writes a timestamp in the same way each time, and has a
date for each one up to the end of the year 262142; and that the system has a clock. Both are in
`src/time.rs`.
