# load_tester

An HTTP load tester: it sends a growing number of `GET` requests per second to
a URL, then reports how many were answered, their status codes, the smallest,
largest and average response time, and a chart of the times.

- `src/` is the verified library (Verus):
  - `schedule.rs` — how many requests go out in each second, and the count of
    requests sent;
  - `request.rs` — splitting `key=value` headers and query strings, and
    handing them to reqwest's request builder;
  - `stats.rs` — the statistics over the answers and the final report;
  - `models/`, `cli.rs` — the data types.
- `app/` is the program around it: command-line parsing (clap), threads,
  sending the requests, timing, printing and the chart (textplots).
- `tests/` runs the library on concrete values.
