# bwg_usage

Traffic accounting for devices behind a sing-box proxy and for the servers that they go out
through: a dashboard that devices report to, a daemon for each device, an analyzer for each
server, and a command line.

- `src/` is the library. All of it is verified with Verus: what is counted, when it is reported,
  how reports are checked and taken in, what is shown of them, how a switch of the node rewrites
  the configuration, and which commands may manage the proxy. `src/foreign.rs` and
  `src/pattern.rs` hold the calls into `chrono`, `regex`, `serde_json` and the standard library
  whose contracts are believed.
- `tests/` runs the library on concrete values.
- `app/` is the program around it: files, sockets, processes, the clock, and the forms in which
  values are stored and sent.

What always holds is stated as public proof functions beside the functions that they are about,
such as `apply::repeated_report_counts_once`, `reporter::resent_report_counts_once`,
`tracker::first_sight_counts_nothing`, `outbound::switch_is_detected` and
`quota::weeks_follow_on_each_other`.
