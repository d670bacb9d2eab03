# supervictor

Fleet-health logic of the supervictor IoT platform, verified with Verus.

## Layout

- `src/` — the verified library.
  - `time.rs`, `calendar.rs`, `text.rs`: RFC 3339 formatting and parsing of
    UTC timestamps, with the proof that parsing undoes formatting up to the
    end of year 9999.
  - `fleet.rs`: staleness classification, fleet snapshots and summaries.
  - `middleware.rs`: client-subject extraction, the admin gate, log
    sanitizing.
  - `ui/`: CSRF double-submit cookie handling, the dashboard's table rows,
    status toggle and sparkline data.
  - `watchdog.rs`: which devices went dark or recovered between two ticks.
  - `store/`: store errors and the DynamoDB item mapping of records.
  - `cli.rs`: the operator CLI's fleet table.
  - `edge.rs`: the device telemetry payload and its field capacities.
  - `json.rs`: the JSON pointer look-up made through `serde_json`.
- `tests/` — tests of the library on concrete values.
- `app/` — the service shell: axum routes, the DynamoDB client, maud pages,
  the event stream, the watchdog loop and the CLI's HTTP call.
