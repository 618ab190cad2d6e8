# since-until

Honest, calendar-aware date differences with user-defined named anchors,
verified with Verus.

- `src/calendar.rs`: valid proleptic Gregorian dates (`Date`), month shifts
  with day clamping, day counts; chrono does the calendar work behind small
  trusted wrappers.
- `src/span.rs`: the signed difference of two dates in years, months and days
  and its humanized sentence, with the laws that the breakdown is unique and
  that swapping the dates only flips the direction.
- `src/anchors.rs`: the nickname store (sorted, case- and space-insensitive
  keys) and the resolution of a token: ISO date first, then anchor.
- `src/cli.rs`, `src/mcp.rs`: the decisions of the `since` / `until` command
  lines and of the MCP tools, as pure functions of the loaded store.
- `src/text.rs`: decimal rendering, whitespace trimming, code-point order.
- `app/`: the binaries: file I/O and JSON for the anchors file, the clock,
  and the MCP server.
