# ocel-transform

Recipe-driven [OCEL 2.0](https://www.ocel-standard.org/) log transformation,
verified with Verus: clean, rename, filter and merge event logs before mining.

```sh
ocel-transform --in fd.sqlite --recipe clean.json --out fd.clean.sqlite
```

A recipe is a named, ordered list of steps. The output is a new, valid OCEL
log, and every step reports what it changed.

| Step | Effect |
|---|---|
| `dropEventTypes` / `keepEventTypes` | drop or keep events by type; objects stay |
| `dropEventsWhere` | drop events that match a predicate: `eventType`, and/or `attr` with `equals` / `matches` / `min` / `max`; all set conditions must hold |
| `renameEventTypes` | rename event types; several old names may merge into one |
| `timeWindow` | keep events in the half-open window `[from, to)` (RFC 3339 or `YYYY-MM-DD`; a date-only `to` includes that day) |
| `keepObjectTypes` | keep objects of these types; events no longer related to any kept object are dropped |
| `dropObjectsWithoutEvents` | drop objects no remaining event references |
| `mapObjectIds` | re-key objects through an alias table; ids with one canonical id merge, references follow |
| `union` | merge another log; identical events are skipped and counted, differing ones fail the step |
| `keepRelatedTo` | keep the objects reachable from the objects of one type |
| `liftEvents` | relate events to the objects that their objects are O2O-linked with |

## Layout

- `src/` is the verified library. `recipe` holds the steps, `model` the log and
  its mathematical model, `apply` runs a recipe; `filter`, `matcher`, `window`,
  `staging`, `sublog`, `graph`, `lift` and `merge` hold the steps themselves.
- What holds of every run is proved in `laws`. `preserving`, `integrity` and
  `aliasing` show that steps keep a valid log valid; `effects`,
  `object_effects`, `reaching`, `settling` and `merging` show what they do to
  events and objects; `sealing`, `restaging`, `lists` and `text` hold what these rest on.
- `app/` is the command line around the library: it reads and writes files and
  turns recipe files into recipes.

## What is trusted

`ocel` holds, filters and validates logs, `ocel-etl` stages them, `regex`
matches patterns and `chrono` reads times. The library calls them through small
functions whose contracts say what is believed of the calls. They are marked
`external_body` or stand in an `assume_specification`, and their comments begin
with "Trusted" or name the call.
