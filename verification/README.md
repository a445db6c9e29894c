# 5v5 real-time matchmaker

Waiting players are held in memory and grouped into balanced teams of five
against five. Each match is anchored on the longest-waiting player; the skill
window around the anchor widens with its wait, and past a hard deadline the
anchor is matched with the nine nearest players of the whole pool.

The engine is a Verus library: what it decides is stated in contracts and proved.

| Module | What it holds |
|---|---|
| `number` | single-precision numbers by bit pattern: order, bounds, thousandths |
| `clock`, `ids` | the monotonic clock, fresh UUIDs |
| `model` | players, matches, requests |
| `config` | defaults and overrides |
| `metrics` | counters and their snapshot |
| `pool` | the player store with its skill and wait indexes |
| `matcher` | attempts: anchor, gather, select, evict, settle |
| `balancer` | the best of the 252 splits of ten players |
| `api` | queueing |
| `fairness` | what attempts guarantee: anchoring, nearness, no starvation, no double booking |

`app/` is the service around it: environment, HTTP, Tokio workers, and the
floating-point arithmetic on skills, windows and scores, whose results the
library takes as they come. `tests/` runs the library.

What the library relies on unproved are the calls into `DashMap`, `BTreeMap::range`,
`slice::sort`, `Itertools::combinations`, `Uuid::new_v4` and `Instant`; each stands in
a small function of its own whose comment says what is claimed of it.

## Configuration

| Variable | Default | Meaning |
|---|---|---|
| `MM_BIND` | `0.0.0.0:3000` | Listen address |
| `MM_WORKERS` | CPU cores | Concurrent matching workers |
| `MM_INITIAL_WINDOW` | `5.0` | Skill window width at t=0 |
| `MM_MAX_WINDOW` | `40.0` | Skill window width after relaxing |
| `MM_RELAX_SECS` | `30.0` | Seconds to relax from initial to max |
| `MM_CROSS_REGION_AFTER_SECS` | `8.0` | Wait before cross-region fills are allowed |
| `MM_HARD_DEADLINE_SECS` | `45.0` | Wait after which window and region no longer matter |
| `MM_CANDIDATE_CAP` | `256` | Most candidates of an attempt |
| `MM_IDLE_SLEEP_MS` | `5` | Sleep between scans of a thin pool |
