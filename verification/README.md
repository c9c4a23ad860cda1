# cargo-grime-cremator

Garbage-collects stale files from cargo target directories without invoking the
compiler. After a build, `cargo gc` removes what in `target/` no longer belongs
to the project: artifacts of crates that left the dependency graph, of
superseded or long unused units, of pruned targets, and old incremental
sessions. A fresh build followed by `cargo gc` is a fixed point.

The library under `src/` decides what goes; it is verified with Verus. The
program under `app/` reads the disk, runs `cargo metadata`, and carries out what
the library decides on.

| module | what it holds |
| --- | --- |
| `text`, `names`, `order`, `timestamp` | texts, sets of names, selections from listings, points in time |
| `inventory`, `listing` | the names that cargo gives to files, and what a walk over a profile dir finds |
| `live_set` | the names that a project has in use |
| `units` | superseded units and pruned targets |
| `sweep`, `plan` | what a sweep removes, and in what order |
| `age`, `civil` | max-age texts and the calendar |
| `target_dir`, `cli` | where a project builds, and what the command line asks for |
| `report`, `version` | the lines that the program prints |
| `laws`, `unit_laws`, `listing_laws`, `name_laws`, `time_laws` | what holds of the library as a whole |

The library takes from outside crates how `humantime` reads a duration and how
`toml` reads a config file; each such call stands behind one function with a
stated contract.
