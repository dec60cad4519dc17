# janitor

A janitor for a self-hosted `registry:2` store of short-lived images. The registry has no expiry of
its own; the janitor keeps the last `N` tags of each repository, by push time, deletes the rest, and
runs `registry garbage-collect` to reclaim the disk.

- `src/` is the library, written in Verus. It holds every decision, with its contract: what to
  delete (`retention`), which directories are repositories (`walk`), which tags a repository has and
  where they stand (`registry_fs`), the course of a sweep (`sweep`) and of the janitor (`janitor`),
  the command for the garbage collector (`gc`), the text of the log (`log`), and the settings
  (`config`). `order`, `names` and `text` are what these are made of.
- What holds of several functions together is stated there as proof functions whose names start
  with `law_`. `discovery` says what a walk finds in a store, `pruning` what a sweep leaves of it.
  `paths` says which path stands below which; on it rest `disk` and `footprint`, which say what a
  deletion and a sweep leave untouched on disk.
- `app/` is the program around the library: it reads the environment and the disk, deletes, sleeps
  and runs the collector, each as the library says.
- `tests/` runs the library on stores in memory.

## Settings

| Variable                  | Default                           | Meaning                                  |
| ------------------------- | --------------------------------- | ---------------------------------------- |
| `JANITOR_DATA_DIR`        | `/var/lib/registry`               | The registry's `rootdirectory`           |
| `JANITOR_REGISTRY_CONFIG` | `/etc/docker/registry/config.yml` | The registry's configuration, for GC     |
| `JANITOR_REGISTRY_BIN`    | `registry`                        | The registry binary                      |
| `KEEP_LAST_N`             | `10`                              | Tags kept per repository                 |
| `JANITOR_INTERVAL_SECS`   | `3600`                            | Seconds between sweeps                   |
| `GC_DELETE_UNTAGGED`      | `true`                            | Pass `--delete-untagged` to GC           |
| `RUN_GC`                  | `true`                            | Run GC after a sweep that deleted tags   |
| `RUN_ONCE`                | `false`                           | One sweep, then exit                     |
| `DRY_RUN`                 | `false`                           | Log what would be deleted, change nothing |
