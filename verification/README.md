# neomake

A build orchestrator whose decisions are verified with Verus. It reads a TOML
configuration, builds a dependency graph of its tasks, and runs these
concurrently, each after the tasks that it depends on.

```toml
[tasks.build]
command = "cargo build --release"
inputs  = ["src/**/*.rs", "Cargo.toml"]
outputs = ["target/release/myapp"]

[tasks.test]
command = "cargo test"
deps    = ["build"]
```

```bash
neomake run               # runs every task
neomake run build         # runs just `build` and what it depends on
neomake list              # shows the tasks in topological order
neomake cache status      # prints cache entry count and size
neomake cache clean       # empties the cache directory
```

## Layout

`src/` is the verified library.

| Module                          | What it holds                                                   |
|---------------------------------|-----------------------------------------------------------------|
| `text`, `order`, `name_map`     | texts, their order, maps keyed by names                         |
| `time`                          | durations                                                       |
| `task`, `task_set`, `config`    | tasks, the tasks of a configuration, finding and reading it     |
| `graph`, `kahn`, `cycle`, `dag` | the dependency graph: its order, its cycles, its construction   |
| `repeat`                        | names that are declared more than once                          |
| `graph_laws`                    | what holds of the order and of the cycle that is reported       |
| `select`                        | the tasks that given targets need                               |
| `plan`, `run`, `run_laws`       | planning a run, the course of each task, how failures spread    |
| `slots`                         | how many commands run at a time                                 |
| `executor`                      | statuses, outcomes, events and reports                          |
| `shell`, `command`              | which shell runs the commands, and how                          |
| `console`, `cli`                | what is printed, what is asked for                              |
| `error`, `tomlx_error`          | the errors and what they say                                    |

`app/` is the program around it: arguments, files, processes, channels.
`tests/` runs the library on concrete values.

Nothing is kept in the cache directory: every task is run. A configuration is
plain TOML.
