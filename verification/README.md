# ductile

A declarative pipeline engine: a piece of work in several steps is written down as
a pipeline, every step may have several implementations, and where one of them
fails the next takes over. This crate is the engine's logic, verified with Verus.

- `src/` is the library. Every function states in its contract what it returns, over
  spec functions on sequences, sets and maps; public proof functions named `law_*`
  state what holds of several functions together.
- `tests/` runs the library on concrete values.
- `app/` is the command line around it: the SQLite store, files, processes, the
  environment and everything that needs floating-point numbers.

| Modules | What they hold |
|---|---|
| `ast`, `body`, `text`, `order` | pipelines as data, bodies of implementations, texts, ordered sets and maps |
| `egraph`, `fuse`, `unionfind`, `egraph_laws` | the e-graph of a pipeline and the rules that join equal work |
| `schedule`, `topo`, `plan`, `plan_laws` | layers, topological order, the critical path, and the plan with one implementation per class |
| `flow`, `tries`, `condition`, `critical`, `errflow` | running a pipeline step by step: conditions, contracts, tries, and what an error means for the procs behind |
| `dslresult`, `block_laws`, `negotiate`, `json`, `jvalue` | structured results, asking back for missing input, JSON |
| `hyper*`, `shape_laws` | hypergraphs of stages: reading, checking, writing skeletons, finding graphs of the same shape |
| `script`, `script_card` | contracts of scripts |
| `records`, `records_laws`, `incident`, `review`, `ranking`, `policy` | what is kept of runs, and what is learned from it |
| `explore`, `harvest`, `grow`, `tree` | explorations, past commands, constructs grown from them, session trees |
| `cli`, `config`, `report`, `time` | the command line, settings, reports, dates |

A run is a state machine: `flow::Flow` says what is to be done next, and whoever
drives it performs the step and hands the outcome back. Explorations
(`explore::Explore`) and runs over items (`tries::Items`) work in the same way.
