# cargo-affected

Runs only the tests that a change affects. `cargo affected collect` runs the suite once with
instrumentation and records which lines of which functions each test reached. `cargo affected run`
compares the working tree with the commits at which coverage was recorded and runs the tests whose
recorded lines overlap a hunk, together with new tests, tests whose commit is gone, and tests named
by the rules under `[workspace.metadata.affected]`.

The library under `src/` is written in Verus. It holds every decision: what a diff, a listing, a
coverage export or a profile says; how the environment is fingerprinted; what the tables hold after
each write; which tests are selected and why; what is reported and said. Each function states its
result over mathematical values, and the modules whose names end in `_laws` (and the functions whose
names start with `law_`) state what holds of several of them together.

| modules | what they decide |
| --- | --- |
| `text`, `ordered`, `sorting`, `paths`, `time`, `process` | plain values that the rest is written with |
| `json`, `diff`, `git`, `listing`, `coverage`, `function_map` | what the tools printed |
| `project`, `fingerprint`, `config`, `nextest`, `args`, `llvm` | the workspace, its environment and its settings |
| `db`, `db_laws`, `schema` | the coverage tables |
| `reasons`, `selection`, `selection_laws` | which tests a change selects, and why |
| `plan`, `report`, `report_laws`, `narration` | what `run` and `status` do, report and say |
| `shim`, `collect` | what each test covered, and what a collection records |

The program under `app/` runs the processes, reads and writes the files and the SQLite database, and
parses the command line.
