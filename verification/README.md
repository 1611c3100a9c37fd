# leviath_runtime

The decision-making core of an agent runtime, verified with Verus: what happens to an
agent's context, which stage follows which, how work fans out to workers and comes back,
and what a host reports of its runs.

`src/` holds the library. Every function there is verified against its contract; what it
takes from `serde_json` and from the standard library without a specification of its own
stands behind a few declared items in `src/json.rs` and `src/text.rs`.

| Module | What it is about |
| --- | --- |
| `text`, `table`, `json` | Text, small name tables and JSON values |
| `components`, `context`, `blueprint`, `world` | The data: agents, windows, blueprints, the world |
| `engine` | The steps of an inference loop and what its drivers do, message delivery, tool results, compaction |
| `graph`, `stages` | Transitions between stages, what they do to the context, and entering a stage |
| `fanout` | Splitting work, driving workers, collecting and reporting their results |
| `interaction`, `gate_prompt` | Questions to people, and the taint-gate prompt |
| `host` | The world host: events, listing, relief, control operations, settings |

Each data type has a view, each operation a spec function over views, and the functions'
`ensures` relate the two. What holds of several operations together is stated by the
public proof functions named `law_…`.

`tests/` runs the library on concrete values. `app/` is ordinary Rust around it: the async
drivers of the inference loop, the serve loop, channels and locks, and serialised copies of
library types.
