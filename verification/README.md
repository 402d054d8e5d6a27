# model_generator

A generator of synthetic probabilistic risk-assessment models: layered
probabilistic DAGs (PDAGs), the fault trees and event trees derived from
them, and their Open-PSA MEF XML form, with the checks run on them.
The library in `src/` is written in Verus; its contracts state what its
functions compute, and its proof functions state properties that hold of
every generated model.  Where a result rests on the random draws, or on a
caller's function, the contracts state what holds of every outcome.

## Layout

| Path | Contents |
|------|----------|
| `src/text.rs` | decimal rendering, code-point order on strings |
| `src/names.rs` | sorted name lists and `NameMap`, an ordered map keyed by name |
| `src/config.rs` | the integer part of a configuration, its rules, the built-in profiles |
| `src/graph.rs`, `src/rng.rs` | the `petgraph` graph and the ChaCha8 generator, as the library sees them |
| `src/pdag.rs` | the layer-by-layer PDAG builder; laws: acyclic, enough children, distinct names |
| `src/fault_tree.rs` | the fault-tree model and the mapping from a PDAG |
| `src/event_tree.rs` | event trees with one sequence per outcome combination |
| `src/xml.rs`, `src/mef.rs` | XML events, their rendering with `quick_xml`, the MEF layout |
| `src/validator.rs` | structural, probabilistic and reference checks; laws on generated models |
| `src/connector.rs` | basic events shared across a batch's trees; batch list rows |
| `src/commands.rs`, `src/pipeline.rs` | the decisions and the model pipeline of `generate` and `batch` |
| `app/main.rs` | the `model-gen` command line: arguments, files, serde, floating-point steps |
| `tests/` | tests of the library |

Probabilities are doubles; the library carries them as their bit patterns
(`f64::to_bits`) and leaves the steps that compute with them (drawing,
weighting, formatting) to its caller, which passes them in as functions.
