# Generalist

Everything around a small looped byte-level transformer that can be stated
exactly: the task families and the demonstration protocol that make its data,
the dispatch, collation and metrics of its experiments, the schedule of its
training runs, and the control flow of its model and optimizer. The library is
verified with Verus; the tensors run through Burn in a thin program around it.

The question the project asks: given a few in-context examples, can a looped
transformer pick up a rule and apply it? So what the data does has to be beyond
doubt. Demos follow their instance's rule, all but at most one that was
corrupted. Under the exclusion policy demos that show the answer are rendered
anew; the copy and substitution tasks never show it at all, while parity, with
two answers only, balances them instead. Demo and query inputs come from
separate length ranges, except for commands, where they differ in the number of
clauses that they may have. Every pool is a function of its seeds.

## Layout

- `src/tasks/` - seeded generator (`rng`), probabilities as cutoffs on its draws
  (`rate`), the demonstration protocol (`demo`), the registry (`mod`), and the
  task families: `parity`, `dyck`, `fst`, `periodic`, `copy`, `scan`
- `src/harness/` - experiment dispatch, batch collator, evaluation cells, JSONL
  metrics, run manifests and chains
- `src/train/` - batch sampling under activation budgets, scheduled sampling,
  evaluation splits, greedy decoding row by row, the stage clock
- `src/model/` - configuration and parameter counts, attention chunks and masks,
  halting loops, parameter inventory
- `src/optim/` - which gradient goes to which optimizer, how micro-batches
  merge, when preconditioners refresh
- `src/data.rs`, `src/text.rs` - the boundary to Burn's tensor data and to std's
  strings
- `src/fail_fast.rs` - stall detection
- `app/` - the program: tensors, floating point, files, processes, threads
- `tests/` - the library on concrete values

`Cargo.toml` names `burn-core`, a part of Burn, only to switch on its `std`
feature, which the file recorder for checkpoints needs.

## Where to start reading

A rule is a `RuleModel`: what it renders and accepts as functions of the
generator state. A task is a `TaskModel`: the rule it samples. `demo::built`
says which instance a protocol makes of a rule and a state, and
`experiment::generated` which pool an experiment makes of a registry. The laws
about them are the public proof functions beside each definition.

Probabilities are kept as cutoffs on 64-bit draws; `Rate::from_bits` turns the
encoding of a binary64 number into the cutoff that comparing with that number
amounts to, rounding of the draw included.
