# mnemosyne_core

A verified library for reading Java heap dumps (HPROF) and reasoning about
what they hold, written in Verus.

- `src/` is the library. Every function in it carries a `requires` /
  `ensures` contract that Verus proves: the HPROF record and sub-record
  parsers, the streaming overview pass, the object graph, dominator trees
  and retained sizes, GC-root paths, histograms and graph metrics, the
  object query language (parser and evaluator), the policy rules and their
  text and JUnit reports, leak-to-source mapping, plugin registry, and the
  decisions of the tool server (routing, argument checks, error details,
  tool catalog, sessions).
- Calls into outside crates (petgraph's dominators, regex) and a few std
  functions stand behind small trusted wrappers whose contracts say what the
  outside code does; each wrapper's doc comment names it.
- `tests/` exercises the library on concrete inputs.
- `app/` is the unverified plumbing around it: file and network I/O, JSON
  and TOML (de)serialisation, provider calls, and the floating-point labels
  of summary views.
