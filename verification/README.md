# c2rust-analyze

A whole-program analysis of the raw pointers in a Rust program. It finds out what is done through
each pointer, and from that, which pointers can become references; then it rewrites the program.

`src/` is the library: all decisions of the analysis, verified with Verus.

- `ty`, `flags`, `pointer_id`, `def_id`, `keyed_map`, `maybe_unset`: types with a pointer at every reference and
  raw pointer, what is known of pointers, and tables for both.
- `callgraph`, `graph`: the functions, callees before their callers, and who calls whom.
- `adts`, `definitions`, `fixed_defs`: what a program mentions and defines, and what is left alone.
- `labeling`, `mir`, `temporaries`, `function`, `program`: the labels of a program and of each
  function.
- `wellformed`: whether what the compiler hands over fits together.
- `assignment`, `fixing`, `permissions`, `pdg`, `pointee`, `relabel`, `remap`: the tables that the
  passes work on.
- `constraining`, `solving`, `gathering`, `remapping`, `assigning`, `checking`, `rewriting`: the
  passes, in their order. Each says which function comes next and what is to be done with it, and
  keeps what comes of it. The work on a single function is done outside.
- `describe`, `report`, `text`: what is printed.
- `marks`: marks on nodes whose types are related.

`app/` reads files and environment variables, asks the compiler, runs the passes and prints. The
module that talks to the compiler needs the compiler's own crates.
