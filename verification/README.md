# stackscope

Static worst-case stack depth (WCSD) analysis of ARM Cortex-M firmware images, written in
Verus.

- `src/types.rs`: the execution graph (functions as nodes, calls as edges) over petgraph,
  with its model (`nodes()`, `edges()`) and well-formedness (`wf()`).
- `src/ege/`: building the graph from an ELF image: functions from the symbol table
  (`elf_parser`), frame sizes from `.debug_frame` (`dwarf_cfi`), call edges from the Thumb
  disassembly of `.text` (`cfg_builder`).
- `src/sdt/`: the analyses: the deepest simple call path from an entry and whether recursion
  is reachable (`abstract_interpreter`), recursion cycles as strongly connected components
  (`cycle_detector`), and the comparison of a baseline and a candidate image: stack growth,
  new recursion and a changed critical path (`diff_engine`).
- `app/main.rs`: the command line tool (`analyze`, `diff`; text, JSON or SARIF output, exit
  codes for CI).

The library's contracts and laws are checked by Verus; `tests/` runs it on concrete graphs
and on small ELF images built in memory.
