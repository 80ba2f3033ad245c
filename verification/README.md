# paradox

A SAT and SMT solver library whose logic is verified with Verus.

- `src/` is the verified library: literals, clauses, formulas and assignments; the
  CDCL search one step at a time (`solver::search`), conflict analysis, propagation,
  clause learning and MaxSAT; the DIMACS and SMT-LIB readers; the theory solvers (EUF,
  linear integer bounds, bit-vectors, arrays) and their manager; the Tseitin encoding
  of SMT problems (`dpll_t`); and a DRAT proof checker (`verify::checker`).
- `app/` is the command-line program around it: argument handling, file I/O, the
  clock, and the floating-point decision and restart heuristics that drive the search.
- `tests/` exercises the library through its public interface.

The library is checked with Verus; the tests run with cargo.
