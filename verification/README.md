# advent

Solutions to Advent of Code puzzles (2019, 2022, 2023), written in Verus:
each parser, simulation and search states what it computes in its
`requires` / `ensures`, and Verus proves the code meets it.

- `src/text.rs`: character-level specifications (decimal numbers, trimming,
  splitting) and the few calls into `std` that the parsers make.
- `src/common.rs`: a row-major grid, line splitting and bulk number parsing
  shared by the 2023 puzzles.
- `src/y2019`, `src/y2022`, `src/y2023`: one module per puzzle. Each module
  reads the puzzle's lines (already read from a file by the caller), and
  exposes the steps of the solution as functions with contracts; laws that
  relate several functions stand as public proof functions.
- `tests/`: the puzzles' examples and edge cases, run against the compiled
  library.

The library reads no files: callers hand it the lines of an input as
`Vec<String>`.
