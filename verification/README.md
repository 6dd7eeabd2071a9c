# quanjp

A symbolic prime hunter. Candidates are base-4 digit strings over the
alphabet {-1, 0, 1, 2} (-1 stands for the digit 3), filtered by cheap
checks on the symbols, collapsed into a big number and confirmed by a
Miller-Rabin test. Each prime found is sealed with a PhaseToken (SHA3-512
hashes) and written to a text file; the files and a SQLite history feed the
pattern matrix that guides later hunts.

## Layout

- `src/` is the library, verified with Verus:
  - `symbols`: the symbol model, the oddness, residue and partial-collapse
    gates, symbol and transition counts, and the collapse to a number;
  - `bignat`: the natural numbers the library computes with;
  - `primality`, `theory`: the Miller-Rabin test and the number theory
    (Fermat's little theorem) behind the proof that it accepts primes;
    modular powers and random witnesses come from `num-bigint`;
  - `pipeline`: one candidate through all the gates in order, with the
    floating-point score and entropy gates decided by the caller;
  - `token`: the PhaseToken;
  - `discovery`, `report`: writing the file of a discovery and reading it
    back, with the proof that a read gives back what was written;
  - `training`: where training sequences come from, including the symbols
    of a list of result files;
  - `cli`, `search`: options of the batch experiment and the planning of
    parallel searches;
  - `text`: text handling with the meaning of Rust's `str` methods.
- `app/` is the program: the hunt, the batch experiment (`quanjp
  batch-stats`), the search planner (`quanjp multi-search`) and the history
  ingester (`quanjp ingest-history`). It holds the I/O, the threads and the
  floating-point scoring of the pattern matrix.
- `tests/` runs the library on concrete values.
