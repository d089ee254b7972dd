# linebreak_tables

Writes the data files of a Meadow package that finds where lines of text may
be broken (Unicode Standard Annex #14), from the Rust crate
`unicode-linebreak` 0.1.5:

* `src/Tables.mw`: the line break class of every code point as runs, the
  crate's pair table (its whole state machine, as data), and which pairs of
  classes are safe places to resume breaking from;
* `src/Cases.mw`: test strings, fixed and random, with the break
  opportunities the crate finds in them and where it splits them for a safe
  restart.

Both are strings of fixed-width records of base-64 digits inside one string
literal.

## Layout

* `src/` is the library, verified with Verus: the encodings (`encode`), the
  fingerprint of the crate's driver (`fnv`), the class runs (`classes`), the
  pool of characters (`pool`), the random generator (`rng`), the byte order
  of strings (`order`), the test strings and their records (`cases`), the
  tables file (`tables`), and the reading of the data that the crate keeps
  private from its source text (`source`).
* `app/main.rs` finds the crate's source with `cargo metadata`, checks the
  driver's fingerprint, and writes the two files.
* `tests/` holds the tests.
