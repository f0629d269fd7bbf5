# olap_engine

A small multidimensional (OLAP) database, written and proved in Verus.

A database is a catalog of shared dimensions and of cubes over them. A dimension
holds a bank of leaf members and any number of hierarchies, in which aggregates
consolidate their components by weight. A cube holds its cells sparsely by the
ids of their members: of leaves, which are made where they are missing, unless a
cell is put at the name of an aggregate of the default hierarchy. A question for
aggregates is answered by adding up the cells of the leaves below them, and the
answers are kept until a cell is written. A number that is inserted at an
aggregate is spread over the leaves below it. Cubes are read and written by SQL
and by the commands of a shell.

## Layout

- `src/` is the verified library.
  - `text` and `number`: strings as sequences of characters, and the arithmetic
    that cells are generic over.
  - `storage`: ordered maps and the sparse cell store.
  - `dimension`: dictionaries, hierarchies and dimensions.
  - `cube`: cells, reading, writing and splashing, slices and CSV import.
  - `catalog`: the database, and the frame of its file format.
  - `engine`: the SQL statements that are understood, and what each does.
  - `shell`: arguments, commands and batch files.
- `tests/` runs the library.
- `app/` is the command-line program: floating-point cells, files and the
  terminal.

Each type has a mathematical model, which is its view. The contract of an
operation gives the model after it, and its answer, as a function of the model
before it. What holds across operations stands in the files named `laws` and
`*_laws`.

What comes from outside is stated by trusted items, each with a doc comment: the
string functions of the standard library in `src/text.rs`, the CSV reader in
`src/cube/import.rs` and the SQL parser in `src/engine/syntax.rs`.
