# r_descent

Nearest-neighbour tables built by descent over ternary embeddings, with a
search that walks the table, written in Verus and verified.

## Model

* A data set (`dao::Dao`) holds embeddings whose entries are -1, 0 or 1;
  the similarity of two points is their integer inner product, so every
  comparison the algorithms make is exact.
* A table row is a list of `nality::Nality` entries: a data point's id and
  its similarity to the row's point.
* One round of descent has three phases: rows are split into new and old
  lists by a random sample (`phases`, `descent`), reverse lists of bounded
  length are gathered (`phases::build_reverse_lists`), and a local join
  proposes pairs to the rows (`join`, `update::check_apply_update`). The
  join proposes rows in row order, so its effect is stated exactly as a
  sequence of proposals (`update::apply_candidates`).
* Contracts describe results over `Seq`s of rows; the random draws come
  from `rand` through two small trusted wrappers in `random`, and results
  that depend on them are stated for every outcome of the draws.

## Layout

* `src/` – the verified library: similarity, data set, table entries,
  the phases of descent, descent itself, table building, search, sorting
  by integer keys, output windows and evaluation (top-k and recall).
* `tests/` – tests run against the compiled library.
* `app/` – the command-line programs: file reading and writing, argument
  handling, and the floating-point preparation of embeddings and keys.
