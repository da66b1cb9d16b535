# tin_search

The logic of full-text search predicates in PostgreSQL, verified with Verus: how
the operator `==>` is evaluated and bound to an index, how a scoring call over one
column is rewritten to one over all searched columns, and how rows are scored
over several columns.

- `src/` is the library.
  - `operator`: the search operator, how it is recognized, bound, and turned into
    an index condition.
  - `fields`, `quals`, `truth`, `rewrite`: the searched columns of a query, its
    condition as a program with SQL's three truth values, and the rewritten call.
  - `keys`, `corpus`, `scoring`: what a score depends on, which documents of each
    column match, and the table of combined scores.
  - `catalog`, `text`, `single`: names of the catalog, putting texts together, and
    comparing singles by their bits.
  - `collections`: the hash tables, whose contracts are taken from `rustc_hash`
    and the standard library and are not proved here.
  - `laws`: what the rewriting promises to the functions that later read it.
  - `order`, `repeats`, `agreement`: what holds between two scores, where the query
    engine and the server give the same answer whenever they are asked the same:
    asked again, in another column order, under another condition, or with queries
    joined into one.
- `app/` is the extension around it. It reads and builds the server's expressions,
  runs statements, and calls the query engine.
- `tests/` runs the library on small examples.

The library never calls the server or the query engine itself. It is given them as
functions, and its contracts hold for whatever these functions return.
Expressions are numbers: two have the same number exactly when the server holds
them for equal. Scores are the bits of a single.
