# cynos_database

The verified core of an in-memory database with live queries: rows and their identifiers, the
compilation of query plans into graphs that can be maintained incrementally, the refresh of live
results after changes, GraphQL subscriptions, transactions, and the conversion of values from and to
scripts.

- `src/` is the library. Every function states its behaviour in a contract that Verus proves. The
  properties that span several functions are the public proof functions whose names start with
  `law_`.
- `tests/` runs the library.
- `app/` is the side that faces scripts: it reads and makes script values, runs the store and the
  query executor for the library, keeps caches of encoded results and schedules flushes.

Floating point numbers are held by their bits. What the library needs of them (comparisons, sums),
and what it needs of patterns and paths into documents, it asks for: the functions that need such an
answer hand out a request, and are called again with the answer among their facts. Tables are read in
the same way: searches and refreshes are state machines that hand out what is to be read or run, and
take the outcome.
