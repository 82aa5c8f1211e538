# crates_pro

The verified core of the crates-pro service, which indexes Rust crates,
their versions, dependencies, advisories and contributors.

* `src/` is the library, written in Verus and proved: version matching
  against advisory ranges, the cache encodings of front pages and
  advisories and the front-page cache decision, search paging, dependency,
  dependent and versions pages, decoding of graph query rows, the graph
  walk, the registry mirror's log replay, contributor analysis from git
  output, the GitHub paging and commit tally, analysis job planning and
  warning extraction, upload handling, the repository-list conversions
  from CSV, and the small text, number and path routines they share. Each
  public function states its result in its contract; the laws that tie
  functions together are public proof functions (round trips of the cache
  encodings, of stored statuses and of `name/version` texts, permutation
  and order of the replay, the walk's bookkeeping and its completeness,
  the import task's batching and exit, the paged day search, the tally's
  totals).
* `tests/` runs the library on concrete values.
* `app/` holds the drivers around the library: the mirror's sync loop,
  the analysis tool runs, uploads, the GitHub client, the PostgreSQL and
  Redis reads and writes of the cached pages, the repository-list
  conversions' file handling, plugin loading and git invocations. The
  service's HTTP handlers and its graph-database queries are not part of
  it.
