# discovery-engine-core

The decision logic of a news discovery engine, verified with Verus: which
stacks ask for new articles and when, how the answers of the news providers
are collected, de-duplicated, clustered and selected, how user reactions and
trusted or excluded sources change the engine's state, how the queries to the
providers and the rows of the database are formed, and how the message loop
links responses to requests.

## Layout

- `src/` — the verified library. Each module states its contracts over
  mathematical models (`Seq`, `Set`, integers) and proves them; the laws that
  relate several functions are public proof functions.
  - `text`, `expression`, `filter`, `query`, `clean_query`, `provider`:
    search filters, provider queries and endpoints.
  - `content`, `dedup`, `clustering`, `selection`: the articles, their
    de-duplication, the semantic clusters and the exploration selection.
  - `stack`, `sources`, `engine`, `requests`, `ops`, `config`, `document`:
    stacks, sources, the engine's decisions and its paging.
  - `storage`, `state`, `message`: database rows, the serialized state and
    the message loop.
- `tests/` — tests of the library on concrete values.
- `app/` — the parts that do I/O or compute with floats: HTTP providers,
  the float similarity measures, the bandit sampler and the async message
  loop.
