# home_mixer

Candidate filtering for a home-timeline mixer, written in Verus.

- `src/candidate_pipeline/`: the candidate type, the query type and the
  `FilterResult` that a filter returns.
- `src/filters/retweet_deduplication_filter.rs`: the retweet deduplication
  filter, its specification (`dedup_key`, `dedup_split`) and the proved
  properties of it (partition, preserved tweets, distinct kept tweets,
  first occurrences kept, idempotence).
- `tests/`: scenario tests.
- `app/`: a small program that prints a comparison of two floating-point
  scoring fixes.
