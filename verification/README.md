# agent_consensus

Builds consensus among the answers that several agents gave to one prompt.

* `src/` is the library, verified with Verus.
  * `similarity` — normalisation (lower case, trimmed), the longest common
    subsequence by dynamic programming (proved to be the longest), the
    similarity ratio, and the pairwise similarity matrix.
  * `strategies::quorum` — single-linkage clustering, ranking of clusters,
    and a strict-majority vote.
  * `strategies::prisoners_dilemma` — three rounds of an iterated prisoner's
    dilemma in which defectors lose a fifth of their weight each round.
  * `engine` — input checks and dispatch by strategy name.
  * `models` — the data types and `KeyedTable`, a table with unique keys.
* `app/` is the command-line program: it reads JSON, converts decimal
  confidences and thresholds to the library's fixed-point millionths, and
  prints the result as JSON.  Exit codes: 0 consensus, 2 no consensus,
  1 error.
* `tests/` exercises the library on concrete inputs.

Confidences and similarity thresholds are integers in millionths.
Similarity scores are exact fractions, compared with a threshold by
cross-multiplication; two clusters merge only when some pair of their
members is strictly more similar than the threshold.  The ratios in the
result (agreement, confidence score) are exact fractions too, which the
program prints rounded to three decimals.
