# limmb

Markov blanket discovery over discrete data sets: a verified core of
frequency tables, value numbering and search steps, and a Python module
around it.

## Layout

- `src/` is the library, verified with Verus.
  - `radix.rs`: mixed-radix numbering of value combinations, with the laws
    that numbering and decoding undo each other.
  - `varset.rs`: attribute sets and their increasing order.
  - `combs.rs`: projections of rows onto attributes, row counts, and the law
    that marginal counts are sums of joint counts.
  - `metadata.rs`, `dataset.rs`: the data set, the value counts of each
    attribute, the index of each value, combination numbers, random samples.
  - `prob_map.rs`: a table of combination counts (`ProbabilityMap`), its
    marginals and the most frequent value of an attribute.
  - `bitset.rs`, `join.rs`, `prob_tids.rs`: a table of the row sets of each
    combination (`ProbabilityTIDs`), kept in `bit_set::BitSet`, and the join
    of two such tables.
  - `g2test.rs`: degrees of freedom of the G test.
  - `search.rs`: the children of a node of the depth-first searches over
    attribute sets, with the law that the search reaches each subset once.
  - `mb.rs`: the result of a blanket search.
- `tests/` runs the library on concrete data.
- `app/` is the Python module (`pyo3`): the statistical tests, which work in
  floating point, and the blanket searches that they steer, on top of the
  library.
