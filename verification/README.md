# gbx-grobner

Gröbner bases over prime fields with the F4 algorithm, written in Verus.

- `src/` is the verified library: monomials and monomial orders, prime-field
  arithmetic, canonical sparse polynomials, multivariate division, ideal membership and
  its closure laws, S-polynomials,
  the F4 pipeline (critical pairs and their selection, symbolic preprocessing with
  product simplification, dense matrix construction and row reduction, extraction
  and insertion of new rows), the post-processing of a basis (minimisation,
  tail reduction, validation) and the trace counters. The cleanup passes of the
  interreduction and its three outcomes are modelled as relations between bases
  (`post/cleanup.rs`, `post/outcome.rs`), with lemmas that each input has one outcome.
- `app/` drives a run: it validates options, loops over `run_iteration` until the
  pending pairs are exhausted, post-processes the basis, times the phases and prints
  the trace through a lock-shared tracer.
- `tests/` exercises the library on concrete inputs.
