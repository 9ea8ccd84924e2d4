# fri_security

Exact soundness bookkeeping for hiding FRI proofs, and the randomization that makes them hiding.

The library under `src/` is verified with Verus:

- `natural`, `rational`, `powers`: unbounded integers and exact rationals.
- `air`, `deep`, `proximity`, `rbr`: the reports on AIR composition, DEEP-ALI, list sizes and the
  round-by-round failure events of one hiding FRI profile.
- `field`, `baby_bear`, `domain`, `matrix`: fields, two-adic cosets, their transforms, and matrices.
- `quotient`, `selectors`, `recomposition`, `quotient_lde`: the randomization of quotient chunks,
  and that it keeps what they recompose to.
- `interpolation`, `split_quotient`, `quotient_recomposition`: polynomials are determined by their
  values on a coset, so the randomized chunks of a quotient recompose to the quotient itself.
- `trace`, `openings`, `hidden_openings`, `hiding_pcs`: what a hiding commitment scheme adds to a
  plain one.

Big integers, the Baby Bear arithmetic and the transforms come from `num-bigint`, `p3-baby-bear` and
`p3-dft`, behind small private functions whose contracts are stated next to them.

`app/` holds the floating-point estimates and the commitment scheme over the traits of the proof
system. It samples the random values, hands them to the library, and words what a run reports.
