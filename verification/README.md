# vyre_passes

Verified versions of three small passes over a GPU IR, written in Verus.

- `src/fma.rs`: identity elimination. A fused multiply-add `a * b + c` is replaced by
  `c` only when one factor is a literal zero and the other a finite literal. The pass
  is specified op by op (`remap_after`), with laws for soundness of every fold,
  bodies without multiply-adds, and idempotence on bodies in SSA order.
- `src/licm.rs`: the purity gate of loop-invariant code motion; convergent subgroup
  collectives and stores are never hoistable.
- `src/fusion.rs`: the scalar-dependency analysis that blocks loop fusion; every
  operand of a compare-exchange, `expected` included, is a read.
- `app/lib.rs`: the float reading of a literal, kept out of the verified library.
- `tests/`: concrete scenarios for all three passes.
