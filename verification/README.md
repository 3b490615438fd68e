# poulpy (verified core)

Verified pieces of a GLWE / CKKS homomorphic-encryption stack, written in Verus.

- `src/znx.rs` — negacyclic kernels in `Z[X]/(X^n+1)`: multiplication by `X^p`
  and by `X^p - 1`, with the laws of the monomial action (composition, inverse,
  period `2n`, `X^n = -1`).
- `src/glwe.rs` — GLWE ciphertexts as plain coefficient data (columns × limbs ×
  coefficients) and the column operations `glwe_rotate`, `glwe_rotate_assign`,
  `glwe_mul_xp_minus_one`, `glwe_mul_xp_minus_one_assign`.
- `src/ckks.rs` — CKKS metadata (`log_delta`, `log_budget`), the budget check and
  the decisions of complex conjugation.
- `src/slots.rs` — exact complex slot arithmetic used to derive expected values
  (scaling, slot-wise products, running products of alternating factors).

Tests under `tests/` exercise every public function on concrete values.

What is not in this crate: the backend dispatch traits of the wider stack
(CKKS addition, GLWE/GGSW/GGLWE automorphisms, conjugation defaults), their
one-line forwarders, and the end-to-end drivers that encrypt, operate, decrypt
and compare floating-point slots. They forward to kernels of other crates of
the stack, or depend on floating point. What they decide and compute on plain
values is here: conjugation's shift and budget bookkeeping, the CPU backend's
rotation and `X^k - 1` column operations, and the exact-slot helpers used to
form expected values.
