# lib

Parameter sets of a lattice-based private information retrieval scheme,
verified with Verus.

- `src/params.rs`: `Params`, its construction (`Params::init`) and the sizes
  and CRT composition derived from it, with the laws that relate them.
- `src/ntt.rs`: bit reversal and the NTT tables of each modulus.
- `src/number_theory.rs`: gcd, modular inverses, primitive roots of unity.
- `src/arith.rs`: base-2 logarithms, modular multiplication and
  exponentiation, Barrett constants.
- `app/lib.rs`: the noise width as a double, and a construction that checks
  its inputs and panics on those the derivation cannot handle.

The noise width is kept as the bit pattern of an IEEE-754 double, since the
verified library holds no floating-point values.
