# tfhela

A TFHE toolkit whose arithmetic is specified and proved with Verus.

## Layout

- `src/math/modular`: modular sum, difference and product; rounded modulus
  switching.
- `src/math/polynomial`: the number-theoretic transform (Cooley-Tukey,
  iterative) and its inverse, with the discrete-Fourier-transform theory it
  rests on; polynomials over `u64` with cyclic and negacyclic products,
  shifts, rounding and gadget decomposition; the algebraic laws of these
  products.
- `src/math/summation.rs`: finite sums and their lemmas.
- `src/random`: uniform random scalars.
- `src/tfhe`: the scheme's parameter sets, GLWE / GGSW / LWE ciphertexts,
  secret keys (encryption, decryption, key generation), and the server side:
  external product, CMUX, sample extraction, key switching and bootstrapping.
- `src/encoding.rs`: text forms of coefficient lists.
- `app/`: what stays outside the proofs: Gaussian noise, which is drawn in
  floating point and handed to the verified encryption functions, and
  evaluation with a lookup function given as a closure.
- `tests/`: tests run against the compiled library.

Each public function states in its `ensures` clause what it computes, over
the mathematical model of its arguments; functions that draw random values
state what holds of every value drawn. The laws of the library are public
proof functions: the inverse transform undoes the transform, the transform
turns cyclic convolution into pointwise products, decryption recovers the
message plus the noise, adding or subtracting ciphertexts adds or subtracts
what they decrypt to, and what the external product, the CMUX, each step of
the bootstrap, sample extraction and key switching decrypt to, in terms of
what their inputs and the rows of the keys decrypt to. Ciphertext
arithmetic, encryption and decryption work modulo the prime `Q + 1`; plain
polynomial `add` and `sub` wrap at `2^64`, and so do the coefficients of the
negacyclic product, which is associative, commutative, distributes over
`add` and has `1` as its unit. The transform is stated as a discrete Fourier
transform for orders up to `2^32`, the range of its twiddle exponents.
