# kyber

A module-lattice key encapsulation mechanism (Kyber768 parameters: k = 3, q = 3329,
n = 256), written in Verus and verified.

- `src/utils.rs`: Montgomery and Barrett reduction, central and positive remainders,
  compression and decompression of coefficients.
- `src/ntt.rs`: the number-theoretic transform and its inverse, with the transforms
  over Z_q that they compute and the proof that each undoes the other.
- `src/poly.rs`: polynomials, vectors and matrices of them, and their arithmetic.
- `src/packing.rs`: bit packing of polynomials and keys, and the proof that unpacking
  gives back what was packed.
- `src/sample.rs`: SHA-3 and SHAKE (through the `sha3` crate), uniform sampling of the
  public matrix and centred binomial noise.
- `src/kex.rs`: the public-key encryption scheme (key generation, encryption,
  decryption), each stated exactly over Z_q.
- `src/correctness.rs`: the proof that decryption gives the message back whenever the
  noise stays within a quarter of q.
- `src/ccakem.rs`: the KEM: key generation, encapsulation and decapsulation with
  implicit rejection.
- `app/main.rs`: a small program that encrypts and decrypts a message.
