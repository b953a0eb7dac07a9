//! KZG polynomial commitments over BLS12-381: a prover commits to a
//! polynomial with one point of G1 and proves, with one more point, its value
//! at a point or its values on a coset of roots of unity; a verifier checks
//! such a proof with one equation of pairings.
//!
//! The modules, leaves first:
//!
//! - `field`: the scalar field as residues of integers, with the ring lemmas
//!   that the proofs rest on.
//! - `scalar`: field elements as limbs, their byte codec, and their
//!   arithmetic, which is `ark_ff`'s behind contracts that are not proved.
//! - `group`: points of G1 and G2 and the pairing check, which are `ark_ec`'s
//!   behind contracts that are not proved; each contract speaks of a point
//!   `[k]G` through its scalar `k`.
//! - `roots`, `fft`: the table of roots of unity, domains built from it, and
//!   the fast Fourier transform, proved to evaluate a polynomial at the
//!   powers of a root.
//! - `polymath`, `convolution`, `transform`, `series`: polynomials as
//!   sequences of residues, and what is proved of values, products,
//!   quotients, transforms and power series.
//! - `poly`: dense polynomials: evaluation, scaling, products, quotients and
//!   power series inverses.
//! - `kzg`, `soundness`: the scheme, and the proofs that a check accepts the
//!   values of the committed polynomial and rejects others.
pub mod convolution;
pub mod error;
pub mod fft;
pub mod field;
pub mod group;
pub mod hexcode;
pub mod kzg;
pub mod poly;
pub mod polymath;
pub mod roots;
pub mod scalar;
pub mod series;
pub mod soundness;
pub mod transform;
