//! RNS polynomial arithmetic, plaintext encoding and key switching for the
//! BFV homomorphic encryption scheme.

pub mod basis;
pub mod basis_laws;
pub mod bigint;
pub mod hybrid_key_switching_key;
pub mod hybrid_laws;
pub mod key_switching_key;
pub mod matrix;
pub mod modulus;
pub mod nb_theory;
pub mod ntt;
pub mod ntt_laws;
pub mod parameters;
pub mod plaintext;
pub mod poly;
pub mod sampling;
pub mod secret_key;
pub mod switching_laws;
