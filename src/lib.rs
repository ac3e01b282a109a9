//! GSW (Gentry–Sahai–Waters) fully homomorphic encryption over LWE, with
//! bootstrapping by homomorphic evaluation of the linear part of decryption.
//!
//! Every scalar is an element of Z_q with q a power of two, stored as its
//! canonical representative in `[0, q)`. Ciphertexts are N x N matrices with
//! N = (n + 1) * log2(q).
//!
//! - `modular`, `params`: arithmetic in Z_q and the parameter presets.
//! - `gadget`, `linalg`: the gadget algebra and the products over Z_q.
//! - `lwe`, `gsw`: keys, encryption, decryption and the homomorphic gates.
//! - `bootstrap`: the evaluation key and the refresh of a ciphertext.
//! - `correctness`: decryption of fresh ciphertexts and of the gates on them,
//!   and bootstrapping over a noise-free evaluation key.

pub mod bootstrap;
pub mod correctness;
pub mod gadget;
pub mod gsw;
pub mod linalg;
pub mod lwe;
pub mod modular;
pub mod params;
mod sampling;

pub use bootstrap::{bootstrap, decrypt_linear_part_clear, gen_evaluation_key, EvaluationKey};
pub use gadget::{
    bit_decomp, bit_decomp_inverse, flatten, flatten_matrix, g_inverse_matrix, powers_of_2,
};
pub use gsw::{
    decrypt, encrypt, encrypt_with_mask, gsw_keygen, homomorphic_add, homomorphic_mult,
    homomorphic_nand, Ciphertext, GswPublicKey, GswSecretKey,
};
pub use lwe::{keygen, keygen_with, PublicKey, SecretKey};
pub use modular::{mod_q, mod_q_centered};
pub use params::{Params, SecurityLevel};
