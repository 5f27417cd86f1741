//! Sign-in with an external wallet key: challenge issue and rendering, the challenge store,
//! identity derivation, delegation hashing, a certified signature map and the login flow.

pub mod delegation;
pub mod hash;
pub mod login;
pub mod parse;
pub mod settings;
pub mod signature_map;
pub mod siwe;
pub mod text;
