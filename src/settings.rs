use vstd::prelude::*;

verus! {

/// The configuration that the sign-in flow reads: fixed for the life of a service.
pub struct Settings {
    /// The scheme of the relying party's origin, such as `https`.
    pub scheme: String,
    /// The domain that asks for the sign-in.
    pub domain: String,
    /// The statement shown to the user in the challenge.
    pub statement: String,
    /// The URI of the resource that is the subject of the sign-in.
    pub uri: String,
    /// The chain or network identifier.
    pub chain_id: u32,
    /// The per-deployment salt mixed into identity derivation.
    pub salt: Vec<u8>,
    /// How long a challenge stays valid, in nanoseconds.
    pub sign_in_expires_in: u64,
    /// How long a delegation stays valid, in nanoseconds.
    pub session_expires_in: u64,
    /// The principals a delegation is restricted to, if any.
    pub targets: Option<Vec<Vec<u8>>>,
}

} // verus!
