use vstd::prelude::*;

use crate::delegation::{
    create_delegation, create_delegation_hash, create_user_canister_pubkey, delegation_hash_of,
    generate_seed, seed_of, targets_view, user_canister_pubkey,
};
use crate::hash::{digest, sha256_of};
use crate::settings::Settings;
use crate::signature_map::{pruned, put_spec, SignatureMap};
use crate::siwe::{rendered, unexpired, SiweMessage, SiweMessageError, SiweMessageMap, SolPubkey};

verus! {

/// How many expired entries one login removes from the signature map at most.
pub const MAX_SIGS_TO_PRUNE: usize = 10;

/// Why a wallet signature was not accepted.
#[derive(Debug, PartialEq, Eq, Structural)]
pub enum SignatureError {
    /// The signature does not match the challenge and key.
    InvalidSignature,
    /// The signature bytes are not a signature.
    MalformedSignature,
    /// The key bytes are not a key.
    MalformedKey,
}

impl SignatureError {
    /// The display form of the error.
    pub fn message(&self) -> (r: String)
        ensures
            r@ == match self {
                SignatureError::InvalidSignature => "Invalid signature"@,
                SignatureError::MalformedSignature => "Malformed signature"@,
                SignatureError::MalformedKey => "Malformed public key"@,
            },
    {
        match self {
            SignatureError::InvalidSignature => String::from_str("Invalid signature"),
            SignatureError::MalformedSignature => String::from_str("Malformed signature"),
            SignatureError::MalformedKey => String::from_str("Malformed public key"),
        }
    }
}

/// What a successful login returns.
pub struct LoginDetails {
    /// When the delegation stops being valid, in nanoseconds since the epoch.
    pub expiration: u64,
    /// The public key from which the client derives the user's principal.
    pub user_canister_pubkey: Vec<u8>,
}

/// Why a login failed.
#[derive(Debug, PartialEq, Eq, Structural)]
pub enum LoginError {
    SignatureError(SignatureError),
    SiweMessageError(SiweMessageError),
    AddressMismatch,
}

impl LoginError {
    /// The display form of the error.
    pub fn message(&self) -> (r: String)
        ensures
            r@ == match self {
                LoginError::SignatureError(e) => match e {
                    SignatureError::InvalidSignature => "Invalid signature"@,
                    SignatureError::MalformedSignature => "Malformed signature"@,
                    SignatureError::MalformedKey => "Malformed public key"@,
                },
                LoginError::SiweMessageError(_) => "Message not found"@,
                LoginError::AddressMismatch => "Recovered address does not match"@,
            },
    {
        match self {
            LoginError::SignatureError(e) => e.message(),
            LoginError::SiweMessageError(e) => e.message(),
            LoginError::AddressMismatch => String::from_str("Recovered address does not match"),
        }
    }
}

/// `a + b`, or the largest `u64` where the sum is larger.
pub open spec fn sat_add(a: u64, b: u64) -> u64 {
    if a as int + b as int > u64::MAX as int {
        u64::MAX
    } else {
        (a + b) as u64
    }
}

/// The signature map after a login at `now` whose seed is `seed` and whose delegation is of
/// `session_key` until `expiration`: a bounded prune, then the put of an entry that expires
/// with the delegation.
pub open spec fn map_after_login(
    before: Seq<(Seq<u8>, Seq<u8>, u64)>,
    now: u64,
    seed: Seq<u8>,
    session_key: Seq<u8>,
    expiration: u64,
    targets: Option<Seq<Seq<u8>>>,
) -> Seq<(Seq<u8>, Seq<u8>, u64)> {
    put_spec(
        pruned(before, now, MAX_SIGS_TO_PRUNE as nat),
        sha256_of(seed),
        delegation_hash_of(session_key, expiration, targets),
        expiration,
    )
}

/// Issues a challenge for `pubkey` at time `now` and stores it in place of any earlier one.
pub fn prepare_login(
    pubkey: &SolPubkey,
    settings: &Settings,
    messages: &mut SiweMessageMap,
    nonce: String,
    now: u64,
) -> (r: SiweMessage)
    requires
        old(messages).wf(),
    ensures
        final(messages).wf(),
        final(messages)@ == old(messages)@.insert(pubkey.bytes@, r),
        r.scheme == settings.scheme,
        r.domain == settings.domain,
        r.address == pubkey.address,
        r.statement == settings.statement,
        r.uri == settings.uri,
        r.version == 1,
        r.chain_id == settings.chain_id,
        r.nonce == nonce,
        r.issued_at == now,
        r.expiration_time == sat_add(now, settings.sign_in_expires_in),
{
    let message = SiweMessage::new(pubkey, settings, nonce, now);
    messages.insert(pubkey, message.duplicate());
    message
}

/// The rest of a login once the verifier has judged the signature over `message`, the
/// challenge stored for `pubkey`: the challenge is spent either way; on `Ok` the delegation
/// of `session_key` is put into the signature map and the login details come back.
pub fn complete_login(
    verdict: Result<(), SignatureError>,
    message: &SiweMessage,
    pubkey: &SolPubkey,
    session_key: Vec<u8>,
    messages: &mut SiweMessageMap,
    signature_map: &mut SignatureMap,
    settings: &Settings,
    canister_id: &Vec<u8>,
    now: u64,
) -> (r: Result<LoginDetails, LoginError>)
    requires
        old(messages).wf(),
        old(signature_map).wf(),
        canister_id@.len() < 256,
    ensures
        final(messages).wf(),
        final(signature_map).wf(),
        final(messages)@ == old(messages)@.remove(pubkey.bytes@),
        match verdict {
            Err(e) => r == Err::<LoginDetails, LoginError>(LoginError::SignatureError(e))
                && final(signature_map)@ == old(signature_map)@,
            Ok(_) => r matches Ok(d) && d.expiration == sat_add(message.issued_at, settings.session_expires_in)
                && d.user_canister_pubkey@ == user_canister_pubkey(canister_id@, seed_of(settings.salt@, pubkey.bytes@))
                && final(signature_map)@ == map_after_login(
                old(signature_map)@,
                now,
                seed_of(settings.salt@, pubkey.bytes@),
                session_key@,
                d.expiration,
                targets_view(settings.targets),
            ),
        },
{
    messages.remove(pubkey);
    match verdict {
        Err(e) => Err(LoginError::SignatureError(e)),
        Ok(()) => {
            let expiration = message.issued_at.saturating_add(settings.session_expires_in);
            let seed = generate_seed(&settings.salt, &pubkey.bytes);
            signature_map.prune_expired(now, MAX_SIGS_TO_PRUNE);
            let delegation = create_delegation(session_key, expiration, &settings.targets);
            let delegation_hash = create_delegation_hash(&delegation);
            signature_map.put(digest(&seed), delegation_hash, expiration);
            let user_canister_pubkey = create_user_canister_pubkey(canister_id, &seed);
            Ok(LoginDetails { expiration, user_canister_pubkey })
        },
    }
}

/// Whether `verify`, handed the challenge text `text`, the signature and the key, may
/// return `verdict`.
pub open spec fn verifier_gave<F: Fn(&String, &Vec<u8>, &Vec<u8>) -> Result<(), SignatureError>>(
    verify: F,
    text: Seq<char>,
    signature: &Vec<u8>,
    pubkey: &Vec<u8>,
    verdict: Result<(), SignatureError>,
) -> bool {
    exists|t: String| t@ == text && #[trigger] verify.ensures((&t, signature, pubkey), verdict)
}

/// Whether `verify`, handed the challenge text `text`, the signature and the key, may
/// accept them.
pub open spec fn verifier_accepted<F: Fn(&String, &Vec<u8>, &Vec<u8>) -> Result<(), SignatureError>>(
    verify: F,
    text: Seq<char>,
    signature: &Vec<u8>,
    pubkey: &Vec<u8>,
) -> bool {
    exists|t: String, verdict: Result<(), SignatureError>|
        t@ == text && verdict is Ok && #[trigger] verify.ensures((&t, signature, pubkey), verdict)
}

/// Logs in with a signature over the challenge stored for `pubkey`: prunes expired
/// challenges, fails with `MessageNotFound` when none is left for the key, has `verify`
/// judge the signature over the rendered challenge (the signature scheme of the wallet
/// family in use), then completes the login: `Ok` exactly when `verify` accepted.
pub fn login<F: Fn(&String, &Vec<u8>, &Vec<u8>) -> Result<(), SignatureError>>(
    verify: F,
    signature: &Vec<u8>,
    pubkey: &SolPubkey,
    session_key: Vec<u8>,
    messages: &mut SiweMessageMap,
    signature_map: &mut SignatureMap,
    settings: &Settings,
    canister_id: &Vec<u8>,
    now: u64,
) -> (r: Result<LoginDetails, LoginError>)
    requires
        old(messages).wf(),
        old(signature_map).wf(),
        canister_id@.len() < 256,
        forall|t: &String, s: &Vec<u8>, k: &Vec<u8>| verify.requires((t, s, k)),
    ensures
        final(messages).wf(),
        final(signature_map).wf(),
        final(messages)@ == unexpired(old(messages)@, now).remove(pubkey.bytes@),
        !unexpired(old(messages)@, now).contains_key(pubkey.bytes@) ==> r == Err::<LoginDetails, LoginError>(
            LoginError::SiweMessageError(SiweMessageError::MessageNotFound),
        ) && final(signature_map)@ == old(signature_map)@,
        unexpired(old(messages)@, now).contains_key(pubkey.bytes@) ==> (r is Ok || r matches Err(
            LoginError::SignatureError(_),
        )),
        r matches Err(LoginError::SignatureError(e)) ==> unexpired(old(messages)@, now).contains_key(pubkey.bytes@)
            && verifier_gave(
            verify,
            rendered(old(messages)@[pubkey.bytes@]),
            signature,
            &pubkey.bytes,
            Err(e),
        ) && final(signature_map)@ == old(signature_map)@,
        r matches Ok(d) ==> unexpired(old(messages)@, now).contains_key(pubkey.bytes@)
            && verifier_accepted(verify, rendered(old(messages)@[pubkey.bytes@]), signature, &pubkey.bytes)
            && d.expiration == sat_add(old(messages)@[pubkey.bytes@].issued_at, settings.session_expires_in)
            && d.user_canister_pubkey@ == user_canister_pubkey(canister_id@, seed_of(settings.salt@, pubkey.bytes@))
            && final(signature_map)@ == map_after_login(
            old(signature_map)@,
            now,
            seed_of(settings.salt@, pubkey.bytes@),
            session_key@,
            d.expiration,
            targets_view(settings.targets),
        ),
{
    messages.prune_expired(now);
    let message = match messages.get(pubkey) {
        Ok(m) => m,
        Err(e) => {
            assert(messages@.remove(pubkey.bytes@) =~= messages@);
            return Err(LoginError::SiweMessageError(e));
        },
    };
    let text = message.render();
    let verdict = verify(&text, signature, &pubkey.bytes);
    assert(verify.ensures((&text, signature, &pubkey.bytes), verdict));
    let ghost v = verdict;
    let r = complete_login(verdict, &message, pubkey, session_key, messages, signature_map, settings, canister_id, now);
    proof {
        if r is Ok {
            assert(v matches Ok(_));
            assert(verifier_accepted(verify, rendered(message), signature, &pubkey.bytes));
        }
    }
    r
}

/// A challenge serves one login: once a login at `first` has spent the challenge of `key`,
/// a later login for that key, at any time `second`, finds no challenge.
pub proof fn lemma_challenge_single_use(
    messages: Map<Seq<u8>, SiweMessage>,
    key: Seq<u8>,
    first: u64,
    second: u64,
)
    ensures
        !unexpired(unexpired(messages, first).remove(key), second).contains_key(key),
{
}

/// A challenge whose expiration time is before `now` is gone once the login at `now` has
/// pruned the store, so that login fails with `MessageNotFound`.
pub proof fn lemma_expired_challenge_not_found(messages: Map<Seq<u8>, SiweMessage>, key: Seq<u8>, now: u64)
    requires
        messages.contains_key(key),
        messages[key].expiration_time < now,
    ensures
        !unexpired(messages, now).contains_key(key),
{
}

/// The same wallet key under the same salt and canister always yields the same seed, the
/// same map key and the same identity handle, whatever challenge, session key or time the
/// login had: a successful login's identifier and map entry depend on these three alone.
pub proof fn lemma_identity_deterministic(
    salt: Seq<u8>,
    key: Seq<u8>,
    canister_id: Seq<u8>,
    other_salt: Seq<u8>,
    other_key: Seq<u8>,
)
    requires
        other_salt == salt,
        other_key == key,
    ensures
        seed_of(other_salt, other_key) == seed_of(salt, key),
        sha256_of(seed_of(other_salt, other_key)) == sha256_of(seed_of(salt, key)),
        user_canister_pubkey(canister_id, seed_of(other_salt, other_key)) == user_canister_pubkey(
            canister_id,
            seed_of(salt, key),
        ),
{
}

} // verus!
