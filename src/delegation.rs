use vstd::prelude::*;

use crate::hash::{hash_bytes, sha256_of};
use crate::text::{append_bytes, copy_bytes, views};

verus! {

/// The error of an encoding that the DER writer refused, as `simple_asn1` reports it.
#[verifier::external_type_specification]
#[verifier::external_body]
pub struct ExASN1EncodeErr(simple_asn1::ASN1EncodeErr);

/// The DER encoding that `simple_asn1` writes for a subject public key info made of the
/// algorithm identifier `oid` and the key bytes `key`.
pub uninterp spec fn spki_der_of(oid: Seq<u64>, key: Seq<u8>) -> Seq<u8>;

/// Whether `simple_asn1` accepts `oid` as an object identifier: at least two arcs, the first
/// at most 2, the second at most 39 (or 175 under the first arc 2).
pub open spec fn oid_encodable(oid: Seq<u64>) -> bool {
    &&& oid.len() >= 2
    &&& oid[0] <= 2
    &&& oid[1] <= if oid[0] == 2 { 175u64 } else { 39u64 }
}

/// Relies on `simple_asn1::to_der` over `SEQUENCE { SEQUENCE { OID }, BIT STRING }`: it fails
/// exactly on an object identifier it cannot encode, and the bytes depend on the arcs and
/// the key alone.
#[verifier::external_body]
fn der_subject_public_key_info(oid: &Vec<u64>, key: &Vec<u8>, bits: usize) -> (r: Result<Vec<u8>, simple_asn1::ASN1EncodeErr>)
    requires
        bits == key@.len() * 8,
    ensures
        r is Ok <==> oid_encodable(oid@),
        r matches Ok(b) ==> b@ == spki_der_of(oid@, key@),
{
    let arcs = oid.iter().map(|a| simple_asn1::BigUint::from(*a)).collect();
    let algorithm = simple_asn1::ASN1Block::Sequence(0, vec![simple_asn1::ASN1Block::ObjectIdentifier(0, simple_asn1::OID::new(arcs))]);
    let subject_public_key = simple_asn1::ASN1Block::BitString(0, bits, key.clone());
    simple_asn1::to_der(&simple_asn1::ASN1Block::Sequence(0, vec![algorithm, subject_public_key]))
}

/// The identity seed of a wallet key under a deployment's salt: the digest of the salt
/// followed by the key bytes.
pub open spec fn seed_of(salt: Seq<u8>, key: Seq<u8>) -> Seq<u8> {
    sha256_of(salt + key)
}

/// Derives the identity seed of the wallet key `pubkey` under `salt`.
pub fn generate_seed(salt: &Vec<u8>, pubkey: &Vec<u8>) -> (r: Vec<u8>)
    ensures
        r@ == seed_of(salt@, pubkey@),
        r@.len() == 32,
{
    let mut data = copy_bytes(salt);
    append_bytes(&mut data, pubkey);
    hash_bytes(&data)
}

/// The arcs of the algorithm identifier of canister signatures.
pub open spec fn canister_sig_oid() -> Seq<u64> {
    seq![1u64, 3, 6, 1, 4, 1, 56387, 1, 2]
}

/// The raw key of a canister signature: the length of the canister id, the id, then the
/// seed.
pub open spec fn canister_sig_key(canister_id: Seq<u8>, seed: Seq<u8>) -> Seq<u8> {
    seq![canister_id.len() as u8] + canister_id + seed
}

/// The identity handle that a seed yields under a canister: the DER-encoded public key of
/// its canister signatures.
pub open spec fn user_canister_pubkey(canister_id: Seq<u8>, seed: Seq<u8>) -> Seq<u8> {
    spki_der_of(canister_sig_oid(), canister_sig_key(canister_id, seed))
}

fn canister_sig_oid_vec() -> (r: Vec<u64>)
    ensures
        r@ == canister_sig_oid(),
{
    let r = vec![1u64, 3, 6, 1, 4, 1, 56387, 1, 2];
    assert(r@ =~= canister_sig_oid());
    r
}

/// The public key from which a client derives the user's principal: the canister id and
/// the seed, wrapped as a canister-signature public key.
pub fn create_user_canister_pubkey(canister_id: &Vec<u8>, seed: &Vec<u8>) -> (r: Vec<u8>)
    requires
        canister_id@.len() < 256,
        (1 + canister_id@.len() + seed@.len()) * 8 <= usize::MAX,
    ensures
        r@ == user_canister_pubkey(canister_id@, seed@),
{
    let mut key: Vec<u8> = Vec::new();
    key.push(canister_id.len() as u8);
    append_bytes(&mut key, canister_id);
    append_bytes(&mut key, seed);
    assert(key@ =~= canister_sig_key(canister_id@, seed@));
    let oid = canister_sig_oid_vec();
    let bits = key.len() * 8;
    match der_subject_public_key_info(&oid, &key, bits) {
        Ok(bytes) => bytes,
        Err(_) => {
            assert(false);
            Vec::new()
        },
    }
}

/// A time-bounded grant of the user's identity to a session key.
pub struct Delegation {
    /// The session public key that the grant is for.
    pub pubkey: Vec<u8>,
    /// The end of the grant, in nanoseconds since the epoch.
    pub expiration: u64,
    /// The principals the grant is restricted to, if any.
    pub targets: Option<Vec<Vec<u8>>>,
}

/// The eight big-endian bytes of `n`.
pub open spec fn be_bytes(n: u64) -> Seq<u8> {
    seq![
        (n >> 56u64) as u8,
        (n >> 48u64) as u8,
        (n >> 40u64) as u8,
        (n >> 32u64) as u8,
        (n >> 24u64) as u8,
        (n >> 16u64) as u8,
        (n >> 8u64) as u8,
        n as u8,
    ]
}

/// A byte string preceded by its length.
pub open spec fn framed(b: Seq<u8>) -> Seq<u8> {
    be_bytes(b.len() as u64) + b
}

/// The framed targets, one after another.
pub open spec fn targets_bytes(ts: Seq<Seq<u8>>) -> Seq<u8>
    decreases ts.len(),
{
    if ts.len() == 0 {
        Seq::empty()
    } else {
        targets_bytes(ts.drop_last()) + framed(ts.last())
    }
}

/// The targets of a delegation as byte strings.
pub open spec fn targets_view(t: Option<Vec<Vec<u8>>>) -> Option<Seq<Seq<u8>>> {
    match t {
        None => None,
        Some(ts) => Some(views(ts@)),
    }
}

/// The canonical encoding of a delegation's fields: the framed session key, the expiration,
/// then a marker byte and, when there are targets, their count and the framed targets.
pub open spec fn delegation_bytes(pubkey: Seq<u8>, expiration: u64, targets: Option<Seq<Seq<u8>>>) -> Seq<u8> {
    framed(pubkey) + be_bytes(expiration) + match targets {
        None => seq![0u8],
        Some(ts) => seq![1u8] + be_bytes(ts.len() as u64) + targets_bytes(ts),
    }
}

/// The hash of a delegation's fields, which the signature map holds and the session layer
/// checks.
pub open spec fn delegation_hash_of(pubkey: Seq<u8>, expiration: u64, targets: Option<Seq<Seq<u8>>>) -> Seq<u8> {
    sha256_of(delegation_bytes(pubkey, expiration, targets))
}

fn push_be(out: &mut Vec<u8>, n: u64)
    ensures
        final(out)@ == old(out)@ + be_bytes(n),
{
    out.push((n >> 56u64) as u8);
    out.push((n >> 48u64) as u8);
    out.push((n >> 40u64) as u8);
    out.push((n >> 32u64) as u8);
    out.push((n >> 24u64) as u8);
    out.push((n >> 16u64) as u8);
    out.push((n >> 8u64) as u8);
    out.push(n as u8);
    assert(final(out)@ =~= old(out)@ + be_bytes(n));
}

fn push_framed(out: &mut Vec<u8>, b: &Vec<u8>)
    ensures
        final(out)@ == old(out)@ + framed(b@),
{
    push_be(out, b.len() as u64);
    append_bytes(out, b);
    assert(final(out)@ =~= old(out)@ + framed(b@));
}

/// The canonical encoding of `delegation`.
pub fn encode_delegation(delegation: &Delegation) -> (r: Vec<u8>)
    ensures
        r@ == delegation_bytes(delegation.pubkey@, delegation.expiration, targets_view(delegation.targets)),
{
    let mut out: Vec<u8> = Vec::new();
    push_framed(&mut out, &delegation.pubkey);
    push_be(&mut out, delegation.expiration);
    match &delegation.targets {
        None => {
            out.push(0u8);
        },
        Some(ts) => {
            out.push(1u8);
            push_be(&mut out, ts.len() as u64);
            let ghost head = out@;
            let mut i: usize = 0;
            while i < ts.len()
                invariant
                    i <= ts@.len(),
                    out@ == head + targets_bytes(views(ts@).subrange(0, i as int)),
                decreases ts@.len() - i,
            {
                push_framed(&mut out, &ts[i]);
                assert(views(ts@).subrange(0, i + 1).drop_last() =~= views(ts@).subrange(0, i as int));
                assert(out@ =~= head + targets_bytes(views(ts@).subrange(0, i + 1)));
                i = i + 1;
            }
            assert(views(ts@).subrange(0, i as int) =~= views(ts@));
        },
    }
    assert(out@ =~= delegation_bytes(delegation.pubkey@, delegation.expiration, targets_view(delegation.targets)));
    out
}

/// Builds the delegation of `session_key` until `expiration`, restricted to `targets`.
pub fn create_delegation(session_key: Vec<u8>, expiration: u64, targets: &Option<Vec<Vec<u8>>>) -> (r: Delegation)
    ensures
        r.pubkey@ == session_key@,
        r.expiration == expiration,
        targets_view(r.targets) == targets_view(*targets),
{
    let targets = match targets {
        None => None,
        Some(ts) => {
            let mut copy: Vec<Vec<u8>> = Vec::new();
            let mut i: usize = 0;
            while i < ts.len()
                invariant
                    i <= ts@.len(),
                    views(copy@) == views(ts@).subrange(0, i as int),
                decreases ts@.len() - i,
            {
                let ghost prev = copy@;
                copy.push(copy_bytes(&ts[i]));
                assert(views(prev).len() == prev.len());
                assert forall|a: int| 0 <= a < copy@.len() implies #[trigger] views(copy@)[a] == views(ts@).subrange(0, i + 1)[a] by {
                    if a < prev.len() {
                        assert(copy@[a] == prev[a]);
                        assert(views(prev)[a] == views(ts@).subrange(0, i as int)[a]);
                    }
                };
                assert(views(copy@) =~= views(ts@).subrange(0, i + 1));
                i = i + 1;
            }
            assert(views(ts@).subrange(0, i as int) =~= views(ts@));
            Some(copy)
        },
    };
    Delegation { pubkey: session_key, expiration, targets }
}

/// The hash of `delegation`.
pub fn create_delegation_hash(delegation: &Delegation) -> (r: Vec<u8>)
    ensures
        r@ == delegation_hash_of(delegation.pubkey@, delegation.expiration, targets_view(delegation.targets)),
        r@.len() == 32,
{
    hash_bytes(&encode_delegation(delegation))
}

} // verus!
