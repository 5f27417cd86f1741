use vstd::prelude::*;

use crate::parse::line_free;
use crate::settings::Settings;
use crate::text::{bytes_eq, copy_bytes, decimal, push_decimal};

verus! {

/// The text that the `time` crate gives for a timestamp in RFC 3339 form, UTC.
pub uninterp spec fn rfc3339_of(nanos: int) -> Seq<char>;

/// Relies on `time::OffsetDateTime::from_unix_timestamp_nanos` and its `format` with
/// `Rfc3339`: every `u64` count of nanoseconds lies within the supported years, so neither
/// call fails; the text depends on the timestamp alone and is made of digits, `-`, `:`,
/// `T`, `.` and `Z`, so it holds no line break.
#[verifier::external_body]
fn format_rfc3339(nanos: u64) -> (r: String)
    ensures
        r@ == rfc3339_of(nanos as int),
        forall|i: int| 0 <= i < r@.len() ==> r@[i] != '\n',
{
    let datetime = time::OffsetDateTime::from_unix_timestamp_nanos(nanos as i128).unwrap();
    datetime.format(&time::format_description::well_known::Rfc3339).unwrap()
}

/// The error of a lookup in the challenge store.
#[derive(Debug, PartialEq, Eq, Structural)]
pub enum SiweMessageError {
    MessageNotFound,
}

impl SiweMessageError {
    /// The display form of the error.
    pub fn message(&self) -> (r: String)
        ensures
            r@ == "Message not found"@,
    {
        String::from_str("Message not found")
    }
}

/// A wallet key: its raw bytes, which key the stores, and its textual form, which the
/// challenge shows.
pub struct SolPubkey {
    pub bytes: Vec<u8>,
    pub address: String,
}

/// A sign-in challenge bound to one wallet key and one validity window.
#[derive(Debug)]
pub struct SiweMessage {
    pub scheme: String,
    pub domain: String,
    pub address: String,
    pub statement: String,
    pub uri: String,
    pub version: u8,
    pub chain_id: u32,
    pub nonce: String,
    pub issued_at: u64,
    pub expiration_time: u64,
}

/// Whether a challenge is outside its window at time `now`.
pub open spec fn expired_at(m: SiweMessage, now: u64) -> bool {
    now < m.issued_at || now > m.expiration_time
}

/// The challenges of `m` that are valid at `now`: issued no later than `now` and not yet
/// past their expiration time.
pub open spec fn unexpired(m: Map<Seq<u8>, SiweMessage>, now: u64) -> Map<Seq<u8>, SiweMessage> {
    Map::new(|k: Seq<u8>| m.contains_key(k) && !expired_at(m[k], now), |k: Seq<u8>| m[k])
}

/// The text that the wallet signs: fixed field order, one field per line.
pub open spec fn rendered(m: SiweMessage) -> Seq<char> {
    m.domain@ + " wants you to sign in with your Ethereum account:\n"@ + m.address@ + "\n\n"@
        + m.statement@ + "\n\nURI: "@ + m.uri@ + "\nVersion: "@ + decimal(m.version as nat)
        + "\nChain ID: "@ + decimal(m.chain_id as nat) + "\nNonce: "@ + m.nonce@
        + "\nIssued At: "@ + rfc3339_of(m.issued_at as int) + "\nExpiration Time: "@
        + rfc3339_of(m.expiration_time as int)
}

impl SiweMessage {
    /// Issues a challenge for `pubkey` at time `now` with the given nonce: version 1, valid
    /// from `now` for the configured challenge lifetime (saturating at the largest time).
    pub fn new(pubkey: &SolPubkey, settings: &Settings, nonce: String, now: u64) -> (r: SiweMessage)
        ensures
            r.scheme == settings.scheme,
            r.domain == settings.domain,
            r.address == pubkey.address,
            r.statement == settings.statement,
            r.uri == settings.uri,
            r.version == 1,
            r.chain_id == settings.chain_id,
            r.nonce == nonce,
            r.issued_at == now,
            r.expiration_time == if now as int + settings.sign_in_expires_in as int
                > u64::MAX as int {
                u64::MAX as int
            } else {
                now as int + settings.sign_in_expires_in as int
            },
    {
        SiweMessage {
            scheme: settings.scheme.clone(),
            domain: settings.domain.clone(),
            address: pubkey.address.clone(),
            statement: settings.statement.clone(),
            uri: settings.uri.clone(),
            version: 1,
            chain_id: settings.chain_id,
            nonce,
            issued_at: now,
            expiration_time: now.saturating_add(settings.sign_in_expires_in),
        }
    }

    /// Whether the challenge is not valid at time `now`: before it was issued or after it
    /// expired. The window includes both ends. The first test is deliberately
    /// `now < issued_at`, a guard against clock skew, and not `issued_at < now`, which would
    /// reject every challenge from the first nanosecond after it was issued.
    pub fn is_expired(&self, now: u64) -> (r: bool)
        ensures
            r == expired_at(*self, now),
    {
        now < self.issued_at || now > self.expiration_time
    }

    /// A copy of the challenge.
    pub fn duplicate(&self) -> (r: SiweMessage)
        ensures
            r == *self,
    {
        SiweMessage {
            scheme: self.scheme.clone(),
            domain: self.domain.clone(),
            address: self.address.clone(),
            statement: self.statement.clone(),
            uri: self.uri.clone(),
            version: self.version,
            chain_id: self.chain_id,
            nonce: self.nonce.clone(),
            issued_at: self.issued_at,
            expiration_time: self.expiration_time,
        }
    }

    /// The text that the wallet signs.
    pub fn render(&self) -> (r: String)
        ensures
            r@ == rendered(*self),
            line_free(rfc3339_of(self.issued_at as int)),
            line_free(rfc3339_of(self.expiration_time as int)),
    {
        let mut s = self.domain.clone();
        s.append(" wants you to sign in with your Ethereum account:\n");
        s.append(self.address.as_str());
        s.append("\n\n");
        s.append(self.statement.as_str());
        s.append("\n\nURI: ");
        s.append(self.uri.as_str());
        s.append("\nVersion: ");
        push_decimal(&mut s, self.version as u64);
        s.append("\nChain ID: ");
        push_decimal(&mut s, self.chain_id as u64);
        s.append("\nNonce: ");
        s.append(self.nonce.as_str());
        s.append("\nIssued At: ");
        let issued = format_rfc3339(self.issued_at);
        s.append(issued.as_str());
        s.append("\nExpiration Time: ");
        let expires = format_rfc3339(self.expiration_time);
        s.append(expires.as_str());
        s
    }
}

/// The challenges awaiting a login, at most one per wallet key, keyed by the key's bytes.
///
/// The pairs are held in two parallel vectors with a linear lookup: the keys are byte
/// strings, and for such keys std's `HashMap` has no specification from which the exact
/// contracts below could be proved. The ghost map is what the contracts speak of.
pub struct SiweMessageMap {
    keys: Vec<Vec<u8>>,
    messages: Vec<SiweMessage>,
    contents: Ghost<Map<Seq<u8>, SiweMessage>>,
}

impl View for SiweMessageMap {
    type V = Map<Seq<u8>, SiweMessage>;

    closed spec fn view(&self) -> Map<Seq<u8>, SiweMessage> {
        self.contents@
    }
}

impl SiweMessageMap {
    /// The stored keys are distinct and the stored pairs are exactly the view.
    pub closed spec fn wf(&self) -> bool {
        &&& self.keys@.len() == self.messages@.len()
        &&& forall|i: int, j: int|
            0 <= i < j < self.keys@.len() ==> #[trigger] self.keys@[i]@ != #[trigger] self.keys@[j]@
        &&& forall|i: int|
            0 <= i < self.keys@.len() ==> #[trigger] self.contents@.contains_key(self.keys@[i]@)
                && self.contents@[self.keys@[i]@] == self.messages@[i]
        &&& forall|k: Seq<u8>|
            #[trigger] self.contents@.contains_key(k) ==> exists|i: int|
                0 <= i < self.keys@.len() && #[trigger] self.keys@[i]@ == k
    }

    /// An empty store.
    pub fn new() -> (r: SiweMessageMap)
        ensures
            r.wf(),
            r@ == Map::<Seq<u8>, SiweMessage>::empty(),
    {
        SiweMessageMap { keys: Vec::new(), messages: Vec::new(), contents: Ghost(Map::empty()) }
    }

    fn find(&self, key: &Vec<u8>) -> (r: Option<usize>)
        requires
            self.wf(),
        ensures
            match r {
                Some(i) => i < self.keys@.len() && self.keys@[i as int]@ == key@,
                None => !self@.contains_key(key@),
            },
    {
        let mut i: usize = 0;
        while i < self.keys.len()
            invariant
                self.wf(),
                i <= self.keys@.len(),
                forall|j: int| 0 <= j < i ==> #[trigger] self.keys@[j]@ != key@,
            decreases self.keys@.len() - i,
        {
            if bytes_eq(&self.keys[i], key) {
                return Some(i);
            }
            i = i + 1;
        }
        None
    }

    /// Removes the challenges that are expired at `now` (see `is_expired`).
    pub fn prune_expired(&mut self, now: u64)
        requires
            old(self).wf(),
        ensures
            final(self).wf(),
            final(self)@ == unexpired(old(self)@, now),
    {
        let ghost before = self@;
        let mut keys: Vec<Vec<u8>> = Vec::new();
        let mut messages: Vec<SiweMessage> = Vec::new();
        let ghost mut contents: Map<Seq<u8>, SiweMessage> = Map::empty();
        let mut i: usize = 0;
        while i < self.keys.len()
            invariant
                self.wf(),
                self@ == before,
                i <= self.keys@.len(),
                keys@.len() == messages@.len(),
                forall|a: int, b: int|
                    0 <= a < b < keys@.len() ==> #[trigger] keys@[a]@ != #[trigger] keys@[b]@,
                forall|a: int|
                    0 <= a < keys@.len() ==> #[trigger] contents.contains_key(keys@[a]@)
                        && contents[keys@[a]@] == messages@[a],
                forall|k: Seq<u8>|
                    #[trigger] contents.contains_key(k) ==> exists|a: int|
                        0 <= a < keys@.len() && #[trigger] keys@[a]@ == k,
                forall|k: Seq<u8>|
                    #[trigger] contents.contains_key(k) ==> (before.contains_key(k) && !expired_at(before[k], now)) && contents[k]
                        == before[k] && exists|j: int|
                        0 <= j < i && #[trigger] self.keys@[j]@ == k,
                forall|j: int|
                    0 <= j < i && before.contains_key(#[trigger] self.keys@[j]@) && !expired_at(before[self.keys@[j]@], now)
                        ==> contents.contains_key(self.keys@[j]@),
            decreases self.keys@.len() - i,
        {
            if !self.messages[i].is_expired(now) {
                let ghost k = self.keys@[i as int]@;
                assert(!contents.contains_key(k)) by {
                    if contents.contains_key(k) {
                        let j = choose|j: int| 0 <= j < i && #[trigger] self.keys@[j]@ == k;
                        assert(self.keys@[j]@ != self.keys@[i as int]@);
                    }
                };
                assert forall|a: int| 0 <= a < keys@.len() implies #[trigger] keys@[a]@ != k by {
                    assert(contents.contains_key(keys@[a]@));
                };
                let ghost old_keys = keys@;
                let ghost old_contents = contents;
                assert(self.contents@.contains_key(self.keys@[i as int]@));
                assert(before.contains_key(k) && before[k] == self.messages@[i as int]);
                keys.push(copy_bytes(&self.keys[i]));
                messages.push(self.messages[i].duplicate());
                proof {
                    contents = contents.insert(k, self.messages@[i as int]);
                    assert(keys@[keys@.len() - 1]@ == k);
                    assert((before.contains_key(k) && !expired_at(before[k], now)));
                    let n = keys@.len() - 1;
                    assert forall|a: int| 0 <= a < keys@.len() implies #[trigger] contents.contains_key(keys@[a]@)
                        && contents[keys@[a]@] == messages@[a] by {
                        if a < n {
                            assert(keys@[a]@ != k);
                        }
                    };
                    assert forall|q: Seq<u8>| #[trigger] contents.contains_key(q) implies exists|a: int|
                        0 <= a < keys@.len() && #[trigger] keys@[a]@ == q by {
                        if q == k {
                            assert(keys@[n]@ == q);
                        } else {
                            assert(old_contents.contains_key(q));
                            let a = choose|a: int| 0 <= a < old_keys.len() && #[trigger] old_keys[a]@ == q;
                            assert(keys@[a] == old_keys[a]);
                        }
                    };
                    assert forall|q: Seq<u8>| #[trigger] contents.contains_key(q) implies (before.contains_key(q) && !expired_at(before[q], now)) && contents[q]
                        == before[q] && exists|j: int| 0 <= j < i + 1 && #[trigger] self.keys@[j]@ == q by {
                        if q == k {
                            assert(self.keys@[i as int]@ == q);
                        } else {
                            let j = choose|j: int| 0 <= j < i && #[trigger] self.keys@[j]@ == q;
                            assert(self.keys@[j]@ == q);
                        }
                    };
                }
            } else {
                assert(self.contents@.contains_key(self.keys@[i as int]@));
                assert(expired_at(before[self.keys@[i as int]@], now));
            }
            i = i + 1;
        }
        proof {
            assert forall|k: Seq<u8>| (before.contains_key(k) && !expired_at(before[k], now)) implies contents.contains_key(k) by {
                let j = choose|j: int| 0 <= j < self.keys@.len() && #[trigger] self.keys@[j]@ == k;
            };
            assert(contents =~= unexpired(before, now));
        }
        self.keys = keys;
        self.messages = messages;
        self.contents = Ghost(contents);
    }

    /// Stores `message` for `pubkey`, replacing any challenge stored for it before.
    pub fn insert(&mut self, pubkey: &SolPubkey, message: SiweMessage)
        requires
            old(self).wf(),
        ensures
            final(self).wf(),
            final(self)@ == old(self)@.insert(pubkey.bytes@, message),
    {
        let ghost m = message;
        match self.find(&pubkey.bytes) {
            Some(i) => {
                self.messages.set(i, message);
            },
            None => {
                self.keys.push(copy_bytes(&pubkey.bytes));
                self.messages.push(message);
            },
        }
        proof {
            self.contents@ = self.contents@.insert(pubkey.bytes@, m);
            assert forall|k: Seq<u8>| #[trigger] self.contents@.contains_key(k) implies exists|i: int|
                0 <= i < self.keys@.len() && #[trigger] self.keys@[i]@ == k by {
                if k != pubkey.bytes@ {
                    assert(old(self).contents@.contains_key(k));
                    let j = choose|j: int| 0 <= j < old(self).keys@.len() && #[trigger] old(self).keys@[j]@ == k;
                    assert(self.keys@[j]@ == k);
                } else {
                    let j = if old(self)@.contains_key(k) {
                        choose|j: int| 0 <= j < old(self).keys@.len() && #[trigger] old(self).keys@[j]@ == k
                    } else {
                        self.keys@.len() - 1
                    };
                    assert(self.keys@[j]@ == k);
                }
            };
        }
    }

    /// A copy of the challenge stored for `pubkey`, or `MessageNotFound` when there is none.
    pub fn get(&self, pubkey: &SolPubkey) -> (r: Result<SiweMessage, SiweMessageError>)
        requires
            self.wf(),
        ensures
            self@.contains_key(pubkey.bytes@) ==> r == Ok::<SiweMessage, SiweMessageError>(self@[pubkey.bytes@]),
            !self@.contains_key(pubkey.bytes@) ==> r == Err::<SiweMessage, SiweMessageError>(SiweMessageError::MessageNotFound),
    {
        match self.find(&pubkey.bytes) {
            Some(i) => Ok(self.messages[i].duplicate()),
            None => Err(SiweMessageError::MessageNotFound),
        }
    }

    /// Removes the challenge stored for `pubkey`, if any.
    pub fn remove(&mut self, pubkey: &SolPubkey)
        requires
            old(self).wf(),
        ensures
            final(self).wf(),
            final(self)@ == old(self)@.remove(pubkey.bytes@),
    {
        match self.find(&pubkey.bytes) {
            Some(i) => {
                self.keys.remove(i);
                self.messages.remove(i);
                proof {
                    let k = pubkey.bytes@;
                    self.contents@ = self.contents@.remove(k);
                    assert forall|a: int| 0 <= a < self.keys@.len() implies #[trigger] self.contents@.contains_key(self.keys@[a]@)
                        && self.contents@[self.keys@[a]@] == self.messages@[a] by {
                        if a < i {
                            assert(old(self).keys@[a] == self.keys@[a]);
                            assert(old(self).messages@[a] == self.messages@[a]);
                            assert(old(self).keys@[a]@ != old(self).keys@[i as int]@);
                            assert(old(self).contents@.contains_key(old(self).keys@[a]@));
                        } else {
                            assert(old(self).keys@[a + 1] == self.keys@[a]);
                            assert(old(self).messages@[a + 1] == self.messages@[a]);
                            assert(old(self).keys@[i as int]@ != old(self).keys@[a + 1]@);
                            assert(old(self).contents@.contains_key(old(self).keys@[a + 1]@));
                        }
                    };
                    assert forall|a: int, b: int| 0 <= a < b < self.keys@.len() implies #[trigger] self.keys@[a]@ != #[trigger] self.keys@[b]@ by {
                        let oa = if a < i { a } else { a + 1 };
                        let ob = if b < i { b } else { b + 1 };
                        assert(old(self).keys@[oa]@ != old(self).keys@[ob]@);
                    };
                    assert forall|q: Seq<u8>| #[trigger] self.contents@.contains_key(q) implies exists|a: int|
                        0 <= a < self.keys@.len() && #[trigger] self.keys@[a]@ == q by {
                        let j = choose|j: int| 0 <= j < old(self).keys@.len() && #[trigger] old(self).keys@[j]@ == q;
                        assert(j != i);
                        if j < i {
                            assert(self.keys@[j]@ == q);
                        } else {
                            assert(self.keys@[j - 1]@ == q);
                        }
                    };
                }
            },
            None => {
                assert(self@ =~= old(self)@.remove(pubkey.bytes@));
            },
        }
    }
}

impl Default for SiweMessageMap {
    fn default() -> (r: SiweMessageMap)
        ensures
            r.wf(),
            r@ == Map::<Seq<u8>, SiweMessage>::empty(),
    {
        SiweMessageMap::new()
    }
}

} // verus!
