//! Truth tokens: the signed proof that a task's intent was validated. A
//! token binds a task, its class, the time it was issued and the
//! validation strictness in a canonical payload signed with Ed25519.

use vstd::prelude::*;
use ring::signature::KeyPair;
use crate::doctor::{append_decimal_u64, decimal};
use crate::domain::{strictness_name, task_class_name, Strictness, TaskClass, VerifyingKey};
use crate::ident::{hex_spec, CoreError};

verus! {

#[verifier::external_type_specification]
#[verifier::external_body]
pub struct ExEd25519KeyPair(ring::signature::Ed25519KeyPair);

/// The 16 bytes of `id`, most significant first.
pub open spec fn u128_bytes(id: u128) -> Seq<u8> {
    Seq::new(16, |i: int| ((id >> ((8 * (15 - i)) as u128)) & 0xffu128) as u8)
}

/// The hyphenated lowercase text of a 128-bit identifier: its 32 hex
/// digits, most significant first, in groups of 8, 4, 4, 4 and 12.
pub open spec fn uuid_text_spec(id: u128) -> Seq<char> {
    let h = hex_spec(u128_bytes(id));
    h.subrange(0, 8) + seq!['-'] + h.subrange(8, 12) + seq!['-'] + h.subrange(12, 16) + seq!['-'] + h.subrange(16, 20)
        + seq!['-'] + h.subrange(20, 32)
}

/// `uuid::Uuid::from_u128(id).to_string()`. Claimed: the hyphenated
/// lowercase form of the identifier (`Uuid`'s `Display`).
#[verifier::external_body]
fn uuid_text(id: u128) -> (r: String)
    ensures
        r@ == uuid_text_spec(id),
{
    uuid::Uuid::from_u128(id).to_string()
}

/// A version-4 (random) UUID of the RFC 4122 variant: the version nibble
/// (bits 76 to 79) is 4 and the two variant bits (62 and 63) are `10`.
pub open spec fn is_v4_uuid(id: u128) -> bool {
    (id >> 76u128) & 0xfu128 == 4u128 && (id >> 62u128) & 0x3u128 == 2u128
}

/// `uuid::Uuid::new_v4().as_u128()`: random bits with the version and
/// variant bits set (`new_v4` masks them in). Claimed: the result is a
/// version-4 UUID of the RFC 4122 variant; its other bits are random and
/// nothing is claimed of them.
#[verifier::external_body]
fn random_uuid() -> (r: u128)
    ensures
        is_v4_uuid(r),
{
    uuid::Uuid::new_v4().as_u128()
}

/// `chrono::Utc::now()`, as its `timestamp()` (whole seconds since the Unix
/// epoch) and `timestamp_subsec_nanos()` (nanoseconds past that second).
/// Nothing is claimed of the values, which depend on the clock.
#[verifier::external_body]
fn now_utc() -> (r: (i64, u32)) {
    let now = chrono::Utc::now();
    (now.timestamp(), now.timestamp_subsec_nanos())
}

/// An Ed25519 signing key pair of `ring` together with its public key,
/// read from the pair when it is wrapped. The fields are private and only
/// `SigningKeyPair::new` builds one, so `public_key` always holds the
/// pair's own public key.
pub struct SigningKeyPair {
    pair: ring::signature::Ed25519KeyPair,
    public_key: Vec<u8>,
}

/// `Ed25519KeyPair::public_key` of `ring`, as bytes. Claimed: 32 bytes
/// (`ED25519_PUBLIC_KEY_LEN`); the bytes themselves depend on the opaque
/// key pair and are not stated.
#[verifier::external_body]
fn ed25519_public_key(key_pair: &ring::signature::Ed25519KeyPair) -> (r: Vec<u8>)
    ensures
        r@.len() == 32,
{
    key_pair.public_key().as_ref().to_vec()
}

impl SigningKeyPair {
    /// An Ed25519 public key has 32 bytes.
    #[verifier::type_invariant]
    closed spec fn public_key_has_ed25519_length(self) -> bool {
        self.public_key@.len() == 32
    }

    /// The bytes of the pair's public key.
    pub closed spec fn public_bytes(&self) -> Seq<u8> {
        self.public_key@
    }

    /// Wraps a `ring` key pair, reading its public key once.
    pub fn new(pair: ring::signature::Ed25519KeyPair) -> (r: Self)
        ensures
            r.public_bytes().len() == 32,
    {
        let public_key = ed25519_public_key(&pair);
        SigningKeyPair { pair, public_key }
    }

    /// The bytes of the pair's public key.
    pub fn public_key(&self) -> (r: &[u8])
        ensures
            r@ == self.public_bytes(),
    {
        self.public_key.as_slice()
    }
}

/// `Ed25519KeyPair::sign` of `ring`, on the pair that `key_pair` wraps.
/// Claimed: the signature has 64 bytes (`SIGNATURE_LEN`), and Ed25519
/// verification accepts it as a signature of `message` under the pair's
/// public key, which `key_pair.public_bytes()` holds (ring's signing and
/// verification correspond). The signature's bytes depend on the private
/// key, which stays opaque here, and are not stated.
#[verifier::external_body]
fn ed25519_sign(key_pair: &SigningKeyPair, message: &[u8]) -> (r: Vec<u8>)
    ensures
        r@.len() == 64,
        ed25519_accepts(key_pair.public_bytes(), message@, r@),
{
    key_pair.pair.sign(message).as_ref().to_vec()
}

/// Whether `ring` accepts `signature` as an Ed25519 signature of `message`
/// under `public_key`.
pub uninterp spec fn ed25519_accepts(public_key: Seq<u8>, message: Seq<u8>, signature: Seq<u8>) -> bool;

/// `UnparsedPublicKey::new(&ED25519, public_key).verify(message,
/// signature).is_ok()` of `ring`. Claimed: the outcome is
/// `ed25519_accepts` of the three byte strings, a function of them alone.
#[verifier::external_body]
fn ed25519_verify(public_key: &[u8], message: &[u8], signature: &[u8]) -> (r: bool)
    ensures
        r == ed25519_accepts(public_key@, message@, signature@),
{
    ring::signature::UnparsedPublicKey::new(&ring::signature::ED25519, public_key).verify(message, signature).is_ok()
}

/// Identifier of a task, a 128-bit UUID.
#[derive(Debug, Clone, Copy, PartialEq, Eq, Hash, Structural)]
pub struct TaskId(pub u128);

impl TaskId {
    /// A fresh random identifier: a version-4 UUID of the RFC 4122 variant,
    /// its other 122 bits random.
    pub fn new() -> (r: Self)
        ensures
            is_v4_uuid(r.0),
    {
        TaskId(random_uuid())
    }

    /// The identifier as text, hyphenated.
    pub fn to_text(&self) -> (r: String)
        ensures
            r@ == uuid_text_spec(self.0),
    {
        uuid_text(self.0)
    }
}

impl VerifyingKey {
    /// Extracts the verifying key from an Ed25519 key pair: the pair's
    /// public key.
    pub fn from_key_pair(signing_key_pair: &SigningKeyPair) -> (r: Self)
        ensures
            r@ == signing_key_pair.public_bytes(),
            r@.len() == 32,
    {
        proof {
            use_type_invariant(signing_key_pair);
        }
        let bytes = signing_key_pair.public_key.clone();
        assert(bytes@ =~= signing_key_pair.public_key@);
        VerifyingKey::new(bytes)
    }
}

/// A signed integer in decimal.
pub open spec fn signed_decimal(n: int) -> Seq<char> {
    if n < 0 {
        seq!['-'] + decimal((-n) as nat)
    } else {
        decimal(n as nat)
    }
}

/// The canonical payload a token signs:
/// `v1|<task id>|<task class>|<issued at, ns>|<strictness>`.
pub open spec fn payload_spec(task_id: u128, task_class: TaskClass, issued_at_nanos: i64, strictness: Strictness) -> Seq<char> {
    "v1|"@ + uuid_text_spec(task_id) + "|"@ + task_class_name(task_class) + "|"@ + signed_decimal(issued_at_nanos as int)
        + "|"@ + strictness_name(strictness)
}

/// Builds the canonical payload of a token.
pub fn canonical_payload(task_id: TaskId, task_class: TaskClass, issued_at_nanos: i64, strictness: Strictness) -> (r: String)
    ensures
        r@ == payload_spec(task_id.0, task_class, issued_at_nanos, strictness),
{
    let mut r = String::from_str("v1|");
    let id = task_id.to_text();
    r.append(id.as_str());
    r.append("|");
    r.append(task_class.as_str());
    r.append("|");
    let ghost head = r@;
    assert(head =~= "v1|"@ + uuid_text_spec(task_id.0) + "|"@ + task_class_name(task_class) + "|"@);
    if issued_at_nanos < 0 {
        r.append("-");
        let magnitude: u64 = if issued_at_nanos == i64::MIN {
            9223372036854775808u64
        } else {
            (-issued_at_nanos) as u64
        };
        assert(magnitude as int == -(issued_at_nanos as int));
        append_decimal_u64(&mut r, magnitude);
        proof {
            reveal_strlit("-");
            assert(r@ =~= head + signed_decimal(issued_at_nanos as int));
        }
    } else {
        append_decimal_u64(&mut r, issued_at_nanos as u64);
        assert(r@ =~= head + signed_decimal(issued_at_nanos as int));
    }
    r.append("|");
    r.append(strictness.as_str());
    assert(r@ =~= payload_spec(task_id.0, task_class, issued_at_nanos, strictness));
    r
}

/// Nanoseconds since the Unix epoch of the instant `secs` seconds and
/// `subsec` nanoseconds after it, as chrono's `timestamp_nanos_opt`
/// computes it: a negative second count is first shifted by one second
/// (so the product does not underflow early), and the result is `None`
/// when the product or the sum leaves the range of `i64`.
pub open spec fn timestamp_nanos_spec(secs: i64, subsec: u32) -> Option<i64> {
    let t: int = if secs < 0 { secs + 1 } else { secs as int };
    let n: int = if secs < 0 { subsec - 1_000_000_000 } else { subsec as int };
    if i64::MIN <= t * 1_000_000_000 <= i64::MAX && i64::MIN <= t * 1_000_000_000 + n <= i64::MAX {
        Some((t * 1_000_000_000 + n) as i64)
    } else {
        None
    }
}

/// The nanosecond timestamp of an instant given as seconds and nanoseconds
/// since the Unix epoch, `None` when it does not fit an `i64`.
pub fn timestamp_nanos(secs: i64, subsec: u32) -> (r: Option<i64>)
    ensures
        r == timestamp_nanos_spec(secs, subsec),
{
    let (t, n): (i64, i64) = if secs < 0 {
        (secs + 1, subsec as i64 - 1_000_000_000)
    } else {
        (secs, subsec as i64)
    };
    match t.checked_mul(1_000_000_000) {
        Some(p) => p.checked_add(n),
        None => None,
    }
}

/// The nanoseconds a token's payload carries: its issue time, or 0 when
/// that does not fit an `i64`.
pub open spec fn payload_nanos(secs: i64, subsec: u32) -> i64 {
    match timestamp_nanos_spec(secs, subsec) {
        Some(n) => n,
        None => 0,
    }
}

/// Signed proof that a task's intent was validated.
#[derive(Debug, Clone)]
pub struct TruthToken {
    /// Task authorized by the token.
    pub task_id: TaskId,
    /// Class of task authorized by the token.
    pub task_class: TaskClass,
    /// When the token was issued: whole seconds since the Unix epoch.
    pub issued_at_secs: i64,
    /// When the token was issued: nanoseconds past that second.
    pub issued_at_subsec_nanos: u32,
    /// Validation strictness used to issue the token.
    pub strictness: Strictness,
    /// Ed25519 signature over the canonical payload.
    pub signature: Vec<u8>,
}

/// The UTF-8 bytes of the payload a token signs.
pub open spec fn token_message(t: TruthToken) -> Seq<u8> {
    vstd::utf8::encode_utf8(
        payload_spec(t.task_id.0, t.task_class, payload_nanos(t.issued_at_secs, t.issued_at_subsec_nanos), t.strictness),
    )
}

/// Whether Ed25519 accepts the signature of `t` as one of its own
/// canonical payload under the public key `public_key`.
pub open spec fn signed_under(t: TruthToken, public_key: Seq<u8>) -> bool {
    ed25519_accepts(public_key, token_message(t), t.signature@)
}

/// A token issued with a key pair verifies under the verifying key taken
/// from that pair.
pub proof fn issued_token_verifies_under_its_key(t: TruthToken, key_pair: &SigningKeyPair, key: VerifyingKey)
    requires
        signed_under(t, key_pair.public_bytes()),
        key@ == key_pair.public_bytes(),
    ensures
        signed_under(t, key@),
{
}

impl TruthToken {
    /// Creates and signs a truth token issued at the current time.
    ///
    /// # Errors
    ///
    /// Returns `CoreError::SigningFailed` if the signature is not 64 bytes
    /// long; Ed25519 signatures always are.
    pub fn new(
        task_id: TaskId,
        task_class: TaskClass,
        strictness: Strictness,
        signing_key_pair: &SigningKeyPair,
    ) -> (r: Result<Self, CoreError>)
        ensures
            r matches Ok(t) ==> t.task_id == task_id && t.task_class == task_class && t.strictness == strictness
                && t.signature@.len() == 64 && signed_under(t, signing_key_pair.public_bytes()),
            r is Ok,
    {
        let (secs, subsec) = now_utc();
        Self::issue(task_id, task_class, strictness, signing_key_pair, secs, subsec)
    }

    /// Creates and signs a truth token issued `issued_at_secs` seconds and
    /// `issued_at_subsec_nanos` nanoseconds after the Unix epoch.
    ///
    /// # Errors
    ///
    /// Returns `CoreError::SigningFailed` if the signature is not 64 bytes
    /// long; Ed25519 signatures always are.
    pub fn issue(
        task_id: TaskId,
        task_class: TaskClass,
        strictness: Strictness,
        signing_key_pair: &SigningKeyPair,
        issued_at_secs: i64,
        issued_at_subsec_nanos: u32,
    ) -> (r: Result<Self, CoreError>)
        ensures
            r matches Ok(t) ==> t.task_id == task_id && t.task_class == task_class && t.strictness == strictness
                && t.issued_at_secs == issued_at_secs && t.issued_at_subsec_nanos == issued_at_subsec_nanos
                && t.signature@.len() == 64 && signed_under(t, signing_key_pair.public_bytes()),
            r is Ok,
    {
        let nanos = match timestamp_nanos(issued_at_secs, issued_at_subsec_nanos) {
            Some(n) => n,
            None => 0,
        };
        let payload = canonical_payload(task_id, task_class, nanos, strictness);
        let signature = ed25519_sign(signing_key_pair, payload.as_str().as_bytes());
        if signature.len() != 64 {
            return Err(CoreError::SigningFailed);
        }
        let t = TruthToken { task_id, task_class, issued_at_secs, issued_at_subsec_nanos, strictness, signature };
        Ok(t)
    }

    /// Verifies the token signature with the supplied public key: whether
    /// Ed25519 accepts the signature of the token's canonical payload.
    pub fn verify(&self, public_key: &VerifyingKey) -> (r: bool)
        ensures
            r == signed_under(*self, public_key@),
    {
        let nanos = match timestamp_nanos(self.issued_at_secs, self.issued_at_subsec_nanos) {
            Some(n) => n,
            None => 0,
        };
        let payload = canonical_payload(self.task_id, self.task_class, nanos, self.strictness);
        ed25519_verify(public_key.as_bytes(), payload.as_str().as_bytes(), self.signature.as_slice())
    }
}

} // verus!
