//! Identifiers: deterministic symbol identifiers (SHA-256 of path, name and
//! kind, hex encoded), provider-qualified model identifiers and routing tiers.

use vstd::prelude::*;
use crate::text::{chars_of, push_char, trim, trim_range};

verus! {

/// Errors of the foundational identifier and path types.
#[derive(Debug)]
pub enum CoreError {
    /// A string-backed symbol identifier was empty or otherwise invalid.
    InvalidSymbolId {
        /// Human-readable validation failure.
        reason: String,
    },
    /// A string-backed model identifier was empty or otherwise invalid.
    InvalidModelId {
        /// Human-readable validation failure.
        reason: String,
    },
    /// A requested path escaped the configured project root.
    PathEscapesRoot {
        /// Canonical project root.
        root: String,
        /// Requested path after normalization.
        requested: String,
    },
    /// A cryptographic key or signature operation failed.
    SigningFailed,
}

/// The lowercase hexadecimal digits.
pub open spec fn hex_digits() -> Seq<char> {
    seq!['0', '1', '2', '3', '4', '5', '6', '7', '8', '9', 'a', 'b', 'c', 'd', 'e', 'f']
}

/// Lowercase hexadecimal encoding, two digits per byte, high nibble first.
pub open spec fn hex_spec(bytes: Seq<u8>) -> Seq<char>
    decreases bytes.len(),
{
    if bytes.len() == 0 {
        seq![]
    } else {
        hex_spec(bytes.drop_last()) + seq![
            hex_digits()[(bytes.last() / 16) as int],
            hex_digits()[(bytes.last() % 16) as int],
        ]
    }
}

/// The SHA-256 digest of `data`.
pub uninterp spec fn sha256_spec(data: Seq<u8>) -> Seq<u8>;

/// SHA-256 through `ring::digest::digest`. Claimed of ring: the digest depends
/// on the input bytes alone and is 32 bytes long (the SHA-256 output length).
#[verifier::external_body]
fn sha256_digest(data: &[u8]) -> (r: Vec<u8>)
    ensures
        r@ == sha256_spec(data@),
        r@.len() == 32,
{
    ring::digest::digest(&ring::digest::SHA256, data).as_ref().to_vec()
}

/// Encodes a byte slice as a lowercase hexadecimal string.
pub fn hex_encode(bytes: &[u8]) -> (encoded: String)
    ensures
        encoded@ == hex_spec(bytes@),
{
    let digits = ['0', '1', '2', '3', '4', '5', '6', '7', '8', '9', 'a', 'b', 'c', 'd', 'e', 'f'];
    assert(digits@ =~= hex_digits());
    let mut encoded = String::new();
    let mut i: usize = 0;
    assert(bytes@.take(0) =~= Seq::<u8>::empty());
    while i < bytes.len()
        invariant
            i <= bytes@.len(),
            digits@ == hex_digits(),
            encoded@ == hex_spec(bytes@.take(i as int)),
        decreases bytes@.len() - i,
    {
        let byte = bytes[i];
        push_char(&mut encoded, digits[(byte / 16) as usize]);
        push_char(&mut encoded, digits[(byte % 16) as usize]);
        assert(bytes@.take(i + 1).drop_last() =~= bytes@.take(i as int));
        assert(bytes@.take(i + 1).last() == byte);
        assert(encoded@ =~= hex_spec(bytes@.take(i + 1)));
        i = i + 1;
    }
    assert(bytes@.take(bytes@.len() as int) =~= bytes@);
    encoded
}

/// Computes the SHA-256 hash of `data` and returns it as a lowercase hex string.
pub fn sha256_hex(data: &[u8]) -> (r: String)
    ensures
        r@ == hex_spec(sha256_spec(data@)),
        r@.len() == 64,
{
    let digest = sha256_digest(data);
    proof {
        hex_encoding_shape(digest@);
    }
    hex_encode(digest.as_slice())
}

/// Deterministic identifier for a source symbol.
#[derive(Debug, Clone)]
pub struct SymbolId(String);

impl View for SymbolId {
    type V = Seq<char>;

    closed spec fn view(&self) -> Seq<char> {
        self.0@
    }
}

/// The fingerprint hashed into a symbol identifier: path, name and kind
/// joined by the unit separator U+001F.
pub open spec fn fingerprint(file_path: Seq<char>, symbol_name: Seq<char>, symbol_kind: Seq<char>) -> Seq<char> {
    file_path + seq!['\u{1f}'] + symbol_name + seq!['\u{1f}'] + symbol_kind
}

/// The identifier `from_parts` derives.
pub open spec fn symbol_id_spec(file_path: Seq<char>, symbol_name: Seq<char>, symbol_kind: Seq<char>) -> Seq<char> {
    hex_spec(sha256_spec(vstd::utf8::encode_utf8(fingerprint(file_path, symbol_name, symbol_kind))))
}

impl SymbolId {
    /// Creates a symbol identifier from an already hashed string.
    ///
    /// # Errors
    ///
    /// Returns `CoreError::InvalidSymbolId` when the identifier is empty or
    /// only whitespace.
    pub fn new(identifier: String) -> (r: Result<Self, CoreError>)
        ensures
            trim(identifier@).len() == 0 <==> r is Err,
            r matches Ok(id) ==> id@ == identifier@,
            r matches Err(e) ==> e is InvalidSymbolId,
    {
        if is_blank(identifier.as_str()) {
            return Err(CoreError::InvalidSymbolId { reason: "symbol id cannot be empty".to_string() });
        }
        Ok(SymbolId(identifier))
    }

    /// Builds a deterministic symbol identifier from path, symbol name, and kind.
    pub fn from_parts(file_path: &str, symbol_name: &str, symbol_kind: &str) -> (r: Self)
        ensures
            r@ == symbol_id_spec(file_path@, symbol_name@, symbol_kind@),
            r@.len() == 64,
    {
        let mut fingerprint_text = String::new();
        fingerprint_text.append(file_path);
        push_char(&mut fingerprint_text, '\u{1f}');
        fingerprint_text.append(symbol_name);
        push_char(&mut fingerprint_text, '\u{1f}');
        fingerprint_text.append(symbol_kind);
        assert(fingerprint_text@ =~= fingerprint(file_path@, symbol_name@, symbol_kind@));
        let bytes = fingerprint_text.as_str().as_bytes();
        SymbolId(sha256_hex(bytes))
    }

    /// Returns the identifier as a string slice.
    pub fn as_str(&self) -> (r: &str)
        ensures
            r@ == self@,
    {
        self.0.as_str()
    }
}

impl PartialEq for SymbolId {
    fn eq(&self, other: &Self) -> (r: bool) {
        self.0 == other.0
    }
}

impl vstd::std_specs::cmp::PartialEqSpecImpl for SymbolId {
    open spec fn obeys_eq_spec() -> bool {
        true
    }

    open spec fn eq_spec(&self, other: &Self) -> bool {
        self@ == other@
    }
}

impl Eq for SymbolId {
}

impl core::str::FromStr for SymbolId {
    type Err = CoreError;

    fn from_str(input: &str) -> (r: Result<Self, CoreError>)
        ensures
            trim(input@).len() == 0 <==> r is Err,
            r matches Ok(id) ==> id@ == input@,
            r matches Err(e) ==> e is InvalidSymbolId,
    {
        SymbolId::new(<String as vstd::string::StringExecFns>::from_str(input))
    }
}

/// Whether `s` is empty or only whitespace.
pub fn is_blank(s: &str) -> (b: bool)
    ensures
        b == (trim(s@).len() == 0),
{
    let v = chars_of(s);
    let (a, b) = trim_range(&v, 0, v.len());
    assert(v@.subrange(0, v@.len() as int) =~= v@);
    a == b
}

/// Cost and capability tier for a model route.
#[derive(Debug, Clone, Copy, PartialEq, Eq, Structural, Hash)]
pub enum ModelTier {
    /// Local model, such as Ollama.
    Tier0,
    /// Free hosted model.
    Tier1,
    /// Low-cost hosted model.
    Tier2,
    /// Frontier model reserved for high-value decisions.
    Tier3,
}

/// Provider-qualified model identifier.
#[derive(Debug, Clone)]
pub struct ModelId(String);

impl View for ModelId {
    type V = Seq<char>;

    closed spec fn view(&self) -> Seq<char> {
        self.0@
    }
}

impl ModelId {
    /// Creates a model identifier from a provider-qualified string.
    ///
    /// # Errors
    ///
    /// Returns `CoreError::InvalidModelId` when the identifier is empty or
    /// only whitespace.
    pub fn new(identifier: String) -> (r: Result<Self, CoreError>)
        ensures
            trim(identifier@).len() == 0 <==> r is Err,
            r matches Ok(id) ==> id@ == identifier@,
            r matches Err(e) ==> e is InvalidModelId,
    {
        if is_blank(identifier.as_str()) {
            return Err(CoreError::InvalidModelId { reason: "model id cannot be empty".to_string() });
        }
        Ok(ModelId(identifier))
    }

    /// Returns the model identifier as a string slice.
    pub fn as_str(&self) -> (r: &str)
        ensures
            r@ == self@,
    {
        self.0.as_str()
    }
}

impl PartialEq for ModelId {
    fn eq(&self, other: &Self) -> (r: bool) {
        self.0 == other.0
    }
}

impl vstd::std_specs::cmp::PartialEqSpecImpl for ModelId {
    open spec fn obeys_eq_spec() -> bool {
        true
    }

    open spec fn eq_spec(&self, other: &Self) -> bool {
        self@ == other@
    }
}

impl Eq for ModelId {
}

impl core::str::FromStr for ModelId {
    type Err = CoreError;

    fn from_str(input: &str) -> (r: Result<Self, CoreError>)
        ensures
            trim(input@).len() == 0 <==> r is Err,
            r matches Ok(id) ==> id@ == input@,
            r matches Err(e) ==> e is InvalidModelId,
    {
        ModelId::new(<String as vstd::string::StringExecFns>::from_str(input))
    }
}

/// Short label of a routing tier, as the run view shows it.
pub fn tier_label(tier: ModelTier) -> (r: &'static str)
    ensures
        tier is Tier0 ==> r@ == "T0/Local"@,
        tier is Tier1 ==> r@ == "T1/Free"@,
        tier is Tier2 ==> r@ == "T2/Cloud"@,
        tier is Tier3 ==> r@ == "T3/Frontier"@,
{
    match tier {
        ModelTier::Tier0 => "T0/Local",
        ModelTier::Tier1 => "T1/Free",
        ModelTier::Tier2 => "T2/Cloud",
        ModelTier::Tier3 => "T3/Frontier",
    }
}

/// Hex encoding doubles the length and uses only lowercase hex digits.
pub proof fn hex_encoding_shape(bytes: Seq<u8>)
    ensures
        hex_spec(bytes).len() == 2 * bytes.len(),
        forall|i: int| 0 <= i < hex_spec(bytes).len() ==> hex_digits().contains(#[trigger] hex_spec(bytes)[i]),
    decreases bytes.len(),
{
    if bytes.len() > 0 {
        hex_encoding_shape(bytes.drop_last());
        let prev = hex_spec(bytes.drop_last());
        let hi = hex_digits()[(bytes.last() / 16) as int];
        let lo = hex_digits()[(bytes.last() % 16) as int];
        assert forall|i: int| 0 <= i < hex_spec(bytes).len() implies hex_digits().contains(#[trigger] hex_spec(bytes)[i]) by {
            if i < prev.len() {
                assert(hex_spec(bytes)[i] == prev[i]);
            } else if i == prev.len() {
                assert(hex_spec(bytes)[i] == hi);
                assert(hex_digits()[(bytes.last() / 16) as int] == hi);
            } else {
                assert(hex_spec(bytes)[i] == lo);
                assert(hex_digits()[(bytes.last() % 16) as int] == lo);
            }
        }
    }
}


/// The value of a lowercase hexadecimal digit.
pub open spec fn hex_value(c: char) -> int {
    if '0' <= c && c <= '9' {
        c as int - '0' as int
    } else {
        c as int - 'a' as int + 10
    }
}

proof fn hex_digit_value(d: int)
    requires
        0 <= d < 16,
    ensures
        hex_value(hex_digits()[d]) == d,
{
    if d == 0 { assert(hex_digits()[0] == '0'); }
    else if d == 1 { assert(hex_digits()[1] == '1'); }
    else if d == 2 { assert(hex_digits()[2] == '2'); }
    else if d == 3 { assert(hex_digits()[3] == '3'); }
    else if d == 4 { assert(hex_digits()[4] == '4'); }
    else if d == 5 { assert(hex_digits()[5] == '5'); }
    else if d == 6 { assert(hex_digits()[6] == '6'); }
    else if d == 7 { assert(hex_digits()[7] == '7'); }
    else if d == 8 { assert(hex_digits()[8] == '8'); }
    else if d == 9 { assert(hex_digits()[9] == '9'); }
    else if d == 10 { assert(hex_digits()[10] == 'a'); }
    else if d == 11 { assert(hex_digits()[11] == 'b'); }
    else if d == 12 { assert(hex_digits()[12] == 'c'); }
    else if d == 13 { assert(hex_digits()[13] == 'd'); }
    else if d == 14 { assert(hex_digits()[14] == 'e'); }
    else { assert(hex_digits()[15] == 'f'); }
}

/// Hex encoding decodes back: the two digits at `2 * i` and `2 * i + 1`,
/// read in base 16, give byte `i`.
pub proof fn hex_encoding_decodes(bytes: Seq<u8>)
    ensures
        hex_spec(bytes).len() == 2 * bytes.len(),
        forall|i: int|
            0 <= i < bytes.len() ==> 16 * hex_value(#[trigger] hex_spec(bytes)[2 * i]) + hex_value(hex_spec(bytes)[2 * i + 1])
                == bytes[i],
    decreases bytes.len(),
{
    hex_encoding_shape(bytes);
    if bytes.len() > 0 {
        let n = bytes.len() - 1;
        let prev = bytes.drop_last();
        hex_encoding_decodes(prev);
        let b = bytes.last();
        hex_digit_value((b / 16) as int);
        hex_digit_value((b % 16) as int);
        assert forall|i: int|
            0 <= i < bytes.len() implies 16 * hex_value(#[trigger] hex_spec(bytes)[2 * i]) + hex_value(hex_spec(bytes)[2 * i + 1])
                == bytes[i] by {
            if i < n {
                assert(hex_spec(bytes)[2 * i] == hex_spec(prev)[2 * i]);
                assert(hex_spec(bytes)[2 * i + 1] == hex_spec(prev)[2 * i + 1]);
                assert(prev[i] == bytes[i]);
            } else {
                assert(hex_spec(bytes)[2 * i] == hex_digits()[(b / 16) as int]);
                assert(hex_spec(bytes)[2 * i + 1] == hex_digits()[(b % 16) as int]);
            }
        }
    }
}

/// Hex encoding is injective: two byte strings with the same encoding
/// are equal.
pub proof fn hex_encoding_injective(a: Seq<u8>, b: Seq<u8>)
    requires
        hex_spec(a) == hex_spec(b),
    ensures
        a == b,
{
    hex_encoding_decodes(a);
    hex_encoding_decodes(b);
    assert forall|i: int| 0 <= i < a.len() implies a[i] == b[i] by {
        assert(a.len() == b.len());
        assert(16 * hex_value(hex_spec(a)[2 * i]) + hex_value(hex_spec(a)[2 * i + 1]) == a[i]);
        assert(16 * hex_value(hex_spec(b)[2 * i]) + hex_value(hex_spec(b)[2 * i + 1]) == b[i]);
    }
    assert(a =~= b);
}

} // verus!
