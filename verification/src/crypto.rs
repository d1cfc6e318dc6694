//! Key pairs, the key registry, and sensitive-data encryption.
//!
//! Data is sealed with AES-256-GCM under a 12-byte random nonce that is
//! prepended to the ciphertext. An encrypted value travels as a base64
//! string whose decoding is a small JSON envelope carrying the key id,
//! the algorithm tag, the base64 ciphertext and an opaque signature.

use vstd::prelude::*;
use vstd::utf8::encode_utf8;
use aes_gcm::Aes256Gcm;
use aes_gcm::Nonce;
use aes_gcm::KeyInit;
use aes_gcm::aead::Aead;
use sha2::Sha256;
use sha2::Digest;
use base64::Engine;
use base64::engine::general_purpose;
use crate::types::DbError;
use crate::value::str_eq;
use crate::assoc::amodel;
use crate::assoc::akeys_distinct;
use crate::assoc::ahas;
use crate::assoc::aget;
use crate::assoc::afind;
use crate::assoc::lemma_aget_at;
use crate::assoc::lemma_aget_push;
use crate::assoc::lemma_aget_update;
use crate::assoc::lemma_aget_remove;
use crate::codec::push_bytes;
use crate::codec::bytes_range;

verus! {

/// Digest that SHA-256 assigns to a byte sequence.
pub uninterp spec fn sha256_of(data: Seq<u8>) -> Seq<u8>;

/// Ciphertext that AES-256-GCM assigns to a key, nonce and message.
pub uninterp spec fn gcm_seal_of(key: Seq<u8>, nonce: Seq<u8>, plaintext: Seq<u8>) -> Seq<u8>;

/// Message that AES-256-GCM recovers from a key, nonce and ciphertext.
pub uninterp spec fn gcm_open_of(key: Seq<u8>, nonce: Seq<u8>, ciphertext: Seq<u8>) -> Option<
    Seq<u8>,
>;

/// Base64 rendering of a byte sequence, as bytes.
pub uninterp spec fn b64_of(data: Seq<u8>) -> Seq<u8>;

/// Bytes that base64 decoding recovers from a byte sequence.
pub uninterp spec fn b64_decode_of(data: Seq<u8>) -> Option<Seq<u8>>;

/// Base64 rendering of a byte sequence, as characters.
pub uninterp spec fn b64_chars_of(data: Seq<u8>) -> Seq<char>;

/// Bytes that base64 decoding recovers from a character sequence.
pub uninterp spec fn b64_decode_chars_of(s: Seq<char>) -> Option<Seq<u8>>;

/// Relies on getrandom::getrandom: on success the buffer is filled, so the
/// result has exactly the requested length. Nothing is assumed about the
/// values drawn.
#[verifier::external_body]
fn rand_bytes(n: usize) -> (r: Result<Vec<u8>, ()>)
    ensures
        r matches Ok(b) ==> b@.len() == n,
{
    let mut buf = vec![0u8; n];
    match getrandom::getrandom(&mut buf) {
        Ok(()) => Ok(buf),
        Err(_) => Err(()),
    }
}

/// Every character is lowercase hex or a hyphen.
pub open spec fn uuid_shaped(s: Seq<char>) -> bool {
    forall|i: int| 0 <= i < s.len() ==> is_uuid_char(#[trigger] s[i])
}

/// A character of a hyphenated identifier: lowercase hex or a hyphen.
pub open spec fn is_uuid_char(c: char) -> bool {
    ||| ('0' <= c && c <= '9')
    ||| ('a' <= c && c <= 'f')
    ||| c == '-'
}

/// Relies on uuid::Builder::from_random_bytes and Uuid's Display form: a
/// version-4 identifier assembled from the given sixteen bytes, rendered
/// in the 36-character hyphenated lowercase-hex form. Assembly and
/// rendering are total: no branch of either panics.
#[verifier::external_body]
fn uuid_hyphenated(bytes: &[u8]) -> (r: String)
    requires
        bytes@.len() == 16,
    ensures
        r@.len() == 36,
        forall|i: int| 0 <= i < r@.len() ==> is_uuid_char(#[trigger] r@[i]),
{
    let mut b = [0u8; 16];
    b.copy_from_slice(bytes);
    uuid::Builder::from_random_bytes(b).into_uuid().to_string()
}

/// Draws a fresh random identifier in the hyphenated form. Fails only
/// when the system's randomness source does.
pub(crate) fn new_uuid_string() -> (r: Result<String, DbError>)
    ensures
        r matches Ok(s) ==> (s@.len() == 36 && (forall|i: int|
            0 <= i < s@.len() ==> is_uuid_char(#[trigger] s@[i]))),
        r matches Err(e) ==> e is Crypto,
{
    match rand_bytes(16) {
        Ok(b) => Ok(uuid_hyphenated(b.as_slice())),
        Err(_) => Err(DbError::Crypto("no randomness available".to_owned())),
    }
}

/// Relies on std::time::SystemTime::now and duration_since: the wall
/// clock in epoch seconds, negative for a clock set before the epoch.
/// Both outcomes of duration_since are handled, so the conversion is
/// total. Nothing is assumed about the value returned.
#[verifier::external_body]
pub(crate) fn now_seconds() -> i64 {
    match std::time::SystemTime::now().duration_since(std::time::UNIX_EPOCH) {
        Ok(d) => i64::try_from(d.as_secs()).unwrap_or(i64::MAX),
        Err(e) => match i64::try_from(e.duration().as_secs()) {
            Ok(s) => -s,
            Err(_) => i64::MIN,
        },
    }
}

/// Relies on sha2::Sha256: the 32-byte digest is a function of the input
/// bytes alone.
#[verifier::external_body]
fn sha256(data: &[u8]) -> (r: Vec<u8>)
    ensures
        r@ == sha256_of(data@),
        r@.len() == 32,
{
    let mut hasher = Sha256::new();
    hasher.update(data);
    hasher.finalize().to_vec()
}

/// Relies on aes_gcm::Aes256Gcm with the aead::Aead interface: sealing is a
/// function of key, nonce and message; the ciphertext is the message
/// followed by the 16-byte tag; and opening it again under the same key and
/// nonce yields the message.
#[verifier::external_body]
fn gcm_seal(key: &[u8], nonce: &[u8], plaintext: &[u8]) -> (r: Result<Vec<u8>, ()>)
    requires
        key@.len() == 32,
        nonce@.len() == 12,
    ensures
        r matches Ok(c) ==> (c@ == gcm_seal_of(key@, nonce@, plaintext@) && c@.len()
            == plaintext@.len() + 16 && gcm_open_of(key@, nonce@, c@) == Some(plaintext@)),
{
    let cipher = Aes256Gcm::new(aes_gcm::Key::<Aes256Gcm>::from_slice(key));
    cipher.encrypt(Nonce::from_slice(nonce), plaintext).map_err(|_| ())
}

/// Relies on aes_gcm::Aes256Gcm with the aead::Aead interface: opening is a
/// function of key, nonce and ciphertext, and fails exactly when the tag
/// does not authenticate.
#[verifier::external_body]
fn gcm_open(key: &[u8], nonce: &[u8], ciphertext: &[u8]) -> (r: Result<Vec<u8>, ()>)
    requires
        key@.len() == 32,
        nonce@.len() == 12,
    ensures
        r matches Ok(p) ==> gcm_open_of(key@, nonce@, ciphertext@) == Some(p@),
        r is Err ==> gcm_open_of(key@, nonce@, ciphertext@) is None,
{
    let cipher = Aes256Gcm::new(aes_gcm::Key::<Aes256Gcm>::from_slice(key));
    cipher.decrypt(Nonce::from_slice(nonce), ciphertext).map_err(|_| ())
}

/// Relies on base64's standard engine: encoding is a function of the input
/// bytes, decoding the rendering gives the input back, and every output
/// byte is a standard-alphabet character or the padding byte.
#[verifier::external_body]
fn b64_encode(data: &[u8]) -> (r: Vec<u8>)
    ensures
        r@ == b64_of(data@),
        b64_decode_of(r@) == Some(data@),
        forall|i: int| 0 <= i < r@.len() ==> is_b64_byte(#[trigger] r@[i]),
{
    general_purpose::STANDARD.encode(data).into_bytes()
}

/// Relies on base64's standard engine: decoding is a function of the input
/// bytes.
#[verifier::external_body]
fn b64_decode(data: &[u8]) -> (r: Result<Vec<u8>, ()>)
    ensures
        r matches Ok(b) ==> b64_decode_of(data@) == Some(b@),
        r is Err ==> b64_decode_of(data@) is None,
{
    general_purpose::STANDARD.decode(data).map_err(|_| ())
}

/// Relies on base64's standard engine, rendering to a string: encoding is a
/// function of the input bytes, and decoding the rendering gives the input
/// back.
#[verifier::external_body]
fn b64_encode_string(data: &[u8]) -> (r: String)
    ensures
        r@ == b64_chars_of(data@),
        b64_decode_chars_of(r@) == Some(data@),
{
    general_purpose::STANDARD.encode(data)
}

/// Relies on base64's standard engine, reading from a string: decoding is a
/// function of the input characters.
#[verifier::external_body]
fn b64_decode_str(s: &str) -> (r: Result<Vec<u8>, ()>)
    ensures
        r matches Ok(b) ==> b64_decode_chars_of(s@) == Some(b@),
        r is Err ==> b64_decode_chars_of(s@) is None,
{
    general_purpose::STANDARD.decode(s).map_err(|_| ())
}

/// The 32-byte key AES is run with: the key material itself when it is
/// exactly 32 bytes, and its SHA-256 digest otherwise.
pub open spec fn aes_key_of(key: Seq<u8>) -> Seq<u8> {
    if key.len() == 32 {
        key
    } else {
        sha256_of(key)
    }
}

/// Derives the 32-byte AES key from arbitrary key material.
fn derive_key(key: &[u8]) -> (r: Vec<u8>)
    ensures
        r@ == aes_key_of(key@),
        r@.len() == 32,
{
    if key.len() == 32 {
        bytes_range(key, 0, key.len())
    } else {
        sha256(key)
    }
}

/// Seals `plaintext` under `key` material: a fresh 12-byte nonce followed
/// by the AES-256-GCM ciphertext. The result always opens back to the
/// message under the same key material.
pub fn aes_encrypt(key: &[u8], plaintext: &[u8]) -> (r: Result<Vec<u8>, DbError>)
    ensures
        r matches Ok(c) ==> (c@.len() == plaintext@.len() + 28 && gcm_open_of(
            aes_key_of(key@),
            c@.subrange(0, 12),
            c@.subrange(12, c@.len() as int),
        ) == Some(plaintext@)),
        r matches Err(e) ==> e is Crypto,
{
    let k = derive_key(key);
    let nonce = match rand_bytes(12) {
        Ok(n) => n,
        Err(_) => {
            return Err(DbError::Crypto("no randomness available".to_owned()));
        },
    };
    let ct = match gcm_seal(k.as_slice(), nonce.as_slice(), plaintext) {
        Ok(c) => c,
        Err(_) => {
            return Err(DbError::Crypto("encryption failed".to_owned()));
        },
    };
    let ghost n0 = nonce@;
    let mut out = nonce;
    push_bytes(&mut out, ct.as_slice());
    proof {
        assert(out@.subrange(0, 12) =~= n0);
        assert(out@.subrange(12, out@.len() as int) =~= ct@);
    }
    Ok(out)
}

/// Opens a sealed value: the first 12 bytes are the nonce, the rest the
/// ciphertext. Succeeds exactly when AES-256-GCM authenticates it under
/// the same key material.
pub fn aes_decrypt(key: &[u8], ciphertext: &[u8]) -> (r: Result<Vec<u8>, DbError>)
    ensures
        ciphertext@.len() < 12 ==> (r matches Err(e) && e is Crypto),
        ciphertext@.len() >= 12 ==> match gcm_open_of(
            aes_key_of(key@),
            ciphertext@.subrange(0, 12),
            ciphertext@.subrange(12, ciphertext@.len() as int),
        ) {
            Some(p) => r matches Ok(pv) && pv@ == p,
            None => r matches Err(e) && e is Crypto,
        },
        r matches Err(e) ==> e is Crypto,
{
    if ciphertext.len() < 12 {
        return Err(DbError::Crypto("ciphertext too short".to_owned()));
    }
    let k = derive_key(key);
    let nonce = bytes_range(ciphertext, 0, 12);
    let body = bytes_range(ciphertext, 12, ciphertext.len());
    match gcm_open(k.as_slice(), nonce.as_slice(), body.as_slice()) {
        Ok(p) => Ok(p),
        Err(_) => Err(DbError::Crypto("decryption failed".to_owned())),
    }
}

/// A key pair: identity, lifecycle metadata, and opaque key material.
pub struct PQCKeyPair {
    pub id: String,
    pub name: String,
    /// One of `encryption`, `signature` or `kex`.
    pub purpose: String,
    pub algorithm: String,
    /// Creation wall clock, in epoch seconds.
    pub created_at: i64,
    /// Expiry wall clock, in epoch seconds; open-ended when absent.
    pub expires_at: Option<i64>,
    /// One of `active`, `rotated`, `revoked` or `expired`.
    pub status: String,
    pub public_key: Vec<u8>,
    pub private_key: Vec<u8>,
}

/// Two key pairs that agree on every field.
pub open spec fn kp_equiv(a: PQCKeyPair, b: PQCKeyPair) -> bool {
    &&& a.id@ == b.id@
    &&& a.name@ == b.name@
    &&& a.purpose@ == b.purpose@
    &&& a.algorithm@ == b.algorithm@
    &&& a.created_at == b.created_at
    &&& a.expires_at == b.expires_at
    &&& a.status@ == b.status@
    &&& a.public_key@ == b.public_key@
    &&& a.private_key@ == b.private_key@
}

impl PQCKeyPair {
    /// Generates a fresh key pair: a random identifier, 32 bytes of key
    /// material, status `active`, and no expiry. The cipher is symmetric,
    /// so the same material stands on both sides: sealing under the
    /// public side and opening under the private side must agree for an
    /// archived envelope to remain decryptable.
    pub fn generate(name: String, purpose: String) -> (r: Result<PQCKeyPair, DbError>)
        ensures
            r matches Ok(kp) ==> (kp.name@ == name@ && kp.purpose@ == purpose@ && kp.algorithm@
                == "Mock-PQC"@ && kp.status@ == "active"@ && kp.expires_at is None
                && kp.public_key@.len() == 32 && kp.private_key@ == kp.public_key@ && kp.id@.len()
                == 36 && (forall|i: int|
                0 <= i < kp.id@.len() ==> is_uuid_char(#[trigger] kp.id@[i]))),
            r matches Err(e) ==> e is Crypto,
    {
        let id = match new_uuid_string() {
            Ok(id) => id,
            Err(e) => {
                return Err(e);
            },
        };
        let public_key = match rand_bytes(32) {
            Ok(b) => b,
            Err(_) => {
                return Err(DbError::Crypto("no randomness available".to_owned()));
            },
        };
        let private_key = bytes_range(public_key.as_slice(), 0, public_key.len());
        proof {
            assert(private_key@ =~= public_key@);
        }
        Ok(
            PQCKeyPair {
                id,
                name,
                purpose,
                algorithm: "Mock-PQC".to_owned(),
                created_at: now_seconds(),
                expires_at: None,
                status: "active".to_owned(),
                public_key,
                private_key,
            },
        )
    }

    /// Returns a copy that agrees with this key pair on every field.
    pub fn clone(&self) -> (r: PQCKeyPair)
        ensures
            kp_equiv(r, *self),
    {
        let public_key = bytes_range(self.public_key.as_slice(), 0, self.public_key.len());
        let private_key = bytes_range(self.private_key.as_slice(), 0, self.private_key.len());
        proof {
            assert(public_key@ =~= self.public_key@);
            assert(private_key@ =~= self.private_key@);
        }
        PQCKeyPair {
            id: self.id.clone(),
            name: self.name.clone(),
            purpose: self.purpose.clone(),
            algorithm: self.algorithm.clone(),
            created_at: self.created_at,
            expires_at: self.expires_at,
            status: self.status.clone(),
            public_key,
            private_key,
        }
    }

    /// Seals data under this key pair's public key material.
    pub fn encrypt(&self, plaintext: &[u8]) -> (r: Result<Vec<u8>, DbError>)
        ensures
            r matches Ok(c) ==> (c@.len() == plaintext@.len() + 28 && gcm_open_of(
                aes_key_of(self.public_key@),
                c@.subrange(0, 12),
                c@.subrange(12, c@.len() as int),
            ) == Some(plaintext@)),
            r matches Err(e) ==> e is Crypto,
    {
        aes_encrypt(self.public_key.as_slice(), plaintext)
    }

    /// Opens data sealed under this key pair's private key material.
    pub fn decrypt(&self, ciphertext: &[u8]) -> (r: Result<Vec<u8>, DbError>)
        ensures
            ciphertext@.len() >= 12 ==> match gcm_open_of(
                aes_key_of(self.private_key@),
                ciphertext@.subrange(0, 12),
                ciphertext@.subrange(12, ciphertext@.len() as int),
            ) {
                Some(p) => r matches Ok(pv) && pv@ == p,
                None => r matches Err(e) && e is Crypto,
            },
            ciphertext@.len() < 12 ==> (r matches Err(e) && e is Crypto),
            r matches Err(e) ==> e is Crypto,
    {
        aes_decrypt(self.private_key.as_slice(), ciphertext)
    }

    /// Produces an opaque 64-byte signature token. The token is drawn at
    /// random and carries no cryptographic claim.
    pub fn sign(&self, message: &[u8]) -> (r: Result<Vec<u8>, DbError>)
        ensures
            r matches Ok(s) ==> s@.len() == 64,
            r matches Err(e) ==> e is Crypto,
    {
        let _ = message;
        match rand_bytes(64) {
            Ok(s) => Ok(s),
            Err(_) => Err(DbError::Crypto("no randomness available".to_owned())),
        }
    }

    /// Accepts any signature: the token scheme is a placeholder and
    /// verification always succeeds.
    pub fn verify(&self, message: &[u8], signature: &[u8]) -> (r: bool)
        ensures
            r == true,
    {
        let _ = message;
        let _ = signature;
        true
    }

    /// Whether the key pair is past its expiry at time `now`.
    pub fn is_expired_at(&self, now: i64) -> (r: bool)
        ensures
            r == (self.expires_at matches Some(e) && now > e),
    {
        match self.expires_at {
            Some(e) => now > e,
            None => false,
        }
    }

    /// Whether the key pair has expired, judged against the wall clock.
    /// A key pair without an expiry never expires.
    pub fn is_expired(&self) -> (r: bool)
        ensures
            r ==> self.expires_at is Some,
    {
        let now = now_seconds();
        self.is_expired_at(now)
    }

    /// Whether the key pair is active and unexpired at time `now`.
    pub fn is_active_at(&self, now: i64) -> (r: bool)
        ensures
            r == (self.status@ == "active"@ && !(self.expires_at matches Some(e) && now > e)),
    {
        str_eq(self.status.as_str(), "active") && !self.is_expired_at(now)
    }

    /// Whether the key pair is active and unexpired, judged against the
    /// wall clock.
    pub fn is_active(&self) -> (r: bool)
        ensures
            r ==> self.status@ == "active"@,
            self.status@ != "active"@ ==> !r,
            self.status@ == "active"@ && self.expires_at is None ==> r,
    {
        let now = now_seconds();
        self.is_active_at(now)
    }
}

/// A byte sequence free of quote and backslash bytes; the base64
/// alphabet satisfies this.
pub open spec fn quote_free(s: Seq<u8>) -> bool {
    forall|i: int| 0 <= i < s.len() ==> s[i] != 0x22 && s[i] != 0x5c
}

/// A byte of the standard base64 alphabet, or the padding byte.
pub open spec fn is_b64_byte(b: u8) -> bool {
    ||| (0x41 <= b && b <= 0x5a)
    ||| (0x61 <= b && b <= 0x7a)
    ||| (0x30 <= b && b <= 0x39)
    ||| b == 0x2b
    ||| b == 0x2f
    ||| b == 0x3d
}

/// JSON-string escape of one byte: quote and backslash take a leading
/// backslash, every other byte stands as itself.
pub open spec fn esc_byte(b: u8) -> Seq<u8> {
    if b == 0x22 || b == 0x5c {
        seq![0x5cu8, b]
    } else {
        seq![b]
    }
}

/// JSON-string escape of a byte sequence.
pub open spec fn esc(s: Seq<u8>) -> Seq<u8>
    decreases s.len(),
{
    if s.len() == 0 {
        Seq::empty()
    } else {
        esc_byte(s[0]) + esc(s.drop_first())
    }
}

/// Escaping one more byte appends its escape.
proof fn lemma_esc_push(s: Seq<u8>, b: u8)
    ensures
        esc(s.push(b)) == esc(s) + esc_byte(b),
    decreases s.len(),
{
    if s.len() == 0 {
        assert(s.push(b).drop_first() =~= s);
        assert(s.push(b)[0] == b);
        assert(esc(s.push(b)) =~= esc(s) + esc_byte(b));
    } else {
        assert(s.push(b).drop_first() =~= s.drop_first().push(b));
        lemma_esc_push(s.drop_first(), b);
        assert(esc(s.push(b)) =~= esc(s) + esc_byte(b));
    }
}

/// Two escaped regions that end at an unescaped quote coincide: the
/// escape code is unambiguous up to the first unescaped quote. The
/// hypothesis also rules a truncated or invalid escape out: no escaped
/// region can be followed by one.
proof fn lemma_esc_align(x: Seq<u8>, y: Seq<u8>, u: Seq<u8>, w: Seq<u8>)
    requires
        esc(x) + u == esc(y) + w,
        w.len() > 0 && w[0] == 0x22,
        u.len() == 0 || u[0] == 0x22 || (u[0] == 0x5c && (u.len() == 1 || !(u[1] == 0x22 || u[1]
            == 0x5c))),
    ensures
        x == y && u == w,
    decreases x.len() + y.len(),
{
    let lhs = esc(x) + u;
    if x.len() == 0 {
        assert(lhs =~= u);
        if y.len() > 0 {
            // the combined sequence opens with esc(y)'s first byte
            assert(esc(y) == esc_byte(y[0]) + esc(y.drop_first()));
            assert(lhs =~= esc_byte(y[0]) + (esc(y.drop_first()) + w));
            assert(lhs[0] == esc_byte(y[0])[0]);
            if y[0] == 0x22 || y[0] == 0x5c {
                assert(lhs[0] == 0x5c);
                assert(esc_byte(y[0]).len() == 2);
                assert(u.len() >= 2 ==> lhs[1] == u[1]);
                assert(lhs[1] == esc_byte(y[0])[1]);
                assert(lhs[1] == y[0]);
                assert(false);
            } else {
                assert(lhs[0] == y[0]);
                assert(u.len() > 0 && u[0] == y[0]);
                assert(u[0] != 0x22 && u[0] != 0x5c);
                assert(false);
            }
        } else {
            assert(lhs =~= w);
            assert(u =~= w);
        }
    } else if y.len() == 0 {
        assert(lhs =~= w);
        assert(esc(x) == esc_byte(x[0]) + esc(x.drop_first()));
        assert(w[0] == esc_byte(x[0])[0]);
        if x[0] == 0x22 || x[0] == 0x5c {
            assert(w[0] == 0x5c);
        } else {
            assert(w[0] == x[0] && x[0] != 0x22);
        }
        assert(false);
    } else {
        assert(esc(x) == esc_byte(x[0]) + esc(x.drop_first()));
        assert(esc(y) == esc_byte(y[0]) + esc(y.drop_first()));
        assert(lhs =~= esc_byte(x[0]) + (esc(x.drop_first()) + u));
        assert(lhs =~= esc_byte(y[0]) + (esc(y.drop_first()) + w));
        assert(lhs[0] == esc_byte(x[0])[0] && lhs[0] == esc_byte(y[0])[0]);
        if x[0] == 0x22 || x[0] == 0x5c {
            assert(lhs[0] == 0x5c);
            assert(y[0] == 0x22 || y[0] == 0x5c) by {
                if !(y[0] == 0x22 || y[0] == 0x5c) {
                    assert(lhs[0] == y[0]);
                }
            }
            assert(esc_byte(x[0]).len() == 2 && esc_byte(y[0]).len() == 2);
            assert(lhs[1] == esc_byte(x[0])[1] && lhs[1] == esc_byte(y[0])[1]);
            assert(x[0] == y[0]);
            assert((esc(x.drop_first()) + u) =~= (esc(y.drop_first()) + w)) by {
                assert forall|i: int|
                    0 <= i < (esc(x.drop_first()) + u).len() implies (esc(x.drop_first()) + u)[i]
                    == (esc(y.drop_first()) + w)[i] by {
                    assert((esc(x.drop_first()) + u)[i] == lhs[i + 2]);
                    assert((esc(y.drop_first()) + w)[i] == lhs[i + 2]);
                }
            }
            lemma_esc_align(x.drop_first(), y.drop_first(), u, w);
            assert(x.len() == y.len());
            assert forall|i: int| 0 <= i < x.len() implies x[i] == y[i] by {
                if i > 0 {
                    assert(x[i] == x.drop_first()[i - 1]);
                    assert(y[i] == y.drop_first()[i - 1]);
                }
            }
            assert(x =~= y);
        } else {
            assert(lhs[0] == x[0]);
            assert(!(y[0] == 0x22 || y[0] == 0x5c)) by {
                if y[0] == 0x22 || y[0] == 0x5c {
                    assert(lhs[0] == 0x5c);
                }
            }
            assert(lhs[0] == y[0]);
            assert(esc_byte(x[0]).len() == 1 && esc_byte(y[0]).len() == 1);
            assert((esc(x.drop_first()) + u) =~= (esc(y.drop_first()) + w)) by {
                assert forall|i: int|
                    0 <= i < (esc(x.drop_first()) + u).len() implies (esc(x.drop_first()) + u)[i]
                    == (esc(y.drop_first()) + w)[i] by {
                    assert((esc(x.drop_first()) + u)[i] == lhs[i + 1]);
                    assert((esc(y.drop_first()) + w)[i] == lhs[i + 1]);
                }
            }
            lemma_esc_align(x.drop_first(), y.drop_first(), u, w);
            assert(x.len() == y.len());
            assert forall|i: int| 0 <= i < x.len() implies x[i] == y[i] by {
                if i > 0 {
                    assert(x[i] == x.drop_first()[i - 1]);
                    assert(y[i] == y.drop_first()[i - 1]);
                }
            }
            assert(x =~= y);
        }
    }
}

/// The envelope carrying an encrypted value: a JSON object holding the
/// (escaped) key id, the algorithm tag, the base64 ciphertext, and a
/// base64 signature, so that every key id is representable.
pub open spec fn envelope_bytes(id: Seq<u8>, ct_b64: Seq<u8>, sig_b64: Seq<u8>) -> Seq<u8> {
    encode_utf8("{\"payload\":{\"key_id\":\""@) + esc(id) + encode_utf8(
        "\",\"algorithm\":\"AES-256-GCM\",\"ciphertext\":\""@,
    ) + ct_b64 + encode_utf8("\"},\"signature\":\""@) + sig_b64 + encode_utf8("\"}"@)
}

/// Escapes a byte sequence for a JSON string field.
fn escape_bytes(s: &[u8]) -> (r: Vec<u8>)
    ensures
        r@ == esc(s@),
{
    let mut out: Vec<u8> = Vec::new();
    let mut i: usize = 0;
    while i < s.len()
        invariant
            i <= s@.len(),
            out@ == esc(s@.subrange(0, i as int)),
        decreases s@.len() - i,
    {
        let b = s[i];
        if b == 0x22 || b == 0x5c {
            out.push(0x5c);
            out.push(b);
        } else {
            out.push(b);
        }
        proof {
            assert(s@.subrange(0, i + 1 as int) =~= s@.subrange(0, i as int).push(s@[i as int]));
            lemma_esc_push(s@.subrange(0, i as int), s@[i as int]);
            assert(out@ =~= esc(s@.subrange(0, i as int)) + esc_byte(s@[i as int]));
        }
        i = i + 1;
    }
    proof {
        assert(s@.subrange(0, s@.len() as int) =~= s@);
    }
    out
}

/// Builds the envelope bytes from its three variable fields; the key id
/// is escaped on the way in.
fn build_envelope(id: &[u8], ct_b64: &[u8], sig_b64: &[u8]) -> (r: Vec<u8>)
    ensures
        r@ == envelope_bytes(id@, ct_b64@, sig_b64@),
{
    let esc_id = escape_bytes(id);
    let mut out: Vec<u8> = Vec::new();
    push_bytes(&mut out, "{\"payload\":{\"key_id\":\"".as_bytes());
    push_bytes(&mut out, esc_id.as_slice());
    push_bytes(&mut out, "\",\"algorithm\":\"AES-256-GCM\",\"ciphertext\":\"".as_bytes());
    push_bytes(&mut out, ct_b64);
    push_bytes(&mut out, "\"},\"signature\":\"".as_bytes());
    push_bytes(&mut out, sig_b64);
    push_bytes(&mut out, "\"}".as_bytes());
    proof {
        assert(out@ =~= envelope_bytes(id@, ct_b64@, sig_b64@));
    }
    out
}

/// Checks that `lit` stands at `pos` and returns the position after it.
fn expect_lit(bytes: &[u8], pos: usize, lit: &str) -> (r: Option<usize>)
    ensures
        r matches Some(end) ==> pos <= end <= bytes@.len() && bytes@.subrange(
            pos as int,
            end as int,
        ) == encode_utf8(lit@) && end - pos == encode_utf8(lit@).len(),
        r is None ==> !(pos + encode_utf8(lit@).len() <= bytes@.len() && bytes@.subrange(
            pos as int,
            pos + encode_utf8(lit@).len(),
        ) == encode_utf8(lit@)),
{
    let lb = lit.as_bytes();
    if pos > bytes.len() || bytes.len() - pos < lb.len() {
        return None;
    }
    let mut i: usize = 0;
    while i < lb.len()
        invariant
            i <= lb@.len(),
            pos + lb@.len() <= bytes@.len(),
            bytes@.len() <= usize::MAX,
            lb@ == encode_utf8(lit@),
            forall|j: int| 0 <= j < i ==> bytes@[pos + j] == lb@[j],
        decreases lb@.len() - i,
    {
        if bytes[pos + i] != lb[i] {
            proof {
                assert(bytes@.subrange(pos as int, pos + lb@.len())[i as int] == bytes@[pos + i]);
            }
            return None;
        }
        i = i + 1;
    }
    proof {
        assert(bytes@.subrange(pos as int, (pos + lb@.len()) as int) =~= lb@);
    }
    Some(pos + lb.len())
}

/// Position of the first quote byte at or after `pos`.
fn find_quote(bytes: &[u8], pos: usize) -> (r: Option<usize>)
    ensures
        r matches Some(q) ==> pos <= q < bytes@.len() && bytes@[q as int] == 0x22 && (forall|
            j: int,
        | pos <= j < q ==> bytes@[j] != 0x22),
        r is None ==> forall|j: int| pos <= j < bytes@.len() ==> bytes@[j] != 0x22,
{
    let mut i: usize = pos;
    while i < bytes.len()
        invariant
            pos <= i,
            forall|j: int| pos <= j < i ==> bytes@[j] != 0x22,
        decreases bytes@.len() - i,
    {
        if bytes[i] == 0x22 {
            return Some(i);
        }
        i = i + 1;
    }
    None
}

/// Reads an escaped string field up to its closing quote, unescaping it.
fn read_field_escaped(bytes: &[u8], pos: usize) -> (r: Option<(Vec<u8>, usize)>)
    requires
        pos <= bytes@.len(),
    ensures
        r matches Some(t) ==> pos <= t.1 < bytes@.len() && bytes@.subrange(pos as int, t.1 as int)
            == esc(t.0@) && bytes@[t.1 as int] == 0x22,
        r is None ==> (forall|a: Seq<u8>, k: int|
            #![trigger esc(a), bytes@.subrange(pos as int, pos + k)]
            !(0 <= k && pos + k < bytes@.len() && bytes@.subrange(pos as int, pos + k) == esc(a)
                && bytes@[pos + k] == 0x22)),
{
    let mut out: Vec<u8> = Vec::new();
    let mut i: usize = pos;
    proof {
        assert(esc(out@) =~= bytes@.subrange(pos as int, pos as int));
        assert(bytes@.len() == vstd::slice::spec_slice_len(bytes));
    }
    while i < bytes.len()
        invariant
            pos <= i <= bytes@.len(),
            bytes@.len() <= usize::MAX,
            esc(out@) == bytes@.subrange(pos as int, i as int),
        decreases bytes@.len() - i,
    {
        let b = bytes[i];
        if b == 0x22 {
            return Some((out, i));
        }
        let ghost out0 = out@;
        if b == 0x5c {
            if i + 1 >= bytes.len() || !(bytes[i + 1] == 0x22 || bytes[i + 1] == 0x5c) {
                proof {
                    let u = bytes@.subrange(i as int, bytes@.len() as int);
                    assert forall|a: Seq<u8>, k: int|
                        #![trigger esc(a), bytes@.subrange(pos as int, pos + k)]
                        !(0 <= k && pos + k < bytes@.len() && bytes@.subrange(pos as int, pos + k)
                            == esc(a) && bytes@[pos + k] == 0x22) by {
                        if 0 <= k && pos + k < bytes@.len() && bytes@.subrange(
                            pos as int,
                            pos + k,
                        ) == esc(a) && bytes@[pos + k] == 0x22 {
                            let w = bytes@.subrange(pos + k, bytes@.len() as int);
                            assert(esc(out0) + u =~= bytes@.subrange(
                                pos as int,
                                bytes@.len() as int,
                            ));
                            assert(esc(a) + w =~= bytes@.subrange(
                                pos as int,
                                bytes@.len() as int,
                            ));
                            assert(u[0] == 0x5c);
                            assert(u.len() == 1 || !(u[1] == 0x22 || u[1] == 0x5c));
                            lemma_esc_align(out0, a, u, w);
                            assert(u[0] != w[0]);
                        }
                    }
                }
                return None;
            }
            let c = bytes[i + 1];
            out.push(c);
            proof {
                lemma_esc_push(out0, c);
                assert(esc(out@) =~= bytes@.subrange(pos as int, i + 2 as int));
            }
            i = i + 2;
        } else {
            out.push(b);
            proof {
                lemma_esc_push(out0, b);
                assert(esc(out@) =~= bytes@.subrange(pos as int, i + 1 as int));
            }
            i = i + 1;
        }
    }
    proof {
        let ghost outf = out@;
        assert forall|a: Seq<u8>, k: int|
            #![trigger esc(a), bytes@.subrange(pos as int, pos + k)]
            !(0 <= k && pos + k < bytes@.len() && bytes@.subrange(pos as int, pos + k) == esc(a)
                && bytes@[pos + k] == 0x22) by {
            if 0 <= k && pos + k < bytes@.len() && bytes@.subrange(pos as int, pos + k) == esc(a)
                && bytes@[pos + k] == 0x22 {
                let u = Seq::<u8>::empty();
                let w = bytes@.subrange(pos + k, bytes@.len() as int);
                assert(esc(outf) + u =~= bytes@.subrange(pos as int, bytes@.len() as int));
                assert(esc(a) + w =~= bytes@.subrange(pos as int, bytes@.len() as int));
                lemma_esc_align(outf, a, u, w);
            }
        }
    }
    None
}

/// The byte forms of the envelope's fixed parts: the continuation
/// literals open with a quote byte.
proof fn envelope_literal_facts()
    ensures
        encode_utf8("\",\"algorithm\":\"AES-256-GCM\",\"ciphertext\":\""@).len() > 0 && encode_utf8("\",\"algorithm\":\"AES-256-GCM\",\"ciphertext\":\""@)[0] == 0x22,
        encode_utf8("\"},\"signature\":\""@).len() > 0 && encode_utf8("\"},\"signature\":\""@)[0] == 0x22,
        encode_utf8("\"}"@).len() > 0 && encode_utf8("\"}"@)[0] == 0x22,
{
    reveal_strlit("\",\"algorithm\":\"AES-256-GCM\",\"ciphertext\":\"");
    reveal_strlit("\"},\"signature\":\"");
    reveal_strlit("\"}");
    assert(vstd::utf8::is_ascii_chars("\",\"algorithm\":\"AES-256-GCM\",\"ciphertext\":\""@));
    assert(vstd::utf8::is_ascii_chars("\"},\"signature\":\""@));
    assert(vstd::utf8::is_ascii_chars("\"}"@));
    vstd::utf8::is_ascii_chars_encode_utf8("\",\"algorithm\":\"AES-256-GCM\",\"ciphertext\":\""@);
    vstd::utf8::is_ascii_chars_encode_utf8("\"},\"signature\":\""@);
    vstd::utf8::is_ascii_chars_encode_utf8("\"}"@);
    assert("\",\"algorithm\":\"AES-256-GCM\",\"ciphertext\":\""@[0] == '"' && "\"},\"signature\":\""@[0] == '"' && "\"}"@[0] == '"');
}

/// Splits envelope bytes into the key id, ciphertext and signature fields.
/// A successful parse re-assembles to exactly the input, and the parse
/// succeeds, with exactly these fields, on every well-formed envelope
/// whose ciphertext and signature fields are quote- and backslash-free.
#[verifier::rlimit(100)]
fn parse_envelope(bytes: &[u8]) -> (r: Option<(Vec<u8>, Vec<u8>, Vec<u8>)>)
    ensures
        r matches Some(t) ==> bytes@ == envelope_bytes(t.0@, t.1@, t.2@),
        forall|a: Seq<u8>, b: Seq<u8>, c: Seq<u8>|
            bytes@ == envelope_bytes(a, b, c) && quote_free(b) && quote_free(c) ==> (r
                matches Some(t) && t.0@ == a && t.1@ == b && t.2@ == c),
{
    proof {
        envelope_literal_facts();
    }
    let ghost e1 = encode_utf8("{\"payload\":{\"key_id\":\""@);
    let ghost e2 = encode_utf8("\",\"algorithm\":\"AES-256-GCM\",\"ciphertext\":\""@);
    let ghost e3 = encode_utf8("\"},\"signature\":\""@);
    let ghost e4 = encode_utf8("\"}"@);
    let p1 = match expect_lit(bytes, 0, "{\"payload\":{\"key_id\":\"") {
        Some(p) => p,
        None => {
            proof {
                assert forall|a: Seq<u8>, b: Seq<u8>, c: Seq<u8>|
                    bytes@ == envelope_bytes(a, b, c) && quote_free(b) && quote_free(c)
                    implies false by {
                    assert(bytes@.subrange(0, e1.len() as int) =~= e1);
                }
            }
            return None;
        },
    };
    let field = match read_field_escaped(bytes, p1) {
        Some(t) => t,
        None => {
            proof {
                assert forall|a: Seq<u8>, b: Seq<u8>, c: Seq<u8>|
                    bytes@ == envelope_bytes(a, b, c) && quote_free(b) && quote_free(c)
                    implies false by {
                    let ka = esc(a).len() as int;
                    assert(bytes@.subrange(p1 as int, p1 + ka) =~= esc(a));
                    assert(bytes@[p1 + ka] == e2[0]);
                }
            }
            return None;
        },
    };
    let (id, q1) = field;
    let ghost idv = id@;
    proof {
        // under any well-formed decomposition, the field just read is the
        // key id and ends exactly where the second literal opens
        assert forall|a: Seq<u8>, b: Seq<u8>, c: Seq<u8>|
            bytes@ == envelope_bytes(a, b, c) && quote_free(b) && quote_free(c) implies (idv == a
            && q1 == p1 + esc(a).len()) by {
            let ka = esc(a).len() as int;
            let u = bytes@.subrange(q1 as int, bytes@.len() as int);
            let w = bytes@.subrange(p1 + ka, bytes@.len() as int);
            assert(bytes@.subrange(p1 as int, q1 as int) == esc(idv));
            assert(esc(idv) + u =~= bytes@.subrange(p1 as int, bytes@.len() as int));
            assert(bytes@.subrange(p1 as int, p1 + ka) =~= esc(a));
            assert(esc(a) + w =~= bytes@.subrange(p1 as int, bytes@.len() as int));
            assert(u.len() > 0 && u[0] == 0x22);
            assert(w.len() > 0 && w[0] == e2[0]);
            lemma_esc_align(idv, a, u, w);
            assert(u.len() == w.len());
        }
    }
    let p2 = match expect_lit(bytes, q1, "\",\"algorithm\":\"AES-256-GCM\",\"ciphertext\":\"") {
        Some(p) => p,
        None => {
            proof {
                assert forall|a: Seq<u8>, b: Seq<u8>, c: Seq<u8>|
                    bytes@ == envelope_bytes(a, b, c) && quote_free(b) && quote_free(c)
                    implies false by {
                    let ka = esc(a).len() as int;
                    assert(bytes@.subrange(p1 + ka, p1 + ka + e2.len()) =~= e2);
                }
            }
            return None;
        },
    };
    let q2 = match find_quote(bytes, p2) {
        Some(q) => q,
        None => {
            proof {
                assert forall|a: Seq<u8>, b: Seq<u8>, c: Seq<u8>|
                    bytes@ == envelope_bytes(a, b, c) && quote_free(b) && quote_free(c)
                    implies false by {
                    let ka = esc(a).len() as int;
                    assert(bytes@[p1 + ka + e2.len() + b.len()] == e3[0]);
                }
            }
            return None;
        },
    };
    let ct = bytes_range(bytes, p2, q2);
    let ghost ctv = ct@;
    proof {
        assert forall|a: Seq<u8>, b: Seq<u8>, c: Seq<u8>|
            bytes@ == envelope_bytes(a, b, c) && quote_free(b) && quote_free(c) implies (ctv == b
            && q2 == p2 + b.len()) by {
            let ka = esc(a).len() as int;
            assert(p2 == p1 + ka + e2.len());
            assert(bytes@[p2 + b.len()] == e3[0]);
            assert(q2 <= p2 + b.len());
            if q2 < p2 + b.len() {
                assert(bytes@[q2 as int] == b[q2 - p2]);
            }
            assert(q2 == p2 + b.len());
            assert(ctv =~= b);
        }
    }
    let p3 = match expect_lit(bytes, q2, "\"},\"signature\":\"") {
        Some(p) => p,
        None => {
            proof {
                assert forall|a: Seq<u8>, b: Seq<u8>, c: Seq<u8>|
                    bytes@ == envelope_bytes(a, b, c) && quote_free(b) && quote_free(c)
                    implies false by {
                    let ka = esc(a).len() as int;
                    assert(bytes@.subrange(
                        p1 + ka + e2.len() + b.len(),
                        p1 + ka + e2.len() + b.len() + e3.len(),
                    ) =~= e3);
                }
            }
            return None;
        },
    };
    let q3 = match find_quote(bytes, p3) {
        Some(q) => q,
        None => {
            proof {
                assert forall|a: Seq<u8>, b: Seq<u8>, c: Seq<u8>|
                    bytes@ == envelope_bytes(a, b, c) && quote_free(b) && quote_free(c)
                    implies false by {
                    let ka = esc(a).len() as int;
                    assert(bytes@[p1 + ka + e2.len() + b.len() + e3.len() + c.len()] == e4[0]);
                }
            }
            return None;
        },
    };
    let sig = bytes_range(bytes, p3, q3);
    let ghost sgv = sig@;
    proof {
        assert forall|a: Seq<u8>, b: Seq<u8>, c: Seq<u8>|
            bytes@ == envelope_bytes(a, b, c) && quote_free(b) && quote_free(c) implies (sgv == c
            && q3 == p3 + c.len()) by {
            let ka = esc(a).len() as int;
            assert(p3 == p1 + ka + e2.len() + b.len() + e3.len());
            assert(bytes@[p3 + c.len()] == e4[0]);
            assert(q3 <= p3 + c.len());
            if q3 < p3 + c.len() {
                assert(bytes@[q3 as int] == c[q3 - p3]);
            }
            assert(q3 == p3 + c.len());
            assert(sgv =~= c);
        }
    }
    let p4 = match expect_lit(bytes, q3, "\"}") {
        Some(p) => p,
        None => {
            proof {
                assert forall|a: Seq<u8>, b: Seq<u8>, c: Seq<u8>|
                    bytes@ == envelope_bytes(a, b, c) && quote_free(b) && quote_free(c)
                    implies false by {
                    let ka = esc(a).len() as int;
                    assert(bytes@.subrange(q3 as int, q3 + e4.len()) =~= e4);
                }
            }
            return None;
        },
    };
    if p4 != bytes.len() {
        proof {
            assert forall|a: Seq<u8>, b: Seq<u8>, c: Seq<u8>|
                bytes@ == envelope_bytes(a, b, c) && quote_free(b) && quote_free(c)
                implies false by {
                let ka = esc(a).len() as int;
                assert(bytes@.len() == e1.len() + ka + e2.len() + b.len() + e3.len() + c.len()
                    + e4.len());
            }
        }
        return None;
    }
    proof {
        assert(bytes@ =~= envelope_bytes(idv, ctv, sgv));
    }
    Some((id, ct, sig))
}

/// What a successful decryption of `input` under registry `m` implies:
/// the input decodes to a well-formed envelope, the envelope names an
/// active key known to `m`, and the plaintext is what AES-256-GCM opens
/// the carried ciphertext to under that key.
pub open spec fn decrypts_under(m: EncryptionManager, input: Seq<char>, p: Seq<u8>) -> bool {
    exists|idb: Seq<u8>, ctb64: Seq<u8>, sigb64: Seq<u8>, id: Seq<char>, ct: Seq<u8>|
        #![trigger envelope_bytes(idb, ctb64, sigb64), encode_utf8(id), ct.subrange(0, 12)]
        {
            &&& b64_decode_chars_of(input) == Some(envelope_bytes(idb, ctb64, sigb64))
            &&& encode_utf8(id) == idb
            &&& m.resolves(id) matches Some(k) && k.status@ == "active"@ && b64_decode_of(ctb64)
                == Some(ct) && ct.len() >= 12 && gcm_open_of(
                aes_key_of(k.private_key@),
                ct.subrange(0, 12),
                ct.subrange(12, ct.len() as int),
            ) == Some(p)
        }
}

/// What a successful encryption returns: a base64 string whose decoding is
/// an envelope naming `key`, carrying some sealed ciphertext that opens
/// back to the plaintext under `key`'s public key material, and a 64-byte
/// signature token.
pub open spec fn envelope_for(
    env: Seq<char>,
    key: PQCKeyPair,
    id: Seq<char>,
    plaintext: Seq<u8>,
) -> bool {
    exists|ct: Seq<u8>, sig: Seq<u8>|
        #![trigger b64_of(ct), b64_of(sig)]
        {
            &&& ct.len() == plaintext.len() + 28
            &&& sig.len() == 64
            &&& gcm_open_of(
                aes_key_of(key.public_key@),
                ct.subrange(0, 12),
                ct.subrange(12, ct.len() as int),
            ) == Some(plaintext)
            &&& env == b64_chars_of(envelope_bytes(encode_utf8(id), b64_of(ct), b64_of(sig)))
        }
}

/// Classification of a decryption outcome for a well-formed envelope:
/// given the envelope's (unique) decomposition, the error kind or the
/// plaintext is fixed by the registry, the named key's standing, and the
/// carried ciphertext. Only a key that carries an expiry is left to the
/// wall clock.
pub open spec fn decrypt_outcome_ok(
    m: EncryptionManager,
    idb: Seq<u8>,
    ctb: Seq<u8>,
    sgb: Seq<u8>,
    r: Result<Vec<u8>, DbError>,
) -> bool {
    &&& (!(exists|id: Seq<char>| encode_utf8(id) == idb)) ==> (r matches Err(e) && e is Crypto)
    &&& forall|id: Seq<char>|
        #![trigger encode_utf8(id)]
        encode_utf8(id) == idb ==> {
            &&& m.resolves(id) is None ==> (r matches Err(e) && e is NotFound)
            &&& m.resolves(id) matches Some(k) ==> {
                &&& k.status@ != "active"@ ==> (r matches Err(e) && e is Crypto)
                &&& k.status@ == "active"@ && k.expires_at is None ==> {
                    &&& b64_decode_of(sgb) is None ==> (r matches Err(e) && e is Crypto)
                    &&& b64_decode_of(sgb) is Some ==> match b64_decode_of(ctb) {
                        Option::None => r matches Err(e) && e is Crypto,
                        Option::Some(ct) => {
                            &&& ct.len() < 12 ==> (r matches Err(e) && e is Crypto)
                            &&& ct.len() >= 12 ==> match gcm_open_of(
                                aes_key_of(k.private_key@),
                                ct.subrange(0, 12),
                                ct.subrange(12, ct.len() as int),
                            ) {
                                Option::Some(p) => r matches Ok(pv) && pv@ == p,
                                Option::None => r matches Err(e) && e is Crypto,
                            }
                        },
                    }
                }
            }
        }
}

/// Registry of key pairs: an optional master key and a cache of known
/// keys, looked up by key id.
pub struct EncryptionManager {
    master_key: Option<PQCKeyPair>,
    key_cache: Vec<(String, PQCKeyPair)>,
}

impl EncryptionManager {
    #[verifier::type_invariant]
    spec fn wf(self) -> bool {
        akeys_distinct(amodel(self.key_cache@))
    }

    /// The master key pair, if one is installed.
    pub closed spec fn spec_master(self) -> Option<PQCKeyPair> {
        self.master_key
    }

    /// The key pair cached under `id`, if any.
    pub closed spec fn cache_lookup(self, id: Seq<char>) -> Option<PQCKeyPair> {
        aget(amodel(self.key_cache@), id)
    }

    /// The key pair that `id` resolves to: the cache first, then the
    /// master key when its id matches.
    pub open spec fn resolves(self, id: Seq<char>) -> Option<PQCKeyPair> {
        match self.cache_lookup(id) {
            Some(k) => Some(k),
            None => match self.spec_master() {
                Some(m) => if m.id@ == id {
                    Some(m)
                } else {
                    None
                },
                None => None,
            },
        }
    }

    /// Returns an empty registry: no master key and an empty cache.
    pub fn new() -> (r: EncryptionManager)
        ensures
            r.spec_master() is None,
            forall|id: Seq<char>| #[trigger] r.cache_lookup(id) is None,
    {
        let r = EncryptionManager { master_key: None, key_cache: Vec::new() };
        proof {
            assert forall|id: Seq<char>| #[trigger] r.cache_lookup(id) is None by {
                assert(amodel(r.key_cache@).len() == 0);
                assert(!ahas(amodel(r.key_cache@), id));
            }
        }
        r
    }

    /// Installs `key_pair` as the master key.
    pub fn set_master_key(&mut self, key_pair: PQCKeyPair)
        ensures
            final(self).spec_master() == Some(key_pair),
            forall|id: Seq<char>| #[trigger] final(self).cache_lookup(id) == old(
                self,
            ).cache_lookup(id),
    {
        proof {
            use_type_invariant(&*self);
        }
        self.master_key = Some(key_pair);
    }

    /// Returns a copy of the master key pair, if one is installed.
    pub fn get_master_key(&self) -> (r: Option<PQCKeyPair>)
        ensures
            match r {
                Some(k) => self.spec_master() matches Some(m) && kp_equiv(k, m),
                None => self.spec_master() is None,
            },
    {
        match &self.master_key {
            Some(m) => Some(m.clone()),
            None => None,
        }
    }

    /// Caches `key_pair` under `key_id`, replacing any earlier binding.
    pub fn cache_key(&mut self, key_id: String, key_pair: PQCKeyPair)
        ensures
            final(self).cache_lookup(key_id@) == Some(key_pair),
            forall|id: Seq<char>| id != key_id@ ==> #[trigger] final(self).cache_lookup(id) == old(
                self,
            ).cache_lookup(id),
            final(self).spec_master() == old(self).spec_master(),
    {
        proof {
            use_type_invariant(&*self);
        }
        let ghost m0 = amodel(self.key_cache@);
        let ghost kkey = key_pair;
        let mut cache: Vec<(String, PQCKeyPair)> = Vec::new();
        std::mem::swap(&mut cache, &mut self.key_cache);
        match afind(&cache, key_id.as_str()) {
            Some(i) => {
                let ghost key0 = m0[i as int].0;
                cache[i] = (key_id, key_pair);
                proof {
                    assert(amodel(cache@) =~= m0.update(i as int, (key0, kkey)));
                    assert forall|id: Seq<char>| true implies #[trigger] aget(amodel(cache@), id)
                        == if id == key0 {
                        Some(kkey)
                    } else {
                        aget(m0, id)
                    } by {
                        lemma_aget_update(m0, i as int, kkey, id);
                    }
                }
            },
            None => {
                let ghost kk = key_id@;
                cache.push((key_id, key_pair));
                proof {
                    assert(amodel(cache@) =~= m0.push((kk, kkey)));
                    assert(!ahas(m0, kk));
                    assert forall|id: Seq<char>| true implies #[trigger] aget(amodel(cache@), id)
                        == if id == kk {
                        Some(kkey)
                    } else {
                        aget(m0, id)
                    } by {
                        lemma_aget_push(m0, kk, kkey, id);
                    }
                }
            },
        }
        self.key_cache = cache;
    }

    /// Removes the key cached under `key_id`, if any.
    pub fn remove_key(&mut self, key_id: &str)
        ensures
            final(self).cache_lookup(key_id@) is None,
            forall|id: Seq<char>| id != key_id@ ==> #[trigger] final(self).cache_lookup(id) == old(
                self,
            ).cache_lookup(id),
            final(self).spec_master() == old(self).spec_master(),
    {
        proof {
            use_type_invariant(&*self);
        }
        let ghost m0 = amodel(self.key_cache@);
        let mut cache: Vec<(String, PQCKeyPair)> = Vec::new();
        std::mem::swap(&mut cache, &mut self.key_cache);
        match afind(&cache, key_id) {
            Some(i) => {
                let ghost key0 = m0[i as int].0;
                let _ = cache.remove(i);
                proof {
                    assert(amodel(cache@) =~= m0.remove(i as int));
                    assert forall|id: Seq<char>| true implies #[trigger] aget(amodel(cache@), id)
                        == if id == key0 {
                        None::<PQCKeyPair>
                    } else {
                        aget(m0, id)
                    } by {
                        lemma_aget_remove(m0, i as int, id);
                    }
                }
            },
            None => {
                proof {
                    assert(forall|t: int| 0 <= t < m0.len() ==> m0[t].0 != key_id@);
                    assert(!ahas(m0, key_id@));
                }
            },
        }
        self.key_cache = cache;
    }

    /// Generates a fresh key pair for data encryption and caches it under
    /// its own id.
    pub fn generate_data_encryption_key(&mut self, name: String) -> (r: Result<
        PQCKeyPair,
        DbError,
    >)
        ensures
            r matches Ok(kp) ==> (kp.purpose@ == "encryption"@ && kp.status@ == "active"@
                && kp.name@ == name@ && kp.expires_at is None && kp.id@.len() == 36
                && uuid_shaped(kp.id@) && (final(self).cache_lookup(kp.id@) matches Some(c)
                && kp_equiv(c, kp))),
            r matches Ok(kp) ==> forall|id: Seq<char>|
                id != kp.id@ ==> #[trigger] final(self).cache_lookup(id) == old(self).cache_lookup(
                    id,
                ),
            r is Err ==> *final(self) == *old(self),
    {
        let kp = match PQCKeyPair::generate(name, "encryption".to_owned()) {
            Ok(kp) => kp,
            Err(e) => {
                return Err(e);
            },
        };
        let copy = kp.clone();
        self.cache_key(kp.id.clone(), copy);
        Ok(kp)
    }

    /// The key pair that `key_id` resolves to, when one is known.
    fn lookup(&self, key_id: &str) -> (r: Option<&PQCKeyPair>)
        ensures
            match r {
                Some(k) => self.resolves(key_id@) == Some(*k),
                None => self.resolves(key_id@) is None,
            },
    {
        proof {
            use_type_invariant(&*self);
        }
        match afind(&self.key_cache, key_id) {
            Some(i) => {
                proof {
                    lemma_aget_at(amodel(self.key_cache@), i as int);
                }
                Some(&self.key_cache[i].1)
            },
            None => {
                proof {
                    assert(!ahas(amodel(self.key_cache@), key_id@));
                }
                match &self.master_key {
                    Some(m) => {
                        if str_eq(m.id.as_str(), key_id) {
                            Some(m)
                        } else {
                            None
                        }
                    },
                    None => None,
                }
            },
        }
    }

    /// Encrypts `plaintext` under the key that `key_id` resolves to and
    /// renders the result as a base64 envelope string. An unknown key id
    /// is not found; a key whose status is not `active` is unusable. Any
    /// key id is representable: it is escaped inside the envelope.
    pub fn encrypt_data(&self, plaintext: &[u8], key_id: &str) -> (r: Result<String, DbError>)
        ensures
            (r matches Err(e) && e is NotFound) <==> self.resolves(key_id@) is None,
            self.resolves(key_id@) matches Some(k) && k.status@ != "active"@ ==> (r
                matches Err(e) && e is Crypto),
            r matches Ok(env) ==> (self.resolves(key_id@) matches Some(k) && k.status@
                == "active"@ && envelope_for(env@, k, key_id@, plaintext@)),
            r matches Err(e) ==> (e is NotFound || e is Crypto),
    {
        let kp = match self.lookup(key_id) {
            Some(kp) => kp,
            None => {
                return Err(DbError::NotFound("key not found in cache".to_owned()));
            },
        };
        let now = now_seconds();
        if !kp.is_active_at(now) {
            return Err(DbError::Crypto("key is not active".to_owned()));
        }
        let ct = match kp.encrypt(plaintext) {
            Ok(c) => c,
            Err(e) => {
                return Err(e);
            },
        };
        let sig = match kp.sign(ct.as_slice()) {
            Ok(s) => s,
            Err(e) => {
                return Err(e);
            },
        };
        let ct_b64 = b64_encode(ct.as_slice());
        let sig_b64 = b64_encode(sig.as_slice());
        let env = build_envelope(key_id.as_bytes(), ct_b64.as_slice(), sig_b64.as_slice());
        let out = b64_encode_string(env.as_slice());
        proof {
            let k = self.resolves(key_id@)->Some_0;
            assert(b64_of(ct@) == ct_b64@);
            assert(b64_of(sig@) == sig_b64@);
            assert(out@ == b64_chars_of(envelope_bytes(encode_utf8(key_id@), b64_of(ct@), b64_of(
                sig@,
            ))));
            assert(envelope_for(out@, k, key_id@, plaintext@));
        }
        Ok(out)
    }

    /// Decrypts an envelope produced by `encrypt_data`: decodes the base64
    /// string, reads the envelope, resolves the key it names, checks it is
    /// active, and opens the carried ciphertext. On a well-formed envelope
    /// the outcome is classified: unknown key ids are not found, unusable
    /// keys and undecodable fields are cryptographic errors, and the call
    /// succeeds exactly when the ciphertext authenticates under an
    /// unexpiring active key.
    pub fn decrypt_data(&self, encrypted_data: &str) -> (r: Result<Vec<u8>, DbError>)
        ensures
            r matches Ok(p) ==> decrypts_under(*self, encrypted_data@, p@),
            b64_decode_chars_of(encrypted_data@) is None ==> (r matches Err(e) && e is Crypto),
            r matches Err(e) ==> (e is Crypto || e is NotFound),
            forall|env: Seq<u8>, a: Seq<u8>, b: Seq<u8>, c: Seq<u8>|
                #![trigger envelope_bytes(a, b, c), b64_decode_chars_of(encrypted_data@), env.len()]
                b64_decode_chars_of(encrypted_data@) == Some(env) && env == envelope_bytes(a, b, c)
                    && quote_free(b) && quote_free(c) ==> decrypt_outcome_ok(*self, a, b, c, r),
    {
        let env = match b64_decode_str(encrypted_data) {
            Ok(b) => b,
            Err(_) => {
                return Err(DbError::Crypto("invalid envelope encoding".to_owned()));
            },
        };
        let (id_bytes, ct_b64, sig_b64) = match parse_envelope(env.as_slice()) {
            Some(t) => t,
            None => {
                return Err(DbError::Crypto("malformed envelope".to_owned()));
            },
        };
        let ghost idb = id_bytes@;
        let ghost ctbv = ct_b64@;
        let ghost sgbv = sig_b64@;
        proof {
            // the decomposition returned by the parser is the only one
            assert forall|a: Seq<u8>, b: Seq<u8>, c: Seq<u8>|
                env@ == envelope_bytes(a, b, c) && quote_free(b) && quote_free(c) implies (a
                == idb && b == ctbv && c == sgbv) by {}
        }
        let id = match crate::codec::string_from_utf8(id_bytes) {
            Some(s) => s,
            None => {
                return Err(DbError::Crypto("malformed key id".to_owned()));
            },
        };
        proof {
            // the key id names one character sequence
            assert forall|id2: Seq<char>| #[trigger] encode_utf8(id2) == idb implies id2
                == id@ by {
                vstd::utf8::encode_utf8_decode_utf8(id2);
                vstd::utf8::encode_utf8_decode_utf8(id@);
            }
        }
        let kp = match self.lookup(id.as_str()) {
            Some(kp) => kp,
            None => {
                return Err(DbError::NotFound("key not found in cache".to_owned()));
            },
        };
        let now = now_seconds();
        if !kp.is_active_at(now) {
            return Err(DbError::Crypto("key is not active".to_owned()));
        }
        let sig = match b64_decode(sig_b64.as_slice()) {
            Ok(s) => s,
            Err(_) => {
                return Err(DbError::Crypto("malformed signature".to_owned()));
            },
        };
        let ct = match b64_decode(ct_b64.as_slice()) {
            Ok(c) => c,
            Err(_) => {
                return Err(DbError::Crypto("malformed ciphertext".to_owned()));
            },
        };
        if !kp.verify(ct.as_slice(), sig.as_slice()) {
            return Err(DbError::Crypto("signature verification failed".to_owned()));
        }
        if ct.len() < 12 {
            return Err(DbError::Crypto("ciphertext too short".to_owned()));
        }
        let p = match kp.decrypt(ct.as_slice()) {
            Ok(p) => p,
            Err(e) => {
                return Err(e);
            },
        };
        proof {
            let ghost k = self.resolves(id@)->Some_0;
            assert(decrypts_under(*self, encrypted_data@, p@)) by {
                assert(b64_decode_chars_of(encrypted_data@) == Some(
                    envelope_bytes(idb, ct_b64@, sig_b64@),
                ));
                assert(encode_utf8(id@) == idb);
            }
        }
        Ok(p)
    }
}

} // verus!
