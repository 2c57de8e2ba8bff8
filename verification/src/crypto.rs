//! Packet protection: the ciphers, the derivation of their keys from
//! secrets, and the keys of the first packets, which derive from a connection
//! ID.

use vstd::prelude::*;
use crate::Error;
use crate::octets::{u16_bytes, u64_bytes, push_u16, push_u64, append, copy_range};

verus! {

/// The length of the authentication tag that every cipher here appends.
pub const TAG_LEN: usize = 16;

/// The length of a nonce, and so of the secret it derives from.
pub const NONCE_LEN: usize = 12;

/// The length of the ciphertext sample from which a header's mask derives.
pub const SAMPLE_LEN: usize = 16;

/// The ciphers that can protect packets.
#[allow(non_camel_case_types)]
#[derive(Clone, Copy, Debug, PartialEq, Eq, Structural)]
pub enum Algorithm {
    AES128_GCM,
    AES256_GCM,
    ChaCha20_Poly1305,
}

/// The stages of the handshake, each with keys of its own.
#[derive(Clone, Copy, Debug, PartialEq, Eq, Structural)]
pub enum Level {
    Initial,
    Handshake,
    Application,
}

impl Algorithm {
    /// The length of the cipher's key, which is also the length of the key
    /// that masks headers.
    pub open spec fn spec_key_len(self) -> int {
        match self {
            Algorithm::AES128_GCM => 16,
            Algorithm::AES256_GCM => 32,
            Algorithm::ChaCha20_Poly1305 => 32,
        }
    }

    /// The length of the digest that secrets for this cipher are expanded
    /// with: SHA-384 for AES-256, SHA-256 for the others.
    pub open spec fn spec_hash_len(self) -> int {
        match self {
            Algorithm::AES128_GCM => 32,
            Algorithm::AES256_GCM => 48,
            Algorithm::ChaCha20_Poly1305 => 32,
        }
    }

    /// The length of the cipher's key.
    pub fn key_len(self) -> (n: usize)
        ensures
            n == self.spec_key_len(),
    {
        match self {
            Algorithm::AES128_GCM => 16,
            Algorithm::AES256_GCM => 32,
            Algorithm::ChaCha20_Poly1305 => 32,
        }
    }
}

/// What ring's HKDF gives for SHA-256 with the given salt, input keying
/// material and info: 32 bytes of output.
pub uninterp spec fn hkdf_sha256_spec(salt: Seq<u8>, ikm: Seq<u8>, info: Seq<u8>)
    -> Option<Seq<u8>>;

/// What ring's HKDF-Expand gives for the digest of `alg` with the given
/// pseudorandom key and info: one digest's length of output.
pub uninterp spec fn hkdf_expand_spec(alg: Algorithm, prk: Seq<u8>, info: Seq<u8>) -> Option<
    Seq<u8>,
>;

/// What ring's cipher `alg` gives when it seals `plain`: the ciphertext
/// with the tag behind it.
pub uninterp spec fn aead_seal_spec(
    alg: Algorithm,
    key: Seq<u8>,
    nonce: Seq<u8>,
    aad: Seq<u8>,
    plain: Seq<u8>,
) -> Option<Seq<u8>>;

/// What ring's cipher `alg` gives when it opens `sealed`: the plaintext,
/// or nothing where the tag does not match.
pub uninterp spec fn aead_open_spec(
    alg: Algorithm,
    key: Seq<u8>,
    nonce: Seq<u8>,
    aad: Seq<u8>,
    sealed: Seq<u8>,
) -> Option<Seq<u8>>;

/// The five bytes of mask that ring's header protection for `alg` derives
/// from a sample.
pub uninterp spec fn hp_mask_spec(alg: Algorithm, key: Seq<u8>, sample: Seq<u8>) -> Option<Seq<u8>>;

/// HKDF with SHA-256: extract with `salt` from `ikm`, then expand with
/// `info` to 32 bytes.
///
/// This calls ring's `hkdf::Salt::extract`, `Prk::expand` and `Okm::fill`.
/// The contract names the result, a function of the three inputs, and
/// claims its length: `fill` writes exactly the 32 bytes asked for.
#[verifier::external_body]
fn hkdf_sha256(salt: &[u8], ikm: &[u8], info: &[u8]) -> (r: Option<Vec<u8>>)
    ensures
        match r {
            Some(v) => hkdf_sha256_spec(salt@, ikm@, info@) == Some(v@) && v@.len() == 32,
            None => hkdf_sha256_spec(salt@, ikm@, info@).is_none(),
        },
{
    let prk = ring::hkdf::Salt::new(ring::hkdf::HKDF_SHA256, salt).extract(ikm);
    let mut out = vec![0u8; 32];
    prk.expand(&[info], ring::hkdf::HKDF_SHA256).ok()?.fill(&mut out).ok()?;
    Some(out)
}

/// HKDF-Expand with the digest of `alg`: expands the pseudorandom key `prk`
/// with `info` to one digest's length.
///
/// This calls ring's `hkdf::Prk::new_less_safe`, `Prk::expand` and
/// `Okm::fill`. The contract names the result, a function of the three
/// inputs, and claims its length: `fill` writes exactly the digest's length,
/// 48 bytes for SHA-384 and 32 for SHA-256.
#[verifier::external_body]
fn hkdf_expand(alg: Algorithm, prk: &[u8], info: &[u8]) -> (r: Option<Vec<u8>>)
    ensures
        match r {
            Some(v) => hkdf_expand_spec(alg, prk@, info@) == Some(v@) && v@.len()
                == alg.spec_hash_len(),
            None => hkdf_expand_spec(alg, prk@, info@).is_none(),
        },
{
    let hash = match alg {
        Algorithm::AES256_GCM => ring::hkdf::HKDF_SHA384,
        _ => ring::hkdf::HKDF_SHA256,
    };
    let mut out = vec![0u8; ring::hkdf::KeyType::len(&hash)];
    let prk = ring::hkdf::Prk::new_less_safe(hash, prk);
    prk.expand(&[info], hash).ok()?.fill(&mut out).ok()?;
    Some(out)
}

/// Seals `plain` with the cipher `alg`.
///
/// This calls ring's `aead::LessSafeKey::seal_in_place_append_tag`. The
/// contract names the result, a function of the five inputs, and claims of
/// it what the cipher's definition gives: it is 16 bytes longer than the
/// plaintext, and opening it with the same key, nonce and associated data
/// gives the plaintext back.
#[verifier::external_body]
fn aead_seal(alg: Algorithm, key: &[u8], nonce: &[u8], aad: &[u8], plain: &[u8]) -> (r: Option<
    Vec<u8>,
>)
    ensures
        match r {
            Some(c) => aead_seal_spec(alg, key@, nonce@, aad@, plain@) == Some(c@) && c@.len()
                == plain@.len() + 16 && aead_open_spec(alg, key@, nonce@, aad@, c@) == Some(
                plain@,
            ),
            None => aead_seal_spec(alg, key@, nonce@, aad@, plain@).is_none(),
        },
{
    let cipher = match alg {
        Algorithm::AES128_GCM => &ring::aead::AES_128_GCM,
        Algorithm::AES256_GCM => &ring::aead::AES_256_GCM,
        Algorithm::ChaCha20_Poly1305 => &ring::aead::CHACHA20_POLY1305,
    };
    let key = ring::aead::LessSafeKey::new(ring::aead::UnboundKey::new(cipher, key).ok()?);
    let nonce = ring::aead::Nonce::try_assume_unique_for_key(nonce).ok()?;
    let mut out = plain.to_vec();
    key.seal_in_place_append_tag(nonce, ring::aead::Aad::from(aad), &mut out).ok()?;
    Some(out)
}

/// Opens `sealed` with the cipher `alg`.
///
/// This calls ring's `aead::LessSafeKey::open_in_place`. The contract names
/// the result, a function of the five inputs, and claims that a plaintext is
/// 16 bytes shorter than what was opened.
#[verifier::external_body]
fn aead_open(alg: Algorithm, key: &[u8], nonce: &[u8], aad: &[u8], sealed: &[u8]) -> (r: Option<
    Vec<u8>,
>)
    ensures
        match r {
            Some(p) => aead_open_spec(alg, key@, nonce@, aad@, sealed@) == Some(p@) && p@.len()
                + 16 == sealed@.len(),
            None => aead_open_spec(alg, key@, nonce@, aad@, sealed@).is_none(),
        },
{
    let cipher = match alg {
        Algorithm::AES128_GCM => &ring::aead::AES_128_GCM,
        Algorithm::AES256_GCM => &ring::aead::AES_256_GCM,
        Algorithm::ChaCha20_Poly1305 => &ring::aead::CHACHA20_POLY1305,
    };
    let key = ring::aead::LessSafeKey::new(ring::aead::UnboundKey::new(cipher, key).ok()?);
    let nonce = ring::aead::Nonce::try_assume_unique_for_key(nonce).ok()?;
    let mut buf = sealed.to_vec();
    let plain = key.open_in_place(nonce, ring::aead::Aad::from(aad), &mut buf).ok()?;
    Some(plain.to_vec())
}

/// The mask that protects a header, derived from a sample of ciphertext.
///
/// This calls ring's `aead::quic::HeaderProtectionKey::new_mask`. The
/// contract names the result, a function of the three inputs, and claims
/// its length: `new_mask` returns five bytes.
#[verifier::external_body]
fn hp_mask(alg: Algorithm, key: &[u8], sample: &[u8]) -> (r: Option<Vec<u8>>)
    ensures
        match r {
            Some(m) => hp_mask_spec(alg, key@, sample@) == Some(m@) && m@.len() == 5,
            None => hp_mask_spec(alg, key@, sample@).is_none(),
        },
{
    let cipher = match alg {
        Algorithm::AES128_GCM => &ring::aead::quic::AES_128,
        Algorithm::AES256_GCM => &ring::aead::quic::AES_256,
        Algorithm::ChaCha20_Poly1305 => &ring::aead::quic::CHACHA20,
    };
    let key = ring::aead::quic::HeaderProtectionKey::new(cipher, key).ok()?;
    Some(key.new_mask(sample).ok()?.to_vec())
}

/// The salt from which the secrets of the first packets derive.
pub open spec fn initial_salt() -> Seq<u8> {
    seq![
        0x9cu8, 0x10, 0x8f, 0x98, 0x52, 0x0a, 0x5c, 0x5c, 0x32, 0x96, 0x8e, 0x95, 0x0e, 0x8a, 0x2c,
        0x5f, 0xe0, 0x6d, 0x6c, 0x38,
    ]
}

/// The label's prefix: "quic ".
pub open spec fn label_prefix() -> Seq<u8> {
    seq![0x71u8, 0x75, 0x69, 0x63, 0x20]
}

/// "client in".
pub open spec fn label_client_in() -> Seq<u8> {
    seq![0x63u8, 0x6c, 0x69, 0x65, 0x6e, 0x74, 0x20, 0x69, 0x6e]
}

/// "server in".
pub open spec fn label_server_in() -> Seq<u8> {
    seq![0x73u8, 0x65, 0x72, 0x76, 0x65, 0x72, 0x20, 0x69, 0x6e]
}

/// "key".
pub open spec fn label_key() -> Seq<u8> {
    seq![0x6bu8, 0x65, 0x79]
}

/// "iv".
pub open spec fn label_iv() -> Seq<u8> {
    seq![0x69u8, 0x76]
}

/// "pn".
pub open spec fn label_pn() -> Seq<u8> {
    seq![0x70u8, 0x6e]
}

/// The info that expands a secret to `len` bytes under `label`: the
/// length, the prefixed label with its length before it, and an empty
/// context.
pub open spec fn label_info(label: Seq<u8>, len: int) -> Seq<u8> {
    u16_bytes(len as u16) + seq![(label_prefix().len() + label.len()) as u8] + label_prefix()
        + label + seq![0u8]
}

/// The keys of one direction as mathematical values.
pub struct KeysView {
    pub alg: Algorithm,
    pub key: Seq<u8>,
    pub iv: Seq<u8>,
    pub hp_key: Seq<u8>,
}

/// The nonce for the packet number `pn`: the IV with the number, as eight
/// bytes in network order, XORed into its end.
pub open spec fn nonce_for(iv: Seq<u8>, pn: u64) -> Seq<u8> {
    Seq::new(
        12,
        |i: int|
            if i < 4 {
                iv[i]
            } else {
                iv[i] ^ u64_bytes(pn)[i - 4]
            },
    )
}

impl KeysView {
    /// The key and the header key have the cipher's key length, the IV the
    /// length of a nonce.
    pub open spec fn wf(self) -> bool {
        &&& self.key.len() == self.alg.spec_key_len()
        &&& self.hp_key.len() == self.alg.spec_key_len()
        &&& self.iv.len() == 12
    }

    /// The protected payload of the packet with number `pn`, header `aad`
    /// and frames `plain`.
    pub open spec fn sealed(self, pn: u64, aad: Seq<u8>, plain: Seq<u8>) -> Option<Seq<u8>> {
        aead_seal_spec(self.alg, self.key, nonce_for(self.iv, pn), aad, plain)
    }

    /// The frames of the packet with number `pn`, header `aad` and
    /// protected payload `sealed`.
    pub open spec fn opened(self, pn: u64, aad: Seq<u8>, sealed: Seq<u8>) -> Option<Seq<u8>> {
        aead_open_spec(self.alg, self.key, nonce_for(self.iv, pn), aad, sealed)
    }

    /// The mask for a header, derived from a sample of the protected
    /// payload.
    pub open spec fn mask(self, sample: Seq<u8>) -> Option<Seq<u8>> {
        hp_mask_spec(self.alg, self.hp_key, sample)
    }
}

/// The keys that derive from `secret` for the cipher `alg`: each the start
/// of the secret's expansion under its label.
#[verifier::opaque]
pub open spec fn keys_from_secret(alg: Algorithm, secret: Seq<u8>) -> Option<KeysView> {
    let n = alg.spec_key_len();
    match hkdf_expand_spec(alg, secret, label_info(label_key(), n)) {
        None => None,
        Some(key) => match hkdf_expand_spec(alg, secret, label_info(label_iv(), 12)) {
            None => None,
            Some(iv) => match hkdf_expand_spec(alg, secret, label_info(label_pn(), n)) {
                None => None,
                Some(hp) => Some(
                    KeysView { alg, key: key.take(n), iv: iv.take(12), hp_key: hp.take(n) },
                ),
            },
        },
    }
}

/// The secret of the first packets that the given side sends, derived from
/// the connection ID that the client chose for the server.
pub open spec fn initial_secret(cid: Seq<u8>, of_server: bool) -> Option<Seq<u8>> {
    hkdf_sha256_spec(
        initial_salt(),
        cid,
        label_info(
            if of_server {
                label_server_in()
            } else {
                label_client_in()
            },
            32,
        ),
    )
}

/// The keys of the first packets for the given side, those to open with
/// first: each side opens with the other side's secret and seals with its
/// own.
#[verifier::opaque]
pub open spec fn initial_keys(cid: Seq<u8>, is_server: bool) -> Option<(KeysView, KeysView)> {
    match initial_secret(cid, !is_server) {
        None => None,
        Some(theirs) => match keys_from_secret(Algorithm::AES128_GCM, theirs) {
            None => None,
            Some(open) => match initial_secret(cid, is_server) {
                None => None,
                Some(ours) => match keys_from_secret(Algorithm::AES128_GCM, ours) {
                    None => None,
                    Some(seal) => Some((open, seal)),
                },
            },
        },
    }
}

/// The keys of one direction at one stage of the handshake.
#[derive(Debug)]
pub struct Keys {
    alg: Algorithm,
    key: Vec<u8>,
    iv: Vec<u8>,
    hp_key: Vec<u8>,
}

impl View for Keys {
    type V = KeysView;

    closed spec fn view(&self) -> KeysView {
        KeysView { alg: self.alg, key: self.key@, iv: self.iv@, hp_key: self.hp_key@ }
    }
}

/// The info that expands a secret to `len` bytes under `label`.
fn make_label(label: &[u8], len: u16) -> (r: Vec<u8>)
    requires
        label@.len() <= 200,
    ensures
        r@ == label_info(label@, len as int),
{
    let mut r: Vec<u8> = Vec::new();
    push_u16(&mut r, len);
    r.push((5 + label.len()) as u8);
    let prefix: [u8; 5] = [0x71, 0x75, 0x69, 0x63, 0x20];
    assert(prefix@ =~= label_prefix());
    append(&mut r, prefix.as_slice());
    append(&mut r, label);
    r.push(0);
    assert(r@ =~= label_info(label@, len as int));
    r
}

/// The first `n` bytes of the expansion of `secret` under `label`.
fn expand_label(alg: Algorithm, secret: &[u8], label: &[u8], n: usize) -> (r: Option<Vec<u8>>)
    requires
        label@.len() <= 200,
        n <= 32,
    ensures
        match r {
            Some(v) => hkdf_expand_spec(alg, secret@, label_info(label@, n as int)) matches Some(e)
                && v@ == e.take(n as int) && v@.len() == n,
            None => hkdf_expand_spec(alg, secret@, label_info(label@, n as int)).is_none(),
        },
{
    let info = make_label(label, n as u16);
    match hkdf_expand(alg, secret, info.as_slice()) {
        Some(e) => {
            let v = copy_range(e.as_slice(), 0, n);
            assert(v@ =~= e@.take(n as int));
            Some(v)
        },
        None => None,
    }
}

impl Keys {
    /// See `KeysView::wf`.
    pub open spec fn wf(&self) -> bool {
        self@.wf()
    }

    /// Keys made of the given parts, where their lengths fit the cipher.
    pub fn new(alg: Algorithm, key: Vec<u8>, iv: Vec<u8>, hp_key: Vec<u8>) -> (r: Result<
        Keys,
        Error,
    >)
        ensures
            match r {
                Ok(k) => k.wf() && k@ == (KeysView { alg, key: key@, iv: iv@, hp_key: hp_key@ }),
                Err(e) => e == Error::CryptoFail && !(KeysView {
                    alg,
                    key: key@,
                    iv: iv@,
                    hp_key: hp_key@,
                }).wf(),
            },
    {
        if key.len() != alg.key_len() || hp_key.len() != alg.key_len() || iv.len() != NONCE_LEN {
            return Err(Error::CryptoFail);
        }
        Ok(Keys { alg, key, iv, hp_key })
    }

    /// The keys that derive from `secret` for the cipher `alg`.
    pub fn from_secret(alg: Algorithm, secret: &[u8]) -> (r: Result<Keys, Error>)
        ensures
            match r {
                Ok(k) => k.wf() && keys_from_secret(alg, secret@) == Some(k@),
                Err(e) => e == Error::CryptoFail && keys_from_secret(alg, secret@).is_none(),
            },
    {
        proof {
            reveal(keys_from_secret);
        }
        let n: usize = alg.key_len();
        let l_key: [u8; 3] = [0x6b, 0x65, 0x79];
        let l_iv: [u8; 2] = [0x69, 0x76];
        let l_pn: [u8; 2] = [0x70, 0x6e];
        assert(l_key@ =~= label_key());
        assert(l_iv@ =~= label_iv());
        assert(l_pn@ =~= label_pn());
        let key = match expand_label(alg, secret, l_key.as_slice(), n) {
            Some(v) => v,
            None => return Err(Error::CryptoFail),
        };
        let iv = match expand_label(alg, secret, l_iv.as_slice(), NONCE_LEN) {
            Some(v) => v,
            None => return Err(Error::CryptoFail),
        };
        let hp_key = match expand_label(alg, secret, l_pn.as_slice(), n) {
            Some(v) => v,
            None => return Err(Error::CryptoFail),
        };
        Ok(Keys { alg, key, iv, hp_key })
    }

    /// A copy of the keys.
    pub fn duplicate(&self) -> (r: Keys)
        ensures
            r@ == self@,
    {
        let key = copy_range(self.key.as_slice(), 0, self.key.len());
        let iv = copy_range(self.iv.as_slice(), 0, self.iv.len());
        let hp_key = copy_range(self.hp_key.as_slice(), 0, self.hp_key.len());
        assert(key@ =~= self.key@);
        assert(iv@ =~= self.iv@);
        assert(hp_key@ =~= self.hp_key@);
        Keys { alg: self.alg, key, iv, hp_key }
    }

    /// The cipher's key.
    pub fn key(&self) -> (r: &[u8])
        ensures
            r@ == self@.key,
    {
        self.key.as_slice()
    }

    /// The secret from which nonces derive.
    pub fn iv(&self) -> (r: &[u8])
        ensures
            r@ == self@.iv,
    {
        self.iv.as_slice()
    }

    /// The key that masks headers.
    pub fn hp_key(&self) -> (r: &[u8])
        ensures
            r@ == self@.hp_key,
    {
        self.hp_key.as_slice()
    }

    /// The cipher.
    pub fn alg(&self) -> (a: Algorithm)
        ensures
            a == self@.alg,
    {
        self.alg
    }

    /// The number of bytes that sealing adds to a payload.
    pub fn overhead(&self) -> (n: usize)
        ensures
            n == TAG_LEN,
    {
        TAG_LEN
    }

    /// The nonce for the packet number `pn`.
    fn nonce(&self, pn: u64) -> (r: Vec<u8>)
        requires
            self.wf(),
        ensures
            r@ == nonce_for(self@.iv, pn),
    {
        let mut num: Vec<u8> = Vec::new();
        push_u64(&mut num, pn);
        assert(num@ =~= u64_bytes(pn));
        let mut r: Vec<u8> = Vec::new();
        let mut i: usize = 0;
        while i < 12
            invariant
                0 <= i <= 12,
                self.iv@.len() == 12,
                num@ == u64_bytes(pn),
                r@.len() == i,
                forall|j: int| 0 <= j < i ==> r@[j] == nonce_for(self.iv@, pn)[j],
            decreases 12 - i,
        {
            if i < 4 {
                r.push(self.iv[i]);
            } else {
                r.push(self.iv[i] ^ num[i - 4]);
            }
            i += 1;
        }
        assert(r@ =~= nonce_for(self.iv@, pn));
        r
    }

    /// Seals the frames `plain` of the packet with number `pn` and header
    /// `aad`.
    pub fn seal(&self, pn: u64, aad: &[u8], plain: &[u8]) -> (r: Result<Vec<u8>, Error>)
        requires
            self.wf(),
        ensures
            match r {
                Ok(c) => self@.sealed(pn, aad@, plain@) == Some(c@) && c@.len() == plain@.len()
                    + TAG_LEN && self@.opened(pn, aad@, c@) == Some(plain@),
                Err(e) => e == Error::CryptoFail && self@.sealed(pn, aad@, plain@).is_none(),
            },
    {
        let nonce = self.nonce(pn);
        match aead_seal(self.alg, self.key.as_slice(), nonce.as_slice(), aad, plain) {
            Some(c) => Ok(c),
            None => Err(Error::CryptoFail),
        }
    }

    /// Opens the protected payload `sealed` of the packet with number `pn`
    /// and header `aad`.
    pub fn open(&self, pn: u64, aad: &[u8], sealed: &[u8]) -> (r: Result<Vec<u8>, Error>)
        requires
            self.wf(),
        ensures
            match r {
                Ok(p) => self@.opened(pn, aad@, sealed@) == Some(p@) && p@.len() + TAG_LEN
                    == sealed@.len(),
                Err(e) => e == Error::CryptoFail && self@.opened(pn, aad@, sealed@).is_none(),
            },
    {
        let nonce = self.nonce(pn);
        match aead_open(self.alg, self.key.as_slice(), nonce.as_slice(), aad, sealed) {
            Some(p) => Ok(p),
            None => Err(Error::CryptoFail),
        }
    }

    /// The mask for a header, derived from a sample of the protected
    /// payload.
    pub fn new_mask(&self, sample: &[u8]) -> (r: Result<Vec<u8>, Error>)
        ensures
            match r {
                Ok(m) => self@.mask(sample@) == Some(m@) && m@.len() == 5,
                Err(e) => e == Error::CryptoFail && self@.mask(sample@).is_none(),
            },
    {
        match hp_mask(self.alg, self.hp_key.as_slice(), sample) {
            Some(m) => Ok(m),
            None => Err(Error::CryptoFail),
        }
    }
}

/// The secret of the first packets that the given side sends.
fn derive_initial_secret(cid: &[u8], of_server: bool) -> (r: Option<Vec<u8>>)
    ensures
        match r {
            Some(v) => initial_secret(cid@, of_server) == Some(v@),
            None => initial_secret(cid@, of_server).is_none(),
        },
{
    let salt: [u8; 20] = [
        0x9c, 0x10, 0x8f, 0x98, 0x52, 0x0a, 0x5c, 0x5c, 0x32, 0x96, 0x8e, 0x95, 0x0e, 0x8a, 0x2c,
        0x5f, 0xe0, 0x6d, 0x6c, 0x38,
    ];
    assert(salt@ =~= initial_salt());
    let client: [u8; 9] = [0x63, 0x6c, 0x69, 0x65, 0x6e, 0x74, 0x20, 0x69, 0x6e];
    let server: [u8; 9] = [0x73, 0x65, 0x72, 0x76, 0x65, 0x72, 0x20, 0x69, 0x6e];
    assert(client@ =~= label_client_in());
    assert(server@ =~= label_server_in());
    let info = if of_server {
        make_label(server.as_slice(), 32)
    } else {
        make_label(client.as_slice(), 32)
    };
    hkdf_sha256(salt.as_slice(), cid, info.as_slice())
}

/// The keys of the first packets for the given side, derived from the
/// connection ID that the client chose for the server: those to open with,
/// then those to seal with.
pub fn derive_initial_key_material(cid: &[u8], is_server: bool) -> (r: Result<(Keys, Keys), Error>)
    ensures
        match r {
            Ok((open, seal)) => open.wf() && seal.wf() && initial_keys(cid@, is_server) == Some(
                (open@, seal@),
            ),
            Err(e) => e == Error::CryptoFail && initial_keys(cid@, is_server).is_none(),
        },
{
    proof {
        reveal(initial_keys);
    }
    let theirs = match derive_initial_secret(cid, !is_server) {
        Some(v) => v,
        None => return Err(Error::CryptoFail),
    };
    let open = match Keys::from_secret(Algorithm::AES128_GCM, theirs.as_slice()) {
        Ok(k) => k,
        Err(e) => return Err(e),
    };
    let ours = match derive_initial_secret(cid, is_server) {
        Some(v) => v,
        None => return Err(Error::CryptoFail),
    };
    let seal = match Keys::from_secret(Algorithm::AES128_GCM, ours.as_slice()) {
        Ok(k) => k,
        Err(e) => return Err(e),
    };
    Ok((open, seal))
}

} // verus!
