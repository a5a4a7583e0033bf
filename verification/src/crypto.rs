//! Key material and parameters of at-rest encryption.

use vstd::prelude::*;

verus! {

/// On-disk size of one encrypted page: ciphertext, tag and nonce.
pub const ENC_PAGE_SIZE: usize = 8232;

/// Nonce length.
pub const NONCE_LEN: usize = 24;

/// Authentication tag length.
pub const TAG_LEN: usize = 16;

/// Data encryption key length.
pub const DEK_LEN: usize = 32;

/// Salt length of a key slot.
pub const SALT_LEN: usize = 16;

/// `getrandom::Error`, carried as an opaque cause.
#[verifier::external_type_specification]
#[verifier::external_body]
pub struct ExGetrandomError(getrandom::Error);

/// `getrandom::getrandom` fills `dest` from the operating system's random
/// source, or fails; with nothing to fill it does not ask, and succeeds. The
/// length stays. The bytes are left to chance, and nothing is stated of them.
pub assume_specification[ getrandom::getrandom ](dest: &mut [u8]) -> (outcome: Result<(), getrandom::Error>)
    ensures
        final(dest)@.len() == old(dest)@.len(),
        old(dest)@.len() == 0 ==> outcome is Ok,
;

/// `Zeroize::zeroize` on a byte array sets every byte to 0.
#[verifier::external_body]
fn zeroize_array(bytes: &mut [u8; DEK_LEN])
    ensures
        final(bytes)@ == Seq::new(DEK_LEN as nat, |i: int| 0u8),
    opens_invariants none
    no_unwind
{
    zeroize::Zeroize::zeroize(bytes)
}

/// `Zeroize::zeroize` on a byte vector wipes its buffer and leaves it empty.
#[verifier::external_body]
fn zeroize_vec(bytes: &mut Vec<u8>)
    ensures
        final(bytes)@.len() == 0,
    opens_invariants none
    no_unwind
{
    zeroize::Zeroize::zeroize(bytes)
}

/// `Zeroize::zeroize` on a string wipes its buffer and leaves it empty.
#[verifier::external_body]
fn zeroize_string(text: &mut String)
    ensures
        final(text)@.len() == 0,
    opens_invariants none
    no_unwind
{
    zeroize::Zeroize::zeroize(text)
}

/// Key bytes that are wiped when they are dropped.
pub struct SecretBytes {
    bytes: Vec<u8>,
}

impl View for SecretBytes {
    type V = Seq<u8>;

    closed spec fn view(&self) -> Seq<u8> {
        self.bytes@
    }
}

impl SecretBytes {
    /// Take over `bytes`.
    pub fn new(bytes: Vec<u8>) -> (secret: Self)
        ensures
            secret@ == bytes@,
    {
        SecretBytes { bytes }
    }

    /// Borrow the bytes.
    pub fn as_slice(&self) -> (bytes: &[u8])
        ensures
            bytes@ == self@,
    {
        self.bytes.as_slice()
    }
}

impl Clone for SecretBytes {
    fn clone(&self) -> (copy: Self)
        ensures
            copy@ == self@,
    {
        SecretBytes { bytes: vstd::slice::slice_to_vec(self.bytes.as_slice()) }
    }
}

impl Drop for SecretBytes {
    fn drop(&mut self)
        opens_invariants none
        no_unwind
    {
        zeroize_vec(&mut self.bytes);
    }
}

/// A passphrase that is wiped when it is dropped.
pub struct SecretString {
    text: String,
}

impl View for SecretString {
    type V = Seq<char>;

    closed spec fn view(&self) -> Seq<char> {
        self.text@
    }
}

impl SecretString {
    /// Take over `text`.
    pub fn new(text: String) -> (secret: Self)
        ensures
            secret@ == text@,
    {
        SecretString { text }
    }

    /// Borrow the text.
    pub fn as_str(&self) -> (text: &str)
        ensures
            text@ == self@,
    {
        self.text.as_str()
    }
}

impl Clone for SecretString {
    fn clone(&self) -> (copy: Self)
        ensures
            copy@ == self@,
    {
        SecretString { text: self.text.clone() }
    }
}

impl Drop for SecretString {
    fn drop(&mut self)
        opens_invariants none
        no_unwind
    {
        zeroize_string(&mut self.text);
    }
}

/// A credential supplied by the client: high-entropy bytes or a passphrase.
pub enum Key {
    Raw(SecretBytes),
    Passphrase(SecretString),
}

impl Clone for Key {
    fn clone(&self) -> (copy: Self)
        ensures
            match (*self, copy) {
                (Key::Raw(a), Key::Raw(b)) => a@ == b@,
                (Key::Passphrase(a), Key::Passphrase(b)) => a@ == b@,
                _ => false,
            },
    {
        match self {
            Key::Raw(bytes) => Key::Raw(bytes.clone()),
            Key::Passphrase(text) => Key::Passphrase(text.clone()),
        }
    }
}

/// The data encryption key; wiped when it is dropped.
pub struct Dek {
    bytes: [u8; DEK_LEN],
}

impl View for Dek {
    type V = Seq<u8>;

    closed spec fn view(&self) -> Seq<u8> {
        self.bytes@
    }
}

impl Dek {
    /// The key with these bytes.
    pub fn from_bytes(bytes: [u8; DEK_LEN]) -> (dek: Self)
        ensures
            dek@ == bytes@,
    {
        Dek { bytes }
    }

    /// Borrow the key bytes.
    pub fn as_bytes(&self) -> (bytes: &[u8; DEK_LEN])
        ensures
            bytes@ == self@,
    {
        &self.bytes
    }
}

impl Clone for Dek {
    fn clone(&self) -> (copy: Self)
        ensures
            copy@ == self@,
    {
        Dek { bytes: self.bytes }
    }
}

impl Drop for Dek {
    fn drop(&mut self)
        opens_invariants none
        no_unwind
    {
        zeroize_array(&mut self.bytes);
    }
}

/// The key encryption key; wiped when it is dropped.
pub struct Kek {
    bytes: [u8; DEK_LEN],
}

impl View for Kek {
    type V = Seq<u8>;

    closed spec fn view(&self) -> Seq<u8> {
        self.bytes@
    }
}

impl Kek {
    /// The key with these bytes.
    pub fn from_bytes(bytes: [u8; DEK_LEN]) -> (kek: Self)
        ensures
            kek@ == bytes@,
    {
        Kek { bytes }
    }

    /// Borrow the key bytes.
    pub fn as_bytes(&self) -> (bytes: &[u8; DEK_LEN])
        ensures
            bytes@ == self@,
    {
        &self.bytes
    }
}

impl Drop for Kek {
    fn drop(&mut self)
        opens_invariants none
        no_unwind
    {
        zeroize_array(&mut self.bytes);
    }
}

/// The bytes of an array, given what the attempt to fill it came to: bytes that
/// were not filled are not handed on.
pub fn if_filled<const N: usize>(bytes: [u8; N], outcome: Result<(), getrandom::Error>) -> (filled: Option<[u8; N]>)
    ensures
        filled == (if outcome is Ok {
            Some(bytes)
        } else {
            None
        }),
{
    match outcome {
        Ok(_) => Some(bytes),
        Err(_) => None,
    }
}

/// An array of random bytes, or `None` if the operating system has no random
/// source to offer; an array of no bytes needs none. The bytes themselves, and
/// whether there is a source, are left to chance and the system.
pub fn random_array<const N: usize>() -> (bytes: Option<[u8; N]>)
    ensures
        N == 0 ==> bytes is Some,
{
    let mut b: [u8; N] = [0u8; N];
    let outcome = getrandom::getrandom(&mut b);
    if_filled(b, outcome)
}

/// The data encryption key of random bytes, if there are any.
pub fn dek_of(bytes: Option<[u8; DEK_LEN]>) -> (dek: Option<Dek>)
    ensures
        match bytes {
            Some(b) => dek matches Some(d) && d@ == b@,
            None => dek is None,
        },
{
    match bytes {
        Some(bytes) => Some(Dek::from_bytes(bytes)),
        None => None,
    }
}

/// A fresh random data encryption key, or `None` as for [`random_array`]. Which key
/// it is, and whether there is one, is left to chance and the system.
pub fn random_dek() -> (dek: Option<Dek>) {
    dek_of(random_array::<DEK_LEN>())
}

/// Which key derivation a key slot uses.
#[derive(Clone, Copy, Debug, PartialEq, Eq, Structural)]
pub enum KdfId {
    Hkdf,
    Argon2id,
}

impl KdfId {
    /// The byte that stands for this choice in a key slot.
    pub fn code(self) -> (id: u8)
        ensures
            id == (match self {
                KdfId::Hkdf => 1u8,
                KdfId::Argon2id => 2u8,
            }),
    {
        match self {
            KdfId::Hkdf => 1,
            KdfId::Argon2id => 2,
        }
    }
}

/// Argon2id cost parameters.
#[derive(Clone, Copy, Debug, PartialEq, Eq, Structural)]
pub struct Argon2Params {
    /// KiB of memory.
    pub m_cost: u32,
    /// Iterations.
    pub t_cost: u32,
    /// Lanes.
    pub p_cost: u32,
}

impl Argon2Params {
    /// There is an iteration and a lane, and every lane has its 8 KiB of memory.
    pub open spec fn usable(self) -> bool {
        self.t_cost > 0 && self.p_cost > 0 && self.m_cost >= self.p_cost * 8
    }

    /// Whether there is an iteration and a lane, and every lane has its 8 KiB of
    /// memory.
    pub fn is_usable(&self) -> (usable: bool)
        ensures
            usable == self.usable(),
    {
        self.t_cost > 0 && self.p_cost > 0 && self.m_cost as u64 >= self.p_cost as u64 * 8
    }
}

impl Default for Argon2Params {
    /// 19 MiB, two iterations, one lane.
    fn default() -> (params: Self)
        ensures
            params == (Argon2Params { m_cost: 19456, t_cost: 2, p_cost: 1 }),
            params.usable(),
    {
        Argon2Params { m_cost: 19456, t_cost: 2, p_cost: 1 }
    }
}

/// Failures of the crypto layer.
#[derive(Debug, PartialEq, Eq, Structural)]
pub enum CryptoError {
    /// Authentication failed.
    Auth,
    /// A key derivation rejected its parameters.
    Kdf,
    /// A raw key had the wrong length.
    BadKeyLength,
}

} // verus!
