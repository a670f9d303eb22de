use vstd::prelude::*;

use zeroize::Zeroize;

verus! {

/// Overwrites `buf` with zeros through `<[u8] as zeroize::Zeroize>::zeroize`,
/// whose volatile writes the compiler does not remove. Claims: the buffer
/// keeps its length and every byte is zero.
#[verifier::external_body]
pub(crate) fn wipe(buf: &mut [u8])
    ensures
        final(buf)@ == Seq::new(old(buf)@.len(), |i: int| 0u8),
{
    buf.zeroize();
}

/// A 32-byte key held in a `zeroize::Zeroizing<[u8; 32]>`, whose `Drop`
/// overwrites it with zeros. Verus refuses a declaration of
/// `zeroize::Zeroizing` (it cannot resolve the `Zeroize` bound), so the
/// holder is this opaque struct, read through `guarded_key`.
#[verifier::external_body]
#[derive(Debug, PartialEq, Eq)]
pub struct GuardedKey {
    inner: zeroize::Zeroizing<[u8; 32]>,
}

/// The bytes that a guarded key holds.
pub uninterp spec fn guarded_key(k: GuardedKey) -> Seq<u8>;

/// Bytes held in a `zeroize::Zeroizing<Vec<u8>>`, whose `Drop` overwrites
/// them (and the spare capacity) with zeros; read through `guarded_bytes`.
#[verifier::external_body]
#[derive(Debug, PartialEq, Eq)]
pub struct GuardedBytes {
    inner: zeroize::Zeroizing<Vec<u8>>,
}

/// The bytes that a guarded buffer holds.
pub uninterp spec fn guarded_bytes(b: GuardedBytes) -> Seq<u8>;

/// A text held in a `zeroize::Zeroizing<String>`, whose `Drop` overwrites
/// it with zeros; read through `guarded_text`.
#[verifier::external_body]
#[derive(Debug, PartialEq, Eq)]
pub struct GuardedText {
    inner: zeroize::Zeroizing<String>,
}

/// The text that a guarded text holds.
pub uninterp spec fn guarded_text(t: GuardedText) -> Seq<char>;

impl GuardedKey {
    /// Calls `zeroize::Zeroizing::new`. Claims: the key holds `k`.
    #[verifier::external_body]
    pub(crate) fn new(k: [u8; 32]) -> (r: GuardedKey)
        ensures
            guarded_key(r) == k@,
    {
        GuardedKey { inner: zeroize::Zeroizing::new(k) }
    }

    /// Calls `<zeroize::Zeroizing<[u8; 32]> as Deref>::deref`. Claims: the
    /// bytes are those held.
    #[verifier::external_body]
    pub(crate) fn bytes(&self) -> (r: &[u8; 32])
        ensures
            r@ == guarded_key(*self),
    {
        &self.inner
    }

    /// A guarded key holding `k`.
    pub fn from_array(k: [u8; 32]) -> (r: GuardedKey)
        ensures
            guarded_key(r) == k@,
    {
        GuardedKey::new(k)
    }

    /// The bytes of the key.
    pub fn expose(&self) -> (r: &[u8; 32])
        ensures
            r@ == guarded_key(*self),
    {
        self.bytes()
    }
}

impl GuardedBytes {
    /// Calls `zeroize::Zeroizing::new`. Claims: the buffer holds `v`.
    #[verifier::external_body]
    pub(crate) fn new(v: Vec<u8>) -> (r: GuardedBytes)
        ensures
            guarded_bytes(r) == v@,
    {
        GuardedBytes { inner: zeroize::Zeroizing::new(v) }
    }

    /// Calls `<zeroize::Zeroizing<Vec<u8>> as Deref>::deref`. Claims: the
    /// bytes are those held.
    #[verifier::external_body]
    pub(crate) fn bytes(&self) -> (r: &[u8])
        ensures
            r@ == guarded_bytes(*self),
    {
        self.inner.as_slice()
    }

    /// The bytes held.
    pub fn expose(&self) -> (r: &[u8])
        ensures
            r@ == guarded_bytes(*self),
    {
        self.bytes()
    }
}

impl GuardedText {
    /// Calls `zeroize::Zeroizing::new`. Claims: the text holds `s`.
    #[verifier::external_body]
    pub(crate) fn new(s: String) -> (r: GuardedText)
        ensures
            guarded_text(r) == s@,
    {
        GuardedText { inner: zeroize::Zeroizing::new(s) }
    }

    /// Calls `<zeroize::Zeroizing<String> as Deref>::deref`. Claims: the
    /// text is the one held.
    #[verifier::external_body]
    pub(crate) fn text(&self) -> (r: &str)
        ensures
            r@ == guarded_text(*self),
    {
        self.inner.as_str()
    }

    /// The text held.
    pub fn as_str(&self) -> (r: &str)
        ensures
            r@ == guarded_text(*self),
    {
        self.text()
    }
}

} // verus!
