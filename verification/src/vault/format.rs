use vstd::prelude::*;

use crate::crypto::kdf::KdfParams;
use crate::crypto::random::{KEY_LEN, NONCE_LEN, SALT_LEN, TAG_LEN};
use crate::errors::{Error, Result};

verus! {

pub const MAGIC: [u8; 8] = [0x50, 0x41, 0x4D, 0x56, 0x4C, 0x54, 0x30, 0x31];
pub const FORMAT_VERSION_MAJOR: u8 = 1;
pub const FORMAT_VERSION_MINOR: u8 = 0;

pub const KDF_ID_ARGON2ID: u8 = 1;
pub const AEAD_ID_XCHACHA20_POLY1305: u8 = 1;

pub const VAULT_ID_LEN: usize = 16;

pub const VAULT_ID_OFFSET: usize = 10;
pub const KDF_ID_OFFSET: usize = 26;
pub const AEAD_ID_OFFSET: usize = 27;
pub const M_COST_OFFSET: usize = 28;
pub const T_COST_OFFSET: usize = 32;
pub const P_COST_OFFSET: usize = 36;
pub const SLOT_COUNT_OFFSET: usize = 40;

pub const SLOT_TYPE_PASSPHRASE: u8 = 0x01;
pub const SLOT_TYPE_RECOVERY: u8 = 0x02;
pub const SLOT_TYPE_HARDWARE: u8 = 0x03;

pub const SLOT_HEADER_LEN: usize = 1 + 1 + SALT_LEN + NONCE_LEN;
pub const WRAPPED_DEK_LEN: usize = KEY_LEN + TAG_LEN;
pub const SLOT_LEN: usize = SLOT_HEADER_LEN + WRAPPED_DEK_LEN;

pub const FIXED_HEADER_LEN: usize = 8 + 2 + VAULT_ID_LEN + 1 + 1 + 4 + 4 + 4 + 2;

pub const MAX_SLOT_COUNT: usize = 8;
pub const MAX_PAYLOAD_LEN: u64 = 256 * 1024 * 1024;

/// The eight magic bytes `PAMVLT01` that open every vault file.
pub open spec fn magic_seq() -> Seq<u8> {
    seq![0x50u8, 0x41u8, 0x4Du8, 0x56u8, 0x4Cu8, 0x54u8, 0x30u8, 0x31u8]
}

/// What a key slot protects the data key with.
#[derive(Clone, Copy, PartialEq, Eq, Debug, Structural)]
pub enum SlotType {
    Passphrase,
    Recovery,
    Hardware,
}

impl SlotType {
    /// The byte that stands for the slot type in the file.
    pub open spec fn code(self) -> u8 {
        match self {
            SlotType::Passphrase => SLOT_TYPE_PASSPHRASE,
            SlotType::Recovery => SLOT_TYPE_RECOVERY,
            SlotType::Hardware => SLOT_TYPE_HARDWARE,
        }
    }

    /// The slot type that a byte stands for, if any.
    pub open spec fn of_code(v: u8) -> Option<SlotType> {
        if v == SLOT_TYPE_PASSPHRASE {
            Some(SlotType::Passphrase)
        } else if v == SLOT_TYPE_RECOVERY {
            Some(SlotType::Recovery)
        } else if v == SLOT_TYPE_HARDWARE {
            Some(SlotType::Hardware)
        } else {
            None
        }
    }

    pub fn from_u8(v: u8) -> (r: Result<Self>)
        ensures
            match SlotType::of_code(v) {
                Some(t) => r == Ok::<SlotType, Error>(t),
                None => r == Err::<SlotType, Error>(Error::InvalidFormat("unknown key slot type")),
            },
    {
        match v {
            SLOT_TYPE_PASSPHRASE => Ok(SlotType::Passphrase),
            SLOT_TYPE_RECOVERY => Ok(SlotType::Recovery),
            SLOT_TYPE_HARDWARE => Ok(SlotType::Hardware),
            _ => Err(Error::InvalidFormat("unknown key slot type")),
        }
    }

    pub fn to_u8(self) -> (r: u8)
        ensures
            r == self.code(),
    {
        match self {
            SlotType::Passphrase => SLOT_TYPE_PASSPHRASE,
            SlotType::Recovery => SLOT_TYPE_RECOVERY,
            SlotType::Hardware => SLOT_TYPE_HARDWARE,
        }
    }
}

/// One key slot: the salt and nonce with which the data key was wrapped,
/// and the wrapped data key with its tag.
#[derive(Clone, Copy, Debug)]
pub struct Slot {
    pub slot_type: SlotType,
    pub salt: [u8; SALT_LEN],
    pub nonce: [u8; NONCE_LEN],
    pub wrapped_dek: [u8; WRAPPED_DEK_LEN],
}

/// A key slot as values.
#[verifier::ext_equal]
pub struct SlotModel {
    pub slot_type: SlotType,
    pub salt: Seq<u8>,
    pub nonce: Seq<u8>,
    pub wrapped_dek: Seq<u8>,
}

impl SlotModel {
    pub open spec fn well_formed(self) -> bool {
        &&& self.salt.len() == SALT_LEN
        &&& self.nonce.len() == NONCE_LEN
        &&& self.wrapped_dek.len() == WRAPPED_DEK_LEN
    }
}

impl View for Slot {
    type V = SlotModel;

    open spec fn view(&self) -> SlotModel {
        SlotModel {
            slot_type: self.slot_type,
            salt: self.salt@,
            nonce: self.nonce@,
            wrapped_dek: self.wrapped_dek@,
        }
    }
}

/// The cleartext header of a vault file.
#[derive(Clone, Debug)]
pub struct VaultHeader {
    pub vault_id: [u8; VAULT_ID_LEN],
    pub kdf_params: KdfParams,
    pub slots: Vec<Slot>,
}

/// A vault header as values.
#[verifier::ext_equal]
pub struct HeaderModel {
    pub vault_id: Seq<u8>,
    pub kdf_params: KdfParams,
    pub slots: Seq<SlotModel>,
}

impl HeaderModel {
    /// The header can be written and read back: its fields have their
    /// lengths, its costs are accepted and it has one to eight slots.
    pub open spec fn well_formed(self) -> bool {
        &&& self.vault_id.len() == VAULT_ID_LEN
        &&& self.kdf_params.valid()
        &&& 1 <= self.slots.len() <= MAX_SLOT_COUNT
        &&& forall|i: int| 0 <= i < self.slots.len() ==> (#[trigger] self.slots[i]).well_formed()
    }

    /// Length of the encoded header.
    pub open spec fn len(self) -> int {
        FIXED_HEADER_LEN + self.slots.len() * SLOT_LEN
    }
}

impl View for VaultHeader {
    type V = HeaderModel;

    open spec fn view(&self) -> HeaderModel {
        HeaderModel {
            vault_id: self.vault_id@,
            kdf_params: self.kdf_params,
            slots: self.slots@.map_values(|s: Slot| s@),
        }
    }
}

/// Encoded header lengths up to this many slots fit in `usize`.
pub open spec fn slot_count_fits(n: int) -> bool {
    FIXED_HEADER_LEN + n * SLOT_LEN <= usize::MAX
}

impl VaultHeader {
    /// A copy of the header.
    pub fn duplicate(&self) -> (r: VaultHeader)
        ensures
            r@ == self@,
    {
        let mut slots: Vec<Slot> = Vec::new();
        let mut i: usize = 0;
        while i < self.slots.len()
            invariant
                i <= self.slots@.len(),
                slots@.len() == i,
                forall|j: int| 0 <= j < i ==> slots@[j] == self.slots@[j],
            decreases self.slots@.len() - i,
        {
            slots.push(self.slots[i]);
            i += 1;
        }
        let r = VaultHeader { vault_id: self.vault_id, kdf_params: self.kdf_params, slots };
        assert(r@.slots =~= self@.slots);
        r
    }

    pub fn header_len(&self) -> (r: usize)
        requires
            slot_count_fits(self.slots@.len() as int),
        ensures
            r == self@.len(),
    {
        FIXED_HEADER_LEN + self.slots.len() * SLOT_LEN
    }

    pub fn slot_wrapped_dek_offset(&self, index: usize) -> (r: usize)
        requires
            wrapped_offset_fits(index as int),
        ensures
            r == spec_wrapped_dek_offset(index as int),
    {
        slot_wrapped_dek_offset(index)
    }
}

/// Offset in the file of slot `index`.
pub open spec fn slot_offset(index: int) -> int {
    FIXED_HEADER_LEN + index * SLOT_LEN
}

/// Offset in the file of the wrapped data key of slot `index`.
pub open spec fn spec_wrapped_dek_offset(index: int) -> int {
    slot_offset(index) + SLOT_HEADER_LEN
}

pub open spec fn wrapped_offset_fits(index: int) -> bool {
    spec_wrapped_dek_offset(index) <= usize::MAX
}

pub fn slot_wrapped_dek_offset(index: usize) -> (r: usize)
    requires
        wrapped_offset_fits(index as int),
    ensures
        r == spec_wrapped_dek_offset(index as int),
{
    FIXED_HEADER_LEN + index * SLOT_LEN + SLOT_HEADER_LEN
}

/// A parsed vault file; the ciphertext borrows the file's bytes.
#[derive(Clone, Debug)]
pub struct ParsedVault<'a> {
    pub header: VaultHeader,
    pub payload_nonce: [u8; NONCE_LEN],
    pub payload_total_len: u64,
    pub payload_ciphertext: &'a [u8],
}

/// A parsed vault file as values.
#[verifier::ext_equal]
pub struct ParsedModel {
    pub header: HeaderModel,
    pub payload_nonce: Seq<u8>,
    pub payload_total_len: u64,
    pub payload_ciphertext: Seq<u8>,
}

impl<'a> View for ParsedVault<'a> {
    type V = ParsedModel;

    open spec fn view(&self) -> ParsedModel {
        ParsedModel {
            header: self.header@,
            payload_nonce: self.payload_nonce@,
            payload_total_len: self.payload_total_len,
            payload_ciphertext: self.payload_ciphertext@,
        }
    }
}

// ---------------------------------------------------------------------
// Big-endian integers
// ---------------------------------------------------------------------

pub open spec fn be16(v: u16) -> Seq<u8> {
    seq![(v >> 8u16) as u8, v as u8]
}

pub open spec fn be32(v: u32) -> Seq<u8> {
    seq![(v >> 24u32) as u8, (v >> 16u32) as u8, (v >> 8u32) as u8, v as u8]
}

pub open spec fn be64(v: u64) -> Seq<u8> {
    seq![
        (v >> 56u64) as u8,
        (v >> 48u64) as u8,
        (v >> 40u64) as u8,
        (v >> 32u64) as u8,
        (v >> 24u64) as u8,
        (v >> 16u64) as u8,
        (v >> 8u64) as u8,
        v as u8,
    ]
}

pub open spec fn u16_of(b0: u8, b1: u8) -> u16 {
    ((b0 as u16) << 8u16) | (b1 as u16)
}

pub open spec fn u32_of(b0: u8, b1: u8, b2: u8, b3: u8) -> u32 {
    ((b0 as u32) << 24u32) | ((b1 as u32) << 16u32) | ((b2 as u32) << 8u32) | (b3 as u32)
}

pub open spec fn u64_of(b0: u8, b1: u8, b2: u8, b3: u8, b4: u8, b5: u8, b6: u8, b7: u8) -> u64 {
    ((b0 as u64) << 56u64) | ((b1 as u64) << 48u64) | ((b2 as u64) << 40u64) | ((b3 as u64)
        << 32u64) | ((b4 as u64) << 24u64) | ((b5 as u64) << 16u64) | ((b6 as u64) << 8u64) | (
    b7 as u64)
}

/// The big-endian 16-bit value at `at`.
pub open spec fn read16(b: Seq<u8>, at: int) -> u16 {
    u16_of(b[at], b[at + 1])
}

/// The big-endian 32-bit value at `at`.
pub open spec fn read32(b: Seq<u8>, at: int) -> u32 {
    u32_of(b[at], b[at + 1], b[at + 2], b[at + 3])
}

/// The big-endian 64-bit value at `at`.
pub open spec fn read64(b: Seq<u8>, at: int) -> u64 {
    u64_of(b[at], b[at + 1], b[at + 2], b[at + 3], b[at + 4], b[at + 5], b[at + 6], b[at + 7])
}

proof fn lemma_u16_roundtrip(v: u16)
    ensures
        u16_of((v >> 8u16) as u8, v as u8) == v,
{
    assert(((((v >> 8u16) as u8) as u16) << 8u16) | ((v as u8) as u16) == v) by (bit_vector);
}

proof fn lemma_u32_roundtrip(v: u32)
    ensures
        u32_of((v >> 24u32) as u8, (v >> 16u32) as u8, (v >> 8u32) as u8, v as u8) == v,
{
    assert(((((v >> 24u32) as u8) as u32) << 24u32) | ((((v >> 16u32) as u8) as u32) << 16u32)
        | ((((v >> 8u32) as u8) as u32) << 8u32) | ((v as u8) as u32) == v) by (bit_vector);
}

proof fn lemma_u64_roundtrip(v: u64)
    ensures
        u64_of(
            (v >> 56u64) as u8,
            (v >> 48u64) as u8,
            (v >> 40u64) as u8,
            (v >> 32u64) as u8,
            (v >> 24u64) as u8,
            (v >> 16u64) as u8,
            (v >> 8u64) as u8,
            v as u8,
        ) == v,
{
    assert(((((v >> 56u64) as u8) as u64) << 56u64) | ((((v >> 48u64) as u8) as u64) << 48u64)
        | ((((v >> 40u64) as u8) as u64) << 40u64) | ((((v >> 32u64) as u8) as u64) << 32u64)
        | ((((v >> 24u64) as u8) as u64) << 24u64) | ((((v >> 16u64) as u8) as u64) << 16u64)
        | ((((v >> 8u64) as u8) as u64) << 8u64) | ((v as u8) as u64) == v) by (bit_vector);
}

/// Appends the big-endian bytes of `v`.
pub fn write_u32_be(buf: &mut Vec<u8>, v: u32)
    ensures
        final(buf)@ == old(buf)@ + be32(v),
{
    buf.push((v >> 24u32) as u8);
    buf.push((v >> 16u32) as u8);
    buf.push((v >> 8u32) as u8);
    buf.push(v as u8);
}

/// Appends the big-endian bytes of `v`.
pub fn write_u64_be(buf: &mut Vec<u8>, v: u64)
    ensures
        final(buf)@ == old(buf)@ + be64(v),
{
    buf.push((v >> 56u64) as u8);
    buf.push((v >> 48u64) as u8);
    buf.push((v >> 40u64) as u8);
    buf.push((v >> 32u64) as u8);
    buf.push((v >> 24u64) as u8);
    buf.push((v >> 16u64) as u8);
    buf.push((v >> 8u64) as u8);
    buf.push(v as u8);
}

/// Reads a big-endian 32-bit value at `at`.
pub fn read_u32_be(buf: &[u8], at: usize) -> (r: Result<u32>)
    requires
        at + 4 <= usize::MAX,
    ensures
        at + 4 <= buf@.len() ==> r == Ok::<u32, Error>(read32(buf@, at as int)),
        at + 4 > buf@.len() ==> r == Err::<u32, Error>(Error::InvalidFormat("truncated header")),
{
    if at + 4 > buf.len() {
        return Err(Error::InvalidFormat("truncated header"));
    }
    let v = ((buf[at] as u32) << 24u32) | ((buf[at + 1] as u32) << 16u32) | ((buf[at + 2] as u32)
        << 8u32) | (buf[at + 3] as u32);
    Ok(v)
}

/// Reads a big-endian 64-bit value at `at`.
pub fn read_u64_be(buf: &[u8], at: usize) -> (r: Result<u64>)
    requires
        at + 8 <= usize::MAX,
    ensures
        at + 8 <= buf@.len() ==> r == Ok::<u64, Error>(read64(buf@, at as int)),
        at + 8 > buf@.len() ==> r == Err::<u64, Error>(Error::InvalidFormat("truncated header")),
{
    if at + 8 > buf.len() {
        return Err(Error::InvalidFormat("truncated header"));
    }
    let v = ((buf[at] as u64) << 56u64) | ((buf[at + 1] as u64) << 48u64) | ((buf[at + 2] as u64)
        << 40u64) | ((buf[at + 3] as u64) << 32u64) | ((buf[at + 4] as u64) << 24u64) | ((buf[at
        + 5] as u64) << 16u64) | ((buf[at + 6] as u64) << 8u64) | (buf[at + 7] as u64);
    Ok(v)
}

// ---------------------------------------------------------------------
// Encoding
// ---------------------------------------------------------------------

/// The bytes of one slot.
pub open spec fn slot_bytes(s: SlotModel) -> Seq<u8> {
    seq![s.slot_type.code(), SALT_LEN as u8] + s.salt + s.nonce + s.wrapped_dek
}

/// The bytes of the slots, one after the other.
pub open spec fn slots_bytes(slots: Seq<SlotModel>) -> Seq<u8>
    decreases slots.len(),
{
    if slots.len() == 0 {
        Seq::empty()
    } else {
        slots_bytes(slots.drop_last()) + slot_bytes(slots.last())
    }
}

/// The bytes of the fixed part of a header.
pub open spec fn fixed_header_bytes(h: HeaderModel) -> Seq<u8> {
    magic_seq() + seq![FORMAT_VERSION_MAJOR, FORMAT_VERSION_MINOR] + h.vault_id + seq![
        KDF_ID_ARGON2ID,
        AEAD_ID_XCHACHA20_POLY1305,
    ] + be32(h.kdf_params.m_cost) + be32(h.kdf_params.t_cost) + be32(h.kdf_params.p_cost) + be16(
        h.slots.len() as u16,
    )
}

/// The encoded header.
pub open spec fn header_bytes(h: HeaderModel) -> Seq<u8> {
    fixed_header_bytes(h) + slots_bytes(h.slots)
}

/// A whole vault file: the header, the ciphertext's length, the payload
/// nonce and the ciphertext.
pub open spec fn file_bytes(h: HeaderModel, nonce: Seq<u8>, ciphertext: Seq<u8>) -> Seq<u8> {
    header_bytes(h) + be64(ciphertext.len() as u64) + nonce + ciphertext
}

/// Copies `N` bytes starting at `start` into an array.
pub(crate) fn copy_to_array<const N: usize>(bytes: &[u8], start: usize) -> (r: [u8; N])
    requires
        start + N <= bytes@.len(),
        start + N <= usize::MAX,
    ensures
        r@ == bytes@.subrange(start as int, start + N),
{
    let mut a: [u8; N] = vstd::array::array_fill_for_copy_types(0u8);
    let mut k: usize = 0;
    while k < N
        invariant
            start + N <= bytes@.len(),
            start + N <= usize::MAX,
            k <= N,
            a@.len() == N,
            forall|j: int| 0 <= j < k ==> a@[j] == bytes@[start + j],
        decreases N - k,
    {
        a[k] = bytes[start + k];
        k += 1;
    }
    assert(a@ =~= bytes@.subrange(start as int, start + N));
    a
}

/// Appends the bytes of an array.
fn push_all<const N: usize>(out: &mut Vec<u8>, a: &[u8; N])
    ensures
        final(out)@ == old(out)@ + a@,
{
    let mut k: usize = 0;
    while k < N
        invariant
            k <= N,
            a@.len() == N,
            out@ == old(out)@ + a@.subrange(0, k as int),
        decreases N - k,
    {
        out.push(a[k]);
        assert(a@.subrange(0, k + 1) =~= a@.subrange(0, k as int).push(a@[k as int]));
        k += 1;
    }
    assert(a@.subrange(0, N as int) =~= a@);
}

proof fn lemma_slots_bytes_len(slots: Seq<SlotModel>)
    requires
        forall|i: int| 0 <= i < slots.len() ==> (#[trigger] slots[i]).well_formed(),
    ensures
        slots_bytes(slots).len() == slots.len() * SLOT_LEN,
    decreases slots.len(),
{
    if slots.len() > 0 {
        lemma_slots_bytes_len(slots.drop_last());
        assert(slots.last().well_formed());
        let n = slots.len() as int;
        assert((n - 1) * SLOT_LEN + SLOT_LEN == n * SLOT_LEN) by (nonlinear_arith);
    }
}

pub fn encode_header(header: &VaultHeader) -> (out: Vec<u8>)
    requires
        slot_count_fits(header.slots@.len() as int),
    ensures
        out@ == header_bytes(header@),
{
    let mut out = Vec::with_capacity(header.header_len());
    push_all(&mut out, &MAGIC);
    assert(MAGIC@ =~= magic_seq());
    out.push(FORMAT_VERSION_MAJOR);
    out.push(FORMAT_VERSION_MINOR);
    push_all(&mut out, &header.vault_id);
    out.push(KDF_ID_ARGON2ID);
    out.push(AEAD_ID_XCHACHA20_POLY1305);
    write_u32_be(&mut out, header.kdf_params.m_cost);
    write_u32_be(&mut out, header.kdf_params.t_cost);
    write_u32_be(&mut out, header.kdf_params.p_cost);
    let slot_count = header.slots.len() as u16;
    out.push((slot_count >> 8u16) as u8);
    out.push(slot_count as u8);
    let ghost hm = header@;
    assert(out@ =~= fixed_header_bytes(hm));
    let mut i: usize = 0;
    while i < header.slots.len()
        invariant
            i <= header.slots@.len(),
            hm == header@,
            out@ == fixed_header_bytes(hm) + slots_bytes(hm.slots.subrange(0, i as int)),
        decreases header.slots@.len() - i,
    {
        let slot = &header.slots[i];
        let ghost before = out@;
        out.push(slot.slot_type.to_u8());
        out.push(SALT_LEN as u8);
        push_all(&mut out, &slot.salt);
        push_all(&mut out, &slot.nonce);
        push_all(&mut out, &slot.wrapped_dek);
        proof {
            let sub = hm.slots.subrange(0, i + 1);
            assert(sub.drop_last() =~= hm.slots.subrange(0, i as int));
            assert(sub.last() == slot@);
            assert(out@ =~= before + slot_bytes(slot@));
        }
        i += 1;
    }
    assert(hm.slots.subrange(0, i as int) =~= hm.slots);
    out
}

// ---------------------------------------------------------------------
// Parsing
// ---------------------------------------------------------------------

/// The cost parameters stored in a header.
pub open spec fn kdf_params_at(b: Seq<u8>) -> KdfParams {
    KdfParams {
        m_cost: read32(b, M_COST_OFFSET as int),
        t_cost: read32(b, T_COST_OFFSET as int),
        p_cost: read32(b, P_COST_OFFSET as int),
    }
}

/// The slot count stored in a header.
pub open spec fn slot_count_at(b: Seq<u8>) -> int {
    read16(b, SLOT_COUNT_OFFSET as int) as int
}

/// Why the fixed part of a header is refused, if it is.
pub open spec fn fixed_error(b: Seq<u8>) -> Option<Error> {
    if b.len() < FIXED_HEADER_LEN {
        Some(Error::InvalidFormat("file too small"))
    } else if b.subrange(0, 8) != magic_seq() {
        Some(Error::InvalidFormat("bad magic"))
    } else if b[8] != FORMAT_VERSION_MAJOR {
        Some(Error::UnsupportedVersion(b[8], b[9]))
    } else if b[KDF_ID_OFFSET as int] != KDF_ID_ARGON2ID {
        Some(Error::UnsupportedKdf(b[KDF_ID_OFFSET as int]))
    } else if b[AEAD_ID_OFFSET as int] != AEAD_ID_XCHACHA20_POLY1305 {
        Some(Error::UnsupportedCipher(b[AEAD_ID_OFFSET as int]))
    } else if !kdf_params_at(b).valid() {
        Some(Error::InvalidKdfParameters)
    } else if slot_count_at(b) == 0 || slot_count_at(b) > MAX_SLOT_COUNT {
        Some(Error::InvalidFormat("invalid slot count"))
    } else {
        None
    }
}

/// Why the slot at offset `at` is refused, if it is.
pub open spec fn slot_error(b: Seq<u8>, at: int) -> Option<Error> {
    if b.len() <= at {
        Some(Error::InvalidFormat("truncated slot"))
    } else if SlotType::of_code(b[at]) is None {
        Some(Error::InvalidFormat("unknown key slot type"))
    } else if b.len() <= at + 1 {
        Some(Error::InvalidFormat("truncated slot"))
    } else if b[at + 1] != SALT_LEN {
        Some(Error::InvalidFormat("invalid slot salt length"))
    } else if b.len() < at + 2 + SALT_LEN {
        Some(Error::InvalidFormat("truncated slot salt"))
    } else if b.len() < at + 2 + SALT_LEN + NONCE_LEN {
        Some(Error::InvalidFormat("truncated slot nonce"))
    } else if b.len() < at + SLOT_LEN {
        Some(Error::InvalidFormat("truncated wrapped DEK"))
    } else {
        None
    }
}

/// Why one of the first `count` slots is refused, the first one that is.
pub open spec fn slots_error(b: Seq<u8>, count: nat) -> Option<Error>
    decreases count,
{
    if count == 0 {
        None
    } else {
        match slots_error(b, (count - 1) as nat) {
            Some(e) => Some(e),
            None => slot_error(b, slot_offset(count - 1)),
        }
    }
}

/// Why the payload part, after `count` slots, is refused, if it is.
pub open spec fn payload_error(b: Seq<u8>, count: nat) -> Option<Error> {
    let off = slot_offset(count as int);
    if b.len() < off + 8 {
        Some(Error::InvalidFormat("truncated header"))
    } else if read64(b, off) < TAG_LEN {
        Some(Error::InvalidFormat("payload too small"))
    } else if read64(b, off) > MAX_PAYLOAD_LEN {
        Some(Error::InvalidFormat("payload too large"))
    } else if b.len() < off + 8 + NONCE_LEN {
        Some(Error::InvalidFormat("truncated payload nonce"))
    } else if b.len() < off + 8 + NONCE_LEN + read64(b, off) {
        Some(Error::InvalidFormat("truncated payload"))
    } else if b.len() != off + 8 + NONCE_LEN + read64(b, off) {
        Some(Error::InvalidFormat("trailing data after payload"))
    } else {
        None
    }
}

/// Why a vault file is refused, the first reason in file order.
pub open spec fn parse_error(b: Seq<u8>) -> Option<Error> {
    match fixed_error(b) {
        Some(e) => Some(e),
        None => match slots_error(b, slot_count_at(b) as nat) {
            Some(e) => Some(e),
            None => payload_error(b, slot_count_at(b) as nat),
        },
    }
}

/// The slot stored at offset `at`.
pub open spec fn slot_model_at(b: Seq<u8>, at: int) -> SlotModel {
    SlotModel {
        slot_type: SlotType::of_code(b[at]).unwrap(),
        salt: b.subrange(at + 2, at + 2 + SALT_LEN),
        nonce: b.subrange(at + 2 + SALT_LEN, at + SLOT_HEADER_LEN),
        wrapped_dek: b.subrange(at + SLOT_HEADER_LEN, at + SLOT_LEN),
    }
}

/// What an accepted vault file holds.
pub open spec fn parsed_model(b: Seq<u8>) -> ParsedModel {
    let count = slot_count_at(b);
    let off = slot_offset(count);
    ParsedModel {
        header: HeaderModel {
            vault_id: b.subrange(VAULT_ID_OFFSET as int, VAULT_ID_OFFSET + VAULT_ID_LEN),
            kdf_params: kdf_params_at(b),
            slots: Seq::new(count as nat, |i: int| slot_model_at(b, slot_offset(i))),
        },
        payload_nonce: b.subrange(off + 8, off + 8 + NONCE_LEN),
        payload_total_len: read64(b, off),
        payload_ciphertext: b.subrange(off + 8 + NONCE_LEN, b.len() as int),
    }
}

/// The outcome of parsing a vault file.
pub open spec fn spec_parse(b: Seq<u8>) -> core::result::Result<ParsedModel, Error> {
    match parse_error(b) {
        Some(e) => Err(e),
        None => Ok(parsed_model(b)),
    }
}

fn has_magic(bytes: &[u8]) -> (r: bool)
    requires
        bytes@.len() >= 8,
    ensures
        r == (bytes@.subrange(0, 8) == magic_seq()),
{
    let mut k: usize = 0;
    assert(MAGIC@ =~= magic_seq());
    while k < 8
        invariant
            k <= 8,
            bytes@.len() >= 8,
            MAGIC@ == magic_seq(),
            forall|j: int| 0 <= j < k ==> bytes@[j] == magic_seq()[j],
        decreases 8 - k,
    {
        if bytes[k] != MAGIC[k] {
            assert(bytes@.subrange(0, 8)[k as int] != magic_seq()[k as int]);
            return false;
        }
        k += 1;
    }
    assert(bytes@.subrange(0, 8) =~= magic_seq());
    true
}

pub fn parse(bytes: &[u8]) -> (r: Result<ParsedVault<'_>>)
    ensures
        match r {
            Ok(p) => spec_parse(bytes@) == Ok::<ParsedModel, Error>(p@),
            Err(e) => spec_parse(bytes@) == Err::<ParsedModel, Error>(e),
        },
{
    let ghost b = bytes@;
    if bytes.len() < FIXED_HEADER_LEN {
        return Err(Error::InvalidFormat("file too small"));
    }
    if !has_magic(bytes) {
        return Err(Error::InvalidFormat("bad magic"));
    }
    let major = bytes[8];
    let minor = bytes[9];
    if major != FORMAT_VERSION_MAJOR {
        return Err(Error::UnsupportedVersion(major, minor));
    }
    if bytes[KDF_ID_OFFSET] != KDF_ID_ARGON2ID {
        return Err(Error::UnsupportedKdf(bytes[KDF_ID_OFFSET]));
    }
    if bytes[AEAD_ID_OFFSET] != AEAD_ID_XCHACHA20_POLY1305 {
        return Err(Error::UnsupportedCipher(bytes[AEAD_ID_OFFSET]));
    }

    let vault_id: [u8; VAULT_ID_LEN] = copy_to_array(bytes, VAULT_ID_OFFSET);

    let kdf_params = KdfParams::new(
        read_u32_be(bytes, M_COST_OFFSET)?,
        read_u32_be(bytes, T_COST_OFFSET)?,
        read_u32_be(bytes, P_COST_OFFSET)?,
    );
    kdf_params.validate()?;

    let slot_count = (((bytes[SLOT_COUNT_OFFSET] as u16) << 8u16) | (bytes[SLOT_COUNT_OFFSET
        + 1] as u16)) as usize;
    if slot_count == 0 || slot_count > MAX_SLOT_COUNT {
        return Err(Error::InvalidFormat("invalid slot count"));
    }
    assert(fixed_error(b) is None);

    let mut slots: Vec<Slot> = Vec::with_capacity(slot_count);
    let slots_start = FIXED_HEADER_LEN;
    let mut i: usize = 0;
    while i < slot_count
        invariant
            b == bytes@,
            fixed_error(b) is None,
            slot_count == slot_count_at(b),
            1 <= slot_count <= MAX_SLOT_COUNT,
            slots_start == FIXED_HEADER_LEN,
            i <= slot_count,
            slots_error(b, i as nat) is None,
            slots@.len() == i,
            forall|j: int| 0 <= j < i ==> (#[trigger] slots@[j])@ == slot_model_at(b, slot_offset(j)),
        decreases slot_count - i,
    {
        assert(i * SLOT_LEN <= MAX_SLOT_COUNT * SLOT_LEN) by (nonlinear_arith)
            requires
                i <= MAX_SLOT_COUNT,
        ;
        let at = slots_start + i * SLOT_LEN;
        assert(at == slot_offset(i as int));
        if at >= bytes.len() {
            assert(slots_error(b, (i + 1) as nat) == slot_error(b, at as int));
            proof { lemma_first_error_stops(b, slot_count as nat, (i + 1) as nat); }
            return Err(Error::InvalidFormat("truncated slot"));
        }
        let slot_type = match SlotType::from_u8(bytes[at]) {
            Ok(t) => t,
            Err(e) => {
                assert(slots_error(b, (i + 1) as nat) == slot_error(b, at as int));
                proof { lemma_first_error_stops(b, slot_count as nat, (i + 1) as nat); }
                return Err(e);
            },
        };
        if at + 1 >= bytes.len() {
            assert(slots_error(b, (i + 1) as nat) == slot_error(b, at as int));
            proof { lemma_first_error_stops(b, slot_count as nat, (i + 1) as nat); }
            return Err(Error::InvalidFormat("truncated slot"));
        }
        let salt_len = bytes[at + 1] as usize;
        if salt_len != SALT_LEN {
            assert(slots_error(b, (i + 1) as nat) == slot_error(b, at as int));
            proof { lemma_first_error_stops(b, slot_count as nat, (i + 1) as nat); }
            return Err(Error::InvalidFormat("invalid slot salt length"));
        }
        if at + 2 + SALT_LEN > bytes.len() {
            assert(slots_error(b, (i + 1) as nat) == slot_error(b, at as int));
            proof { lemma_first_error_stops(b, slot_count as nat, (i + 1) as nat); }
            return Err(Error::InvalidFormat("truncated slot salt"));
        }
        let salt: [u8; SALT_LEN] = copy_to_array(bytes, at + 2);
        if at + 2 + SALT_LEN + NONCE_LEN > bytes.len() {
            assert(slots_error(b, (i + 1) as nat) == slot_error(b, at as int));
            proof { lemma_first_error_stops(b, slot_count as nat, (i + 1) as nat); }
            return Err(Error::InvalidFormat("truncated slot nonce"));
        }
        let nonce: [u8; NONCE_LEN] = copy_to_array(bytes, at + 2 + SALT_LEN);
        let wrapped_start = at + SLOT_HEADER_LEN;
        if wrapped_start + WRAPPED_DEK_LEN > bytes.len() {
            assert(slots_error(b, (i + 1) as nat) == slot_error(b, at as int));
            proof { lemma_first_error_stops(b, slot_count as nat, (i + 1) as nat); }
            return Err(Error::InvalidFormat("truncated wrapped DEK"));
        }
        let wrapped_dek: [u8; WRAPPED_DEK_LEN] = copy_to_array(bytes, wrapped_start);
        let slot = Slot { slot_type, salt, nonce, wrapped_dek };
        assert(slot@ =~= slot_model_at(b, at as int));
        slots.push(slot);
        assert(slots_error(b, (i + 1) as nat) is None);
        i += 1;
    }

    let header = VaultHeader { vault_id, kdf_params, slots };
    assert(slot_count * SLOT_LEN <= MAX_SLOT_COUNT * SLOT_LEN) by (nonlinear_arith)
        requires
            slot_count <= MAX_SLOT_COUNT,
    ;
    let payload_len_offset = header.header_len();
    let payload_total_len = match read_u64_be(bytes, payload_len_offset) {
        Ok(v) => v,
        Err(e) => {
            return Err(e);
        },
    };
    if payload_total_len < TAG_LEN as u64 {
        return Err(Error::InvalidFormat("payload too small"));
    }
    if payload_total_len > MAX_PAYLOAD_LEN {
        return Err(Error::InvalidFormat("payload too large"));
    }
    let nonce_offset = payload_len_offset + 8;
    if nonce_offset + NONCE_LEN > bytes.len() {
        return Err(Error::InvalidFormat("truncated payload nonce"));
    }
    let payload_nonce: [u8; NONCE_LEN] = copy_to_array(bytes, nonce_offset);
    let ct_start = nonce_offset + NONCE_LEN;
    let ct_end = ct_start + payload_total_len as usize;
    if ct_end > bytes.len() {
        return Err(Error::InvalidFormat("truncated payload"));
    }
    let payload_ciphertext = vstd::slice::slice_subrange(bytes, ct_start, ct_end);
    if ct_end != bytes.len() {
        return Err(Error::InvalidFormat("trailing data after payload"));
    }
    let r = ParsedVault { header, payload_nonce, payload_total_len, payload_ciphertext };
    proof {
        let pm = parsed_model(b);
        assert(r.header@.slots =~= pm.header.slots);
        assert(r@ =~~= pm);
    }
    Ok(r)
}

proof fn lemma_first_error_stops(b: Seq<u8>, count: nat, i: nat)
    requires
        1 <= i <= count,
        slots_error(b, i) is Some,
    ensures
        slots_error(b, count) == slots_error(b, i),
    decreases count - i,
{
    if i < count {
        lemma_first_error_stops(b, (count - 1) as nat, i);
    }
}

proof fn lemma_slots_bytes_slot(slots: Seq<SlotModel>, i: int)
    requires
        0 <= i < slots.len(),
        forall|j: int| 0 <= j < slots.len() ==> (#[trigger] slots[j]).well_formed(),
    ensures
        slots_bytes(slots).len() == slots.len() * SLOT_LEN,
        slots_bytes(slots).subrange(i * SLOT_LEN, i * SLOT_LEN + SLOT_LEN) == slot_bytes(slots[i]),
    decreases slots.len(),
{
    lemma_slots_bytes_len(slots);
    let init = slots.drop_last();
    lemma_slots_bytes_len(init);
    assert(slots.last().well_formed());
    let n = slots.len() - 1;
    if i < n {
        lemma_slots_bytes_slot(init, i);
        assert(i * SLOT_LEN + SLOT_LEN <= n * SLOT_LEN) by (nonlinear_arith)
            requires
                i < n,
        ;
        assert(slots_bytes(slots).subrange(i * SLOT_LEN, i * SLOT_LEN + SLOT_LEN)
            =~= slots_bytes(init).subrange(i * SLOT_LEN, i * SLOT_LEN + SLOT_LEN));
    } else {
        assert(slots_bytes(slots).subrange(i * SLOT_LEN, i * SLOT_LEN + SLOT_LEN)
            =~= slot_bytes(slots[i]));
    }
}

proof fn lemma_slot_accepted(b: Seq<u8>, s: SlotModel, at: int)
    requires
        s.well_formed(),
        0 <= at,
        b.len() >= at + SLOT_LEN,
        b.subrange(at, at + SLOT_LEN) == slot_bytes(s),
    ensures
        slot_error(b, at) is None,
        slot_model_at(b, at) == s,
{
    let sb = slot_bytes(s);
    assert(sb.len() == SLOT_LEN);
    assert forall|k: int| 0 <= k < SLOT_LEN implies b[at + k] == sb[k] by {
        assert(b.subrange(at, at + SLOT_LEN)[k] == b[at + k]);
    }
    assert(sb[0] == s.slot_type.code());
    assert(sb[1] == SALT_LEN as u8);
    assert(b[at] == sb[0]);
    assert(b[at + 1] == sb[1]);
    assert(SlotType::of_code(s.slot_type.code()) == Some(s.slot_type));
    assert(slot_error(b, at) is None);
    assert(slot_model_at(b, at).salt =~= s.salt) by {
        assert forall|k: int| 0 <= k < SALT_LEN implies slot_model_at(b, at).salt[k] == s.salt[k] by {
            assert(b[at + 2 + k] == sb[2 + k]);
        }
    }
    assert(slot_model_at(b, at).nonce =~= s.nonce) by {
        assert forall|k: int| 0 <= k < NONCE_LEN implies slot_model_at(b, at).nonce[k] == s.nonce[k] by {
            assert(b[at + 2 + SALT_LEN + k] == sb[2 + SALT_LEN + k]);
        }
    }
    assert(slot_model_at(b, at).wrapped_dek =~= s.wrapped_dek) by {
        assert forall|k: int| 0 <= k < WRAPPED_DEK_LEN implies slot_model_at(b, at).wrapped_dek[k] == s.wrapped_dek[k] by {
            assert(b[at + SLOT_HEADER_LEN + k] == sb[SLOT_HEADER_LEN + k]);
        }
    }
    assert(slot_model_at(b, at) =~= s);
}

proof fn lemma_slots_accepted(b: Seq<u8>, h: HeaderModel, count: nat)
    requires
        h.well_formed(),
        count <= h.slots.len(),
        b.len() >= FIXED_HEADER_LEN + h.slots.len() * SLOT_LEN,
        b.subrange(FIXED_HEADER_LEN as int, FIXED_HEADER_LEN + h.slots.len() * SLOT_LEN)
            == slots_bytes(h.slots),
    ensures
        slots_error(b, count) is None,
        forall|i: int| 0 <= i < count ==> slot_model_at(b, #[trigger] slot_offset(i)) == h.slots[i],
    decreases count,
{
    if count > 0 {
        lemma_slots_accepted(b, h, (count - 1) as nat);
        let i = count - 1;
        lemma_slots_bytes_slot(h.slots, i);
        let at = slot_offset(i);
        let n = h.slots.len() as int;
        assert(i * SLOT_LEN + SLOT_LEN <= n * SLOT_LEN) by (nonlinear_arith)
            requires
                i < n,
        ;
        let whole = b.subrange(FIXED_HEADER_LEN as int, FIXED_HEADER_LEN + n * SLOT_LEN);
        assert(b.subrange(at, at + SLOT_LEN) =~= whole.subrange(i * SLOT_LEN, i * SLOT_LEN + SLOT_LEN));
        assert(h.slots[i].well_formed());
        lemma_slot_accepted(b, h.slots[i], at);
        assert forall|j: int| 0 <= j < count implies slot_model_at(b, #[trigger] slot_offset(j))
            == h.slots[j] by {
            if j < i {
            } else {
                assert(j == i);
            }
        }
    }
}

proof fn lemma_slots_bytes_prefix(slots: Seq<SlotModel>, i: int)
    requires
        0 <= i <= slots.len(),
        forall|j: int| 0 <= j < slots.len() ==> (#[trigger] slots[j]).well_formed(),
    ensures
        slots_bytes(slots).subrange(0, i * SLOT_LEN) == slots_bytes(slots.subrange(0, i)),
    decreases slots.len(),
{
    lemma_slots_bytes_len(slots);
    if i == slots.len() {
        assert(slots.subrange(0, i) =~= slots);
        assert(slots_bytes(slots).subrange(0, i * SLOT_LEN) =~= slots_bytes(slots));
    } else {
        let init = slots.drop_last();
        lemma_slots_bytes_prefix(init, i);
        lemma_slots_bytes_len(init);
        let n = slots.len() - 1;
        assert(i * SLOT_LEN <= n * SLOT_LEN) by (nonlinear_arith)
            requires
                i <= n,
        ;
        assert(init.subrange(0, i) =~= slots.subrange(0, i));
        assert(slots_bytes(slots).subrange(0, i * SLOT_LEN) =~= slots_bytes(init).subrange(0, i * SLOT_LEN));
    }
}

/// The encoded header up to the wrapped key of slot `i`: the fixed part, the
/// slots before `i`, and the type, salt length, salt and nonce of slot `i`.
pub proof fn lemma_header_prefix(h: HeaderModel, i: int)
    requires
        0 <= i < h.slots.len(),
        h.vault_id.len() == VAULT_ID_LEN,
        forall|j: int| 0 <= j < h.slots.len() ==> (#[trigger] h.slots[j]).well_formed(),
    ensures
        header_bytes(h).len() == h.len(),
        spec_wrapped_dek_offset(i) <= h.len(),
        header_bytes(h).subrange(0, spec_wrapped_dek_offset(i)) == fixed_header_bytes(h)
            + slots_bytes(h.slots.subrange(0, i)) + slot_bytes(h.slots[i]).subrange(
            0,
            SLOT_HEADER_LEN as int,
        ),
{
    lemma_slots_bytes_len(h.slots);
    lemma_slots_bytes_prefix(h.slots, i);
    lemma_slots_bytes_slot(h.slots, i);
    let n = h.slots.len() as int;
    assert(i * SLOT_LEN + SLOT_LEN <= n * SLOT_LEN) by (nonlinear_arith)
        requires
            i < n,
    ;
    let sb = slots_bytes(h.slots);
    let hb = header_bytes(h);
    let f = fixed_header_bytes(h);
    assert(f.len() == FIXED_HEADER_LEN);
    assert(h.slots[i].well_formed());
    let lhs = hb.subrange(0, spec_wrapped_dek_offset(i));
    let rhs = f + slots_bytes(h.slots.subrange(0, i)) + slot_bytes(h.slots[i]).subrange(0, SLOT_HEADER_LEN as int);
    assert forall|k: int| 0 <= k < lhs.len() implies lhs[k] == rhs[k] by {
        if k < FIXED_HEADER_LEN {
        } else if k < FIXED_HEADER_LEN + i * SLOT_LEN {
            assert(sb.subrange(0, i * SLOT_LEN)[k - FIXED_HEADER_LEN] == sb[k - FIXED_HEADER_LEN]);
        } else {
            let kk = k - FIXED_HEADER_LEN - i * SLOT_LEN;
            assert(sb.subrange(i * SLOT_LEN, i * SLOT_LEN + SLOT_LEN)[kk] == sb[i * SLOT_LEN + kk]);
        }
    }
    assert(lhs =~= rhs);
}

/// Length of an encoded header.
pub proof fn lemma_header_bytes_len(h: HeaderModel)
    requires
        forall|j: int| 0 <= j < h.slots.len() ==> (#[trigger] h.slots[j]).well_formed(),
        h.vault_id.len() == VAULT_ID_LEN,
    ensures
        header_bytes(h).len() == h.len(),
{
    lemma_slots_bytes_len(h.slots);
}

/// An accepted vault file has a well-formed header.
pub proof fn lemma_parsed_header_well_formed(b: Seq<u8>)
    requires
        spec_parse(b) is Ok,
    ensures
        spec_parse(b)->Ok_0.header.well_formed(),
        spec_parse(b)->Ok_0.header.len() + 8 + NONCE_LEN <= b.len(),
        spec_parse(b)->Ok_0.payload_ciphertext.len() == spec_parse(b)->Ok_0.payload_total_len,
        spec_parse(b)->Ok_0.payload_total_len >= TAG_LEN,
{
    let pm = parsed_model(b);
    let n = slot_count_at(b);
    assert(parse_error(b) is None);
    assert forall|i: int| 0 <= i < n implies (#[trigger] pm.header.slots[i]).well_formed() by {
        lemma_first_error_none(b, n as nat, (i + 1) as nat);
        assert(slots_error(b, (i + 1) as nat) is None);
        assert(slot_error(b, slot_offset(i)) is None);
    }
}

proof fn lemma_first_error_none(b: Seq<u8>, count: nat, i: nat)
    requires
        i <= count,
        slots_error(b, count) is None,
    ensures
        slots_error(b, i) is None,
    decreases count - i,
{
    if i < count {
        lemma_first_error_none(b, (count - 1) as nat, i);
    }
}

/// Reading a header and writing it again gives back the file's header bytes
/// when the file's minor version is the one this library writes.
pub proof fn lemma_encode_parsed_header(b: Seq<u8>)
    requires
        spec_parse(b) is Ok,
        b[9] == FORMAT_VERSION_MINOR,
    ensures
        header_bytes(spec_parse(b)->Ok_0.header) == b.subrange(0, spec_parse(b)->Ok_0.header.len()),
{
    lemma_parsed_header_well_formed(b);
    let h = spec_parse(b)->Ok_0.header;
    let n = h.slots.len() as int;
    lemma_slots_bytes_len(h.slots);
    let hb = header_bytes(h);
    let f = fixed_header_bytes(h);
    assert(parse_error(b) is None);
    assert(fixed_error(b) is None);
    lemma_u32_roundtrip(h.kdf_params.m_cost);
    lemma_u32_roundtrip(h.kdf_params.t_cost);
    lemma_u32_roundtrip(h.kdf_params.p_cost);
    lemma_u16_roundtrip(n as u16);
    let m = h.kdf_params.m_cost;
    let t = h.kdf_params.t_cost;
    let p = h.kdf_params.p_cost;
    assert(read32(b, 28) == m);
    lemma_u32_bytes(m, b[28], b[29], b[30], b[31]);
    lemma_u32_bytes(t, b[32], b[33], b[34], b[35]);
    lemma_u32_bytes(p, b[36], b[37], b[38], b[39]);
    lemma_u16_bytes(n as u16, b[40], b[41]);
    assert(b.subrange(0, 8) == magic_seq());
    assert forall|k: int| 0 <= k < FIXED_HEADER_LEN implies f[k] == b[k] by {
        if k < 8 {
            assert(b.subrange(0, 8)[k] == b[k]);
        }
    }
    let lhs = hb;
    let rhs = b.subrange(0, h.len());
    assert forall|k: int| 0 <= k < lhs.len() implies lhs[k] == rhs[k] by {
        if k >= FIXED_HEADER_LEN {
            let j = k - FIXED_HEADER_LEN;
            let i = j / (SLOT_LEN as int);
            let kk = j % (SLOT_LEN as int);
            assert(0 <= i < n && j == i * SLOT_LEN + kk && 0 <= kk < SLOT_LEN) by (nonlinear_arith)
                requires
                    0 <= j < n * SLOT_LEN,
                    i == j / (SLOT_LEN as int),
                    kk == j % (SLOT_LEN as int),
            ;
            lemma_parsed_slot_bytes(b, i, kk);
        }
    }
    assert(lhs =~= rhs);
}

#[verifier::spinoff_prover]
proof fn lemma_parsed_slot_at(b: Seq<u8>, i: int)
    requires
        spec_parse(b) is Ok,
        0 <= i < spec_parse(b)->Ok_0.header.slots.len(),
    ensures
        slot_offset(i) + SLOT_LEN <= b.len(),
        slot_bytes(spec_parse(b)->Ok_0.header.slots[i]) == b.subrange(slot_offset(i), slot_offset(i) + SLOT_LEN),
{
    lemma_parsed_header_well_formed(b);
    let h = spec_parse(b)->Ok_0.header;
    let n = h.slots.len() as int;
    assert(parse_error(b) is None);
    lemma_first_error_none(b, n as nat, (i + 1) as nat);
    assert(slot_error(b, slot_offset(i)) is None);
    let s = h.slots[i];
    let at = slot_offset(i);
    assert(s == slot_model_at(b, at));
    assert(SlotType::of_code(b[at]) is Some);
    assert(s.slot_type.code() == b[at]);
    assert(slot_bytes(s) =~= b.subrange(at, at + SLOT_LEN));
}

#[verifier::spinoff_prover]
proof fn lemma_parsed_slot_bytes(b: Seq<u8>, i: int, kk: int)
    requires
        spec_parse(b) is Ok,
        0 <= i < spec_parse(b)->Ok_0.header.slots.len(),
        0 <= kk < SLOT_LEN,
    ensures
        slots_bytes(spec_parse(b)->Ok_0.header.slots)[i * SLOT_LEN + kk] == b[slot_offset(i) + kk],
{
    lemma_parsed_header_well_formed(b);
    let h = spec_parse(b)->Ok_0.header;
    let n = h.slots.len() as int;
    lemma_slots_bytes_slot(h.slots, i);
    assert(i * SLOT_LEN + SLOT_LEN <= n * SLOT_LEN) by (nonlinear_arith)
        requires
            i < n,
    ;
    lemma_parsed_slot_at(b, i);
    let at = slot_offset(i);
    assert(slots_bytes(h.slots).subrange(i * SLOT_LEN, i * SLOT_LEN + SLOT_LEN)[kk]
        == slots_bytes(h.slots)[i * SLOT_LEN + kk]);
    assert(b.subrange(at, at + SLOT_LEN)[kk] == b[at + kk]);
}

proof fn lemma_u32_bytes(v: u32, b0: u8, b1: u8, b2: u8, b3: u8)
    requires
        u32_of(b0, b1, b2, b3) == v,
    ensures
        be32(v) == seq![b0, b1, b2, b3],
{
    assert((((((b0 as u32) << 24u32) | ((b1 as u32) << 16u32) | ((b2 as u32) << 8u32) | (b3 as u32)) >> 24u32) as u8) == b0) by (bit_vector);
    assert((((((b0 as u32) << 24u32) | ((b1 as u32) << 16u32) | ((b2 as u32) << 8u32) | (b3 as u32)) >> 16u32) as u8) == b1) by (bit_vector);
    assert((((((b0 as u32) << 24u32) | ((b1 as u32) << 16u32) | ((b2 as u32) << 8u32) | (b3 as u32)) >> 8u32) as u8) == b2) by (bit_vector);
    assert(((((b0 as u32) << 24u32) | ((b1 as u32) << 16u32) | ((b2 as u32) << 8u32) | (b3 as u32)) as u8) == b3) by (bit_vector);
    assert(be32(v) =~= seq![b0, b1, b2, b3]);
}

proof fn lemma_u16_bytes(v: u16, b0: u8, b1: u8)
    requires
        u16_of(b0, b1) == v,
    ensures
        be16(v) == seq![b0, b1],
{
    assert((((((b0 as u16) << 8u16) | (b1 as u16)) >> 8u16) as u8) == b0) by (bit_vector);
    assert(((((b0 as u16) << 8u16) | (b1 as u16)) as u8) == b1) by (bit_vector);
    assert(be16(v) =~= seq![b0, b1]);
}

/// Reading back a written vault file: a well-formed header, followed by the
/// ciphertext's length, a 24-byte nonce and a ciphertext of accepted
/// length, parses to exactly that header, nonce and ciphertext.
#[verifier::rlimit(60)]
pub proof fn lemma_parse_file_bytes(h: HeaderModel, nonce: Seq<u8>, ciphertext: Seq<u8>)
    requires
        h.well_formed(),
        nonce.len() == NONCE_LEN,
        TAG_LEN <= ciphertext.len() <= MAX_PAYLOAD_LEN,
    ensures
        spec_parse(file_bytes(h, nonce, ciphertext)) == Ok::<ParsedModel, Error>(
            ParsedModel {
                header: h,
                payload_nonce: nonce,
                payload_total_len: ciphertext.len() as u64,
                payload_ciphertext: ciphertext,
            },
        ),
{
    let b = file_bytes(h, nonce, ciphertext);
    let f = fixed_header_bytes(h);
    let sl = slots_bytes(h.slots);
    let n = h.slots.len() as int;
    let len = ciphertext.len() as u64;
    lemma_slots_bytes_len(h.slots);
    let off = FIXED_HEADER_LEN + n * SLOT_LEN;
    assert(f.len() == FIXED_HEADER_LEN);
    assert(b.len() == off + 8 + NONCE_LEN + ciphertext.len());
    assert(b.subrange(0, FIXED_HEADER_LEN as int) =~= f);
    assert(b.subrange(FIXED_HEADER_LEN as int, off) =~= sl);
    assert(b.subrange(off, off + 8) =~= be64(len));
    assert(b.subrange(off + 8, off + 8 + NONCE_LEN) =~= nonce);
    assert(b.subrange(off + 8 + NONCE_LEN, b.len() as int) =~= ciphertext);
    // the fixed part
    assert(b.subrange(0, 8) =~= magic_seq());
    assert(b[8] == f[8]);
    assert(b[KDF_ID_OFFSET as int] == f[KDF_ID_OFFSET as int]);
    assert(b[AEAD_ID_OFFSET as int] == f[AEAD_ID_OFFSET as int]);
    let m = h.kdf_params.m_cost;
    let t = h.kdf_params.t_cost;
    let p = h.kdf_params.p_cost;
    assert(f.subrange(28, 32) =~= be32(m));
    assert(f.subrange(32, 36) =~= be32(t));
    assert(f.subrange(36, 40) =~= be32(p));
    assert(f.subrange(40, 42) =~= be16(n as u16));
    assert forall|k: int| 0 <= k < FIXED_HEADER_LEN implies b[k] == f[k] by {
        assert(b.subrange(0, FIXED_HEADER_LEN as int)[k] == b[k]);
    }
    assert(b[28] == be32(m)[0] && b[29] == be32(m)[1] && b[30] == be32(m)[2] && b[31] == be32(m)[3]) by {
        assert(f.subrange(28, 32)[0] == f[28]);
        assert(f.subrange(28, 32)[1] == f[29]);
        assert(f.subrange(28, 32)[2] == f[30]);
        assert(f.subrange(28, 32)[3] == f[31]);
    }
    assert(b[32] == be32(t)[0] && b[33] == be32(t)[1] && b[34] == be32(t)[2] && b[35] == be32(t)[3]) by {
        assert(f.subrange(32, 36)[0] == f[32]);
        assert(f.subrange(32, 36)[1] == f[33]);
        assert(f.subrange(32, 36)[2] == f[34]);
        assert(f.subrange(32, 36)[3] == f[35]);
    }
    assert(b[36] == be32(p)[0] && b[37] == be32(p)[1] && b[38] == be32(p)[2] && b[39] == be32(p)[3]) by {
        assert(f.subrange(36, 40)[0] == f[36]);
        assert(f.subrange(36, 40)[1] == f[37]);
        assert(f.subrange(36, 40)[2] == f[38]);
        assert(f.subrange(36, 40)[3] == f[39]);
    }
    assert(b[40] == be16(n as u16)[0] && b[41] == be16(n as u16)[1]) by {
        assert(f.subrange(40, 42)[0] == f[40]);
        assert(f.subrange(40, 42)[1] == f[41]);
    }
    lemma_u32_roundtrip(m);
    lemma_u32_roundtrip(t);
    lemma_u32_roundtrip(p);
    lemma_u16_roundtrip(n as u16);
    assert(kdf_params_at(b) == h.kdf_params);
    assert(slot_count_at(b) == n);
    assert(fixed_error(b) is None);
    // the slots
    lemma_slots_accepted(b, h, n as nat);
    // the payload
    assert forall|k: int| 0 <= k < 8 implies b[off + k] == be64(len)[k] by {
        assert(b.subrange(off, off + 8)[k] == b[off + k]);
    }
    lemma_u64_roundtrip(len);
    assert(read64(b, off) == len);
    assert(payload_error(b, n as nat) is None);
    assert(parse_error(b) is None);
    let pm = parsed_model(b);
    assert(pm.header.vault_id =~= h.vault_id) by {
        assert forall|k: int| 0 <= k < VAULT_ID_LEN implies pm.header.vault_id[k] == h.vault_id[k] by {
            assert(b[VAULT_ID_OFFSET + k] == f[VAULT_ID_OFFSET + k]);
        }
    }
    assert(pm.header.slots =~= h.slots);
    assert(pm.header =~= h);
    assert(pm.payload_nonce =~= nonce);
    assert(pm.payload_ciphertext =~= ciphertext);
}

} // verus!
