use vstd::prelude::*;

use crate::crypto::aead::{self, xchacha_open, xchacha_seal};
use crate::crypto::kdf::{argon2id_key, derive_key, KdfParams};
use crate::crypto::keys::generate_dek;
use crate::crypto::secret::{guarded_bytes, guarded_key, wipe, GuardedBytes, GuardedKey};
use crate::crypto::random::{random_array, random_nonce, random_salt, KEY_LEN, NONCE_LEN, SALT_LEN, TAG_LEN};
use crate::errors::{Error, Result};
use crate::vault::format::{
    encode_header, file_bytes, header_bytes, spec_parse, spec_wrapped_dek_offset, HeaderModel,
    ParsedModel, Slot, SlotModel, SlotType, VaultHeader, MAX_PAYLOAD_LEN, VAULT_ID_LEN,
    WRAPPED_DEK_LEN,
};
use crate::vault::parse::{parse_vault, validate_vault, ParsedFile};

verus! {

/// The key-encryption key that `passphrase` gives for slot `i`.
pub open spec fn slot_key(passphrase: Seq<u8>, h: HeaderModel, i: int) -> Seq<u8> {
    argon2id_key(
        passphrase,
        h.slots[i].salt,
        h.kdf_params.m_cost,
        h.kdf_params.t_cost,
        h.kdf_params.p_cost,
    )
}

/// What slot `i` unwraps to under `passphrase`, its associated data read
/// from `b`: only passphrase slots unwrap, and only for passphrases that the
/// key derivation accepts.
pub open spec fn slot_opening(b: Seq<u8>, h: HeaderModel, passphrase: Seq<u8>, i: int) -> Option<Seq<u8>> {
    let s = h.slots[i];
    if s.slot_type == SlotType::Passphrase && passphrase.len() <= 0xFFFF_FFFF {
        xchacha_open(
            slot_key(passphrase, h, i),
            s.nonce,
            b.subrange(0, spec_wrapped_dek_offset(i)),
            s.wrapped_dek,
        )
    } else {
        None
    }
}

/// The first of the first `n` slots that unwraps under `passphrase`, with
/// the data key it gives.
pub open spec fn first_opening(b: Seq<u8>, h: HeaderModel, passphrase: Seq<u8>, n: nat) -> Option<(int, Seq<u8>)>
    decreases n,
{
    if n == 0 {
        None
    } else {
        match first_opening(b, h, passphrase, (n - 1) as nat) {
            Some(found) => Some(found),
            None => match slot_opening(b, h, passphrase, n - 1) {
                Some(d) => Some(((n - 1) as int, d)),
                None => None,
            },
        }
    }
}

/// What unlocking the vault file `b` with `passphrase` gives: the data key
/// and the content, or the error.
pub open spec fn unlock_outcome(b: Seq<u8>, passphrase: Seq<u8>) -> core::result::Result<(Seq<u8>, Seq<u8>), Error> {
    let pm = spec_parse(b)->Ok_0;
    match first_opening(b, pm.header, passphrase, pm.header.slots.len()) {
        None => Err(Error::Authentication),
        Some((_, dek)) => match xchacha_open(
            dek,
            pm.payload_nonce,
            b.subrange(0, pm.header.len()),
            pm.payload_ciphertext,
        ) {
            Some(content) => Ok((dek, content)),
            None => Err(Error::Authentication),
        },
    }
}

/// A vault file that parsed, still locked.
pub struct VaultFile {
    parsed: ParsedFile,
}

impl VaultFile {
    #[verifier::type_invariant]
    closed spec fn inv(self) -> bool {
        self.parsed.wf()
    }

    /// The file's bytes.
    pub closed spec fn raw(&self) -> Seq<u8> {
        self.parsed.raw()
    }

    /// What the file's bytes parse to.
    pub open spec fn model(&self) -> ParsedModel {
        spec_parse(self.raw())->Ok_0
    }

    pub fn from_bytes(bytes: Vec<u8>) -> (r: Result<Self>)
        ensures
            match spec_parse(bytes@) {
                Err(e) => r == Err::<VaultFile, Error>(e),
                Ok(_) => r matches Ok(f) && f.raw() == bytes@,
            },
    {
        validate_vault(bytes.as_slice())?;
        let parsed = parse_vault(bytes)?;
        Ok(VaultFile { parsed })
    }

    pub fn vault_id(&self) -> (r: [u8; VAULT_ID_LEN])
        ensures
            spec_parse(self.raw()) is Ok,
            r@ == self.model().header.vault_id,
    {
        proof { use_type_invariant(self); }
        self.parsed.header.vault_id
    }

    pub fn slot_count(&self) -> (r: usize)
        ensures
            spec_parse(self.raw()) is Ok,
            r == self.model().header.slots.len(),
    {
        proof { use_type_invariant(self); }
        self.parsed.header.slots.len()
    }

    pub fn has_passphrase_slot(&self) -> (r: bool)
        ensures
            spec_parse(self.raw()) is Ok,
            r == exists|i: int|
                0 <= i < self.model().header.slots.len() && (#[trigger] self.model().header.slots[i]).slot_type
                    == SlotType::Passphrase,
    {
        proof { use_type_invariant(self); }
        let ghost h = self.model().header;
        let mut i: usize = 0;
        while i < self.parsed.header.slots.len()
            invariant
                h == self.parsed.header@,
                h == self.model().header,
                spec_parse(self.raw()) is Ok,
                i <= self.parsed.header.slots@.len(),
                forall|j: int| 0 <= j < i ==> (#[trigger] h.slots[j]).slot_type != SlotType::Passphrase,
            decreases self.parsed.header.slots@.len() - i,
        {
            if self.parsed.header.slots[i].slot_type == SlotType::Passphrase {
                assert(h.slots[i as int].slot_type == SlotType::Passphrase);
                return true;
            }
            i += 1;
        }
        false
    }

    /// Opens the vault with a passphrase: the first passphrase slot whose
    /// wrapped data key authenticates gives the key that decrypts the
    /// payload.
    pub fn unlock(&self, passphrase: &[u8]) -> (r: Result<Unlocked>)
        ensures
            spec_parse(self.raw()) is Ok,
            match unlock_outcome(self.raw(), passphrase@) {
                Err(e) => r == Err::<Unlocked, Error>(e),
                Ok((dek, content)) => r matches Ok(u) && u.header_model() == self.model().header
                    && u.dek_bytes() == dek && u.content_bytes() == content,
            },
            r is Ok && self.raw()[9] == 0 ==> r->Ok_0.unlocks_with(passphrase@),
    {
        proof {
            use_type_invariant(self);
            crate::vault::format::lemma_parsed_header_well_formed(self.raw());
        }
        let ghost b = self.raw();
        let ghost h = self.model().header;
        let n = self.parsed.header.slots.len();
        let mut i: usize = 0;
        while i < n
            invariant
                b == self.raw(),
                h == self.model().header,
                h == self.parsed.header@,
                h.well_formed(),
                self.parsed.wf(),
                n == self.parsed.header.slots@.len(),
                i <= n,
                first_opening(b, h, passphrase@, i as nat) is None,
            decreases n - i,
        {
            let slot = self.parsed.header.slots[i];
            assert(slot@ == h.slots[i as int]);
            if slot.slot_type != SlotType::Passphrase {
                assert(slot_opening(b, h, passphrase@, i as int) is None);
                i += 1;
                continue;
            }
            let kek = match derive_key(passphrase, slot.salt.as_slice(), &self.parsed.header.kdf_params) {
                Ok(k) => k,
                Err(_) => {
                    assert(slot_opening(b, h, passphrase@, i as int) is None);
                    i += 1;
                    continue;
                },
            };
            assert(guarded_key(kek) == slot_key(passphrase@, h, i as int));
            proof { lemma_wrapped_offset_in_file(self.parsed.header@, i as int); }
            let wrapped_aad = self.parsed.slot_aad(i);
            if let Ok(wrapped_dek) = aead::decrypt(kek.bytes().as_slice(), &slot.nonce, wrapped_aad, slot.wrapped_dek.as_slice()) {
                let mut dek_copy: [u8; KEY_LEN] = crate::vault::format::copy_to_array(wrapped_dek.bytes(), 0);
                assert(dek_copy@ =~= guarded_bytes(wrapped_dek));
                let dek = GuardedKey::new(dek_copy);
                wipe(vstd::array::ref_mut_array_unsizing_coercion(&mut dek_copy));
                assert(first_opening(b, h, passphrase@, (i + 1) as nat) == Some((i as int, guarded_key(dek))));
                proof { lemma_first_opening_prefix(b, h, passphrase@, (i + 1) as nat, n as nat); }
                let payload_aad = self.parsed.payload_aad();
                let content = aead::decrypt(dek.bytes().as_slice(), &self.parsed.payload_nonce, payload_aad, self.parsed.payload_ciphertext())?;
                let u = Unlocked { header: self.parsed.header.duplicate(), dek, content };
                proof {
                    if b[9] == 0 {
                        crate::vault::format::lemma_encode_parsed_header(b);
                        crate::vault::format::lemma_header_bytes_len(h);
                        assert(header_bytes(h).subrange(0, h.len()) =~= header_bytes(h));
                        lemma_first_opening_same_prefix(b, header_bytes(h), h, passphrase@, n as nat);
                    }
                }
                return Ok(u);
            }
            i += 1;
        }
        Err(Error::Authentication)
    }
}

/// In a parsed file, every slot's wrapped key lies within the file.
proof fn lemma_wrapped_offset_in_file(h: HeaderModel, i: int)
    requires
        h.well_formed(),
        0 <= i < h.slots.len(),
    ensures
        spec_wrapped_dek_offset(i) <= h.len(),
{
    let n = h.slots.len() as int;
    assert(i * crate::vault::format::SLOT_LEN + crate::vault::format::SLOT_LEN <= n * crate::vault::format::SLOT_LEN) by (nonlinear_arith)
        requires
            i < n,
    ;
}

proof fn lemma_first_opening_prefix(b: Seq<u8>, h: HeaderModel, passphrase: Seq<u8>, i: nat, n: nat)
    requires
        i <= n,
        first_opening(b, h, passphrase, i) is Some,
    ensures
        first_opening(b, h, passphrase, n) == first_opening(b, h, passphrase, i),
    decreases n - i,
{
    if i < n {
        lemma_first_opening_prefix(b, h, passphrase, i, (n - 1) as nat);
    }
}

/// Slot openings only read the bytes before each slot's wrapped key, so two
/// byte strings that agree on the header give the same openings.
proof fn lemma_first_opening_same_prefix(b1: Seq<u8>, b2: Seq<u8>, h: HeaderModel, passphrase: Seq<u8>, n: nat)
    requires
        h.well_formed(),
        n <= h.slots.len(),
        b1.len() >= h.len(),
        b2.len() >= h.len(),
        b1.subrange(0, h.len()) == b2.subrange(0, h.len()),
    ensures
        first_opening(b1, h, passphrase, n) == first_opening(b2, h, passphrase, n),
    decreases n,
{
    if n > 0 {
        lemma_first_opening_same_prefix(b1, b2, h, passphrase, (n - 1) as nat);
        let i = n - 1;
        lemma_wrapped_offset_in_file(h, i);
        let off = spec_wrapped_dek_offset(i);
        assert(b1.subrange(0, off) =~= b1.subrange(0, h.len()).subrange(0, off));
        assert(b2.subrange(0, off) =~= b2.subrange(0, h.len()).subrange(0, off));
    }
}

/// An unlocked vault: its header, the data key and the decrypted content.
pub struct Unlocked {
    header: VaultHeader,
    dek: GuardedKey,
    content: GuardedBytes,
}

impl Unlocked {
    #[verifier::type_invariant]
    closed spec fn inv(self) -> bool {
        self.header@.well_formed()
    }

    /// The header.
    pub closed spec fn header_model(&self) -> HeaderModel {
        self.header@
    }

    /// The data key.
    pub closed spec fn dek_bytes(&self) -> Seq<u8> {
        guarded_key(self.dek)
    }

    /// The content.
    pub closed spec fn content_bytes(&self) -> Seq<u8> {
        guarded_bytes(self.content)
    }

    /// The first passphrase slot that `passphrase` opens, reading the header
    /// as this library writes it, gives back this vault's data key.
    pub open spec fn unlocks_with(&self, passphrase: Seq<u8>) -> bool {
        let h = self.header_model();
        first_opening(header_bytes(h), h, passphrase, h.slots.len()) matches Some((_, d)) && d
            == self.dek_bytes()
    }

    /// `bytes` is a vault file for this vault: its header, the length of the
    /// ciphertext, a 24-byte nonce, and a ciphertext of the content under the
    /// data key with the header as associated data.
    pub open spec fn serialized_as(&self, bytes: Seq<u8>) -> bool {
        let h = self.header_model();
        let hl = h.len();
        let nonce = bytes.subrange(hl + 8, hl + 8 + NONCE_LEN);
        let ct = bytes.subrange(hl + 8 + NONCE_LEN, bytes.len() as int);
        &&& h.well_formed()
        &&& bytes.len() >= hl + 8 + NONCE_LEN
        &&& bytes == file_bytes(h, nonce, ct)
        &&& ct.len() == self.content_bytes().len() + TAG_LEN
        &&& xchacha_open(self.dek_bytes(), nonce, header_bytes(h), ct) == Some(self.content_bytes())
    }

    /// A new vault with a fresh identity, a fresh data key and one
    /// passphrase slot holding that key wrapped under the passphrase: the
    /// vault that `create_from` builds from values drawn from the random
    /// source.
    pub fn create(passphrase: &[u8], kdf_params: &KdfParams, content: Vec<u8>) -> (r: Result<Self>)
        ensures
            r matches Err(e) ==> e == Error::Rng || (e == Error::InvalidKdfParameters
                && !kdf_params.valid()) || (e == Error::Crypto && kdf_params.valid()
                && passphrase@.len() > 0xFFFF_FFFF),
            !kdf_params.valid() || passphrase@.len() > 0xFFFF_FFFF ==> r is Err,
            r matches Ok(u) ==> {
                &&& u.content_bytes() == content@
                &&& u.header_model().kdf_params == *kdf_params
                &&& u.header_model().slots.len() == 1
                &&& u.header_model().slots[0].slot_type == SlotType::Passphrase
                &&& u.unlocks_with(passphrase@)
            },
    {
        let vault_id: [u8; VAULT_ID_LEN] = random_array()?;
        let dek = generate_dek()?;
        let salt = random_salt()?;
        let slot_nonce = random_nonce()?;
        Self::create_from(vault_id, dek, salt, slot_nonce, passphrase, kdf_params, content)
    }

    /// The vault with identity `vault_id`, data key `dek` and content
    /// `content`, whose one passphrase slot holds the data key wrapped under
    /// the key that `passphrase` and `salt` give, with `nonce`. The wrapping
    /// associated data is the header up to the slot's wrapped key: identity,
    /// parameters, slot count and the slot's own type, salt and nonce.
    pub fn create_from(
        vault_id: [u8; VAULT_ID_LEN],
        dek: GuardedKey,
        salt: [u8; SALT_LEN],
        nonce: [u8; NONCE_LEN],
        passphrase: &[u8],
        kdf_params: &KdfParams,
        content: Vec<u8>,
    ) -> (r: Result<Self>)
        ensures
            !kdf_params.valid() ==> r == Err::<Unlocked, Error>(Error::InvalidKdfParameters),
            kdf_params.valid() && passphrase@.len() > 0xFFFF_FFFF ==> r == Err::<Unlocked, Error>(Error::Crypto),
            kdf_params.valid() && passphrase@.len() <= 0xFFFF_FFFF ==> r is Ok,
            r matches Ok(u) ==> {
                let h = u.header_model();
                &&& h.vault_id == vault_id@
                &&& h.kdf_params == *kdf_params
                &&& h.slots.len() == 1
                &&& h.slots[0].slot_type == SlotType::Passphrase
                &&& h.slots[0].salt == salt@
                &&& h.slots[0].nonce == nonce@
                &&& h.slots[0].wrapped_dek == xchacha_seal(
                    slot_key(passphrase@, h, 0),
                    nonce@,
                    header_bytes(h).subrange(0, spec_wrapped_dek_offset(0)),
                    guarded_key(dek),
                )
                &&& u.dek_bytes() == guarded_key(dek)
                &&& u.content_bytes() == content@
                &&& u.unlocks_with(passphrase@)
            },
    {
        let kek = derive_key(passphrase, salt.as_slice(), kdf_params)?;
        let slot_nonce = nonce;
        let mut slots = Vec::new();
        slots.push(Slot {
            slot_type: SlotType::Passphrase,
            salt,
            nonce: slot_nonce,
            wrapped_dek: [0u8; WRAPPED_DEK_LEN],
        });
        let mut header = VaultHeader { vault_id, kdf_params: *kdf_params, slots };
        proof { lemma_header_fits(header@); }
        let wrapped_offset = crate::vault::format::slot_wrapped_dek_offset(0);
        let header_bytes_v = encode_header(&header);
        proof {
            assert(header@.well_formed());
            crate::vault::format::lemma_header_prefix(header@, 0);
        }
        let wrapped_aad = vstd::slice::slice_subrange(header_bytes_v.as_slice(), 0, wrapped_offset);
        let wrapped = aead::encrypt(kek.bytes().as_slice(), &slot_nonce, wrapped_aad, dek.bytes().as_slice())?;
        if wrapped.len() != WRAPPED_DEK_LEN {
            return Err(Error::Crypto);
        }
        let wrapped_dek: [u8; WRAPPED_DEK_LEN] = crate::vault::format::copy_to_array(wrapped.as_slice(), 0);
        let ghost h0 = header@;
        header.slots.set(0, Slot { slot_type: SlotType::Passphrase, salt, nonce: slot_nonce, wrapped_dek });
        let ghost dek_v = guarded_key(dek);
        let u = Unlocked { header, dek, content: GuardedBytes::new(content) };
        proof {
            let h1 = u.header@;
            assert(h1.slots[0].wrapped_dek =~= wrapped@);
            assert(h1.well_formed());
            crate::vault::format::lemma_header_prefix(h1, 0);
            assert(h0.slots.subrange(0, 0) =~= h1.slots.subrange(0, 0));
            assert(crate::vault::format::fixed_header_bytes(h0) == crate::vault::format::fixed_header_bytes(h1));
            assert(crate::vault::format::slot_bytes(h0.slots[0]).subrange(0, crate::vault::format::SLOT_HEADER_LEN as int)
                =~= crate::vault::format::slot_bytes(h1.slots[0]).subrange(0, crate::vault::format::SLOT_HEADER_LEN as int));
            assert(header_bytes(h1).subrange(0, spec_wrapped_dek_offset(0)) == wrapped_aad@);
            assert(slot_opening(header_bytes(h1), h1, passphrase@, 0) == Some(dek_v));
            assert(first_opening(header_bytes(h1), h1, passphrase@, 0) is None);
            assert(first_opening(header_bytes(h1), h1, passphrase@, 1) == Some((0int, dek_v)));
        }
        Ok(u)
    }

    pub fn vault_id(&self) -> (r: [u8; VAULT_ID_LEN])
        ensures
            r@ == self.header_model().vault_id,
    {
        self.header.vault_id
    }

    pub fn content(&self) -> (r: &[u8])
        ensures
            r@ == self.content_bytes(),
    {
        self.content.bytes()
    }

    /// Replaces the content; the old content is wiped as it is dropped.
    pub fn set_content(&mut self, content: Vec<u8>)
        ensures
            final(self).content_bytes() == content@,
            final(self).header_model() == old(self).header_model(),
            final(self).dek_bytes() == old(self).dek_bytes(),
    {
        proof { use_type_invariant(&*self); }
        self.content = GuardedBytes::new(content);
    }

    /// The vault file: the header, the ciphertext's length, a fresh payload
    /// nonce and the content encrypted under the data key with the whole
    /// header as associated data; the file that `seal_with_nonce` writes
    /// with a nonce drawn from the random source.
    pub fn serialize(&self) -> (r: Result<Vec<u8>>)
        ensures
            r matches Ok(out) ==> self.serialized_as(out@),
            r matches Err(e) ==> e == Error::Rng || (e == Error::Authentication
                && !aead::within_block_limit(self.content_bytes().len())),
            aead::within_block_limit(self.content_bytes().len()) ==> r is Ok || r
                == Err::<Vec<u8>, Error>(Error::Rng),
    {
        let payload_nonce = random_nonce()?;
        self.seal_with_nonce(&payload_nonce)
    }

    /// The vault file with payload nonce `nonce`: the header, the
    /// ciphertext's length, the nonce, and the content encrypted under the
    /// data key and `nonce` with the whole header as associated data.
    pub fn seal_with_nonce(&self, nonce: &[u8; NONCE_LEN]) -> (r: Result<Vec<u8>>)
        ensures
            r is Ok <==> aead::within_block_limit(self.content_bytes().len()),
            r matches Err(e) ==> e == Error::Authentication,
            r matches Ok(out) ==> {
                let h = self.header_model();
                &&& self.serialized_as(out@)
                &&& out@ == file_bytes(
                    h,
                    nonce@,
                    xchacha_seal(self.dek_bytes(), nonce@, header_bytes(h), self.content_bytes()),
                )
            },
    {
        proof {
            use_type_invariant(self);
            crate::vault::format::lemma_header_bytes_len(self.header@);
            lemma_header_fits(self.header@);
        }
        let header_bytes_v = encode_header(&self.header);
        let payload_aad = vstd::slice::slice_subrange(header_bytes_v.as_slice(), 0, self.header.header_len());
        let payload_ct = aead::encrypt(self.dek.bytes().as_slice(), nonce, payload_aad, self.content.bytes())?;

        let mut out = header_bytes_v;
        crate::vault::format::write_u64_be(&mut out, payload_ct.len() as u64);
        out.extend_from_slice(nonce.as_slice());
        out.extend_from_slice(payload_ct.as_slice());
        proof {
            let h = self.header@;
            let hl = h.len();
            assert(payload_aad@ =~= header_bytes(h));
            assert(out@.subrange(hl + 8, hl + 8 + NONCE_LEN) =~= nonce@);
            assert(out@.subrange(hl + 8 + NONCE_LEN, out@.len() as int) =~= payload_ct@);
            assert(out@ =~= file_bytes(h, nonce@, payload_ct@));
        }
        Ok(out)
    }

    /// The position of the first passphrase slot, if any.
    fn first_passphrase_index(&self) -> (r: Option<usize>)
        ensures
            match r {
                Some(i) => first_passphrase(self.header_model().slots, self.header_model().slots.len())
                    == Some(i as int),
                None => first_passphrase(self.header_model().slots, self.header_model().slots.len())
                    is None,
            },
    {
        let ghost s = self.header@.slots;
        let n = self.header.slots.len();
        let mut i: usize = 0;
        while i < n
            invariant
                n == self.header.slots@.len(),
                s == self.header@.slots,
                i <= n,
                first_passphrase(s, i as nat) is None,
            decreases n - i,
        {
            assert(s[i as int].slot_type == self.header.slots@[i as int].slot_type);
            if self.header.slots[i].slot_type == SlotType::Passphrase {
                assert(first_passphrase(s, (i + 1) as nat) == Some(i as int));
                proof { lemma_first_passphrase_prefix(s, (i + 1) as nat, n as nat); }
                return Some(i);
            }
            i += 1;
        }
        None
    }

    /// Rewraps the data key under a new passphrase, in the first passphrase
    /// slot, with a fresh salt and nonce from the random source: the change
    /// that `rewrap_with` makes with those values.
    pub fn change_passphrase(&mut self, passphrase: &[u8]) -> (r: Result<()>)
        ensures
            final(self).dek_bytes() == old(self).dek_bytes(),
            final(self).content_bytes() == old(self).content_bytes(),
            final(self).header_model().vault_id == old(self).header_model().vault_id,
            final(self).header_model().kdf_params == old(self).header_model().kdf_params,
            final(self).header_model().slots.len() == old(self).header_model().slots.len(),
            r is Ok ==> final(self).unlocks_with(passphrase@),
            r is Ok ==> (first_passphrase(old(self).header_model().slots, old(self).header_model().slots.len()) matches Some(i)
                && final(self).header_model().slots[i].slot_type == SlotType::Passphrase
                && forall|j: int| 0 <= j < old(self).header_model().slots.len() && j != i
                    ==> (#[trigger] final(self).header_model().slots[j]) == old(self).header_model().slots[j]),
            r is Err ==> final(self).header_model() == old(self).header_model(),
            r matches Err(e) ==> e == Error::Rng || (e == Error::NoUsableSlot && forall|j: int|
                0 <= j < old(self).header_model().slots.len() ==> (#[trigger] old(self).header_model().slots[j]).slot_type
                    != SlotType::Passphrase) || (e == Error::Crypto && passphrase@.len() > 0xFFFF_FFFF),
            (exists|j: int| 0 <= j < old(self).header_model().slots.len()
                && (#[trigger] old(self).header_model().slots[j]).slot_type == SlotType::Passphrase)
                && passphrase@.len() <= 0xFFFF_FFFF ==> r is Ok || r == Err::<(), Error>(Error::Rng),
    {
        proof {
            use_type_invariant(&*self);
            lemma_first_passphrase_none(self.header@.slots);
            lemma_first_passphrase_some(self.header@.slots);
        }
        if self.first_passphrase_index().is_none() {
            return Err(Error::NoUsableSlot);
        }
        let salt = random_salt()?;
        let slot_nonce = random_nonce()?;
        self.rewrap_with(passphrase, salt, slot_nonce)
    }

    /// Rewraps the data key in the first passphrase slot under the key that
    /// `passphrase` and `salt` give, with `nonce`; the other slots stay as
    /// they are. Fails with `NoUsableSlot` when there is no passphrase slot.
    pub fn rewrap_with(&mut self, passphrase: &[u8], salt: [u8; SALT_LEN], nonce: [u8; NONCE_LEN]) -> (r: Result<()>)
        ensures
            final(self).dek_bytes() == old(self).dek_bytes(),
            final(self).content_bytes() == old(self).content_bytes(),
            match first_passphrase(old(self).header_model().slots, old(self).header_model().slots.len()) {
                None => r == Err::<(), Error>(Error::NoUsableSlot) && final(self).header_model() == old(
                    self,
                ).header_model(),
                Some(i) => {
                    &&& passphrase@.len() > 0xFFFF_FFFF ==> r == Err::<(), Error>(Error::Crypto)
                        && final(self).header_model() == old(self).header_model()
                    &&& passphrase@.len() <= 0xFFFF_FFFF ==> r == Ok::<(), Error>(()) && {
                        let h0 = old(self).header_model();
                        let h1 = final(self).header_model();
                        &&& h1.vault_id == h0.vault_id
                        &&& h1.kdf_params == h0.kdf_params
                        &&& h1.slots.len() == h0.slots.len()
                        &&& forall|j: int| 0 <= j < h0.slots.len() && j != i ==> (#[trigger] h1.slots[j]) == h0.slots[j]
                        &&& h1.slots[i].slot_type == SlotType::Passphrase
                        &&& h1.slots[i].salt == salt@
                        &&& h1.slots[i].nonce == nonce@
                        &&& h1.slots[i].wrapped_dek == xchacha_seal(
                            slot_key(passphrase@, h1, i),
                            nonce@,
                            header_bytes(h1).subrange(0, spec_wrapped_dek_offset(i)),
                            old(self).dek_bytes(),
                        )
                        &&& final(self).unlocks_with(passphrase@)
                    }
                },
            },
    {
        proof { use_type_invariant(&*self); }
        let ghost h0 = self.header@;
        let i = match self.first_passphrase_index() {
            Some(i) => i,
            None => return Err(Error::NoUsableSlot),
        };
        let n = self.header.slots.len();
        proof {
            lemma_first_passphrase_some(h0.slots);
        }
        assert(h0.slots[i as int].slot_type == SlotType::Passphrase);
        let kek = derive_key(passphrase, salt.as_slice(), &self.header.kdf_params)?;
        let slot_nonce = nonce;
        let mut header = self.header.duplicate();
        header.slots.set(i, Slot {
            slot_type: SlotType::Passphrase,
            salt,
            nonce: slot_nonce,
            wrapped_dek: [0u8; WRAPPED_DEK_LEN],
        });
        proof {
            assert(header@.slots[i as int].well_formed());
            assert(header@.well_formed());
            lemma_header_fits(header@);
            crate::vault::format::lemma_header_prefix(header@, i as int);
        }
        let wrapped_offset = crate::vault::format::slot_wrapped_dek_offset(i);
        let header_bytes_v = encode_header(&header);
        let wrapped_aad = vstd::slice::slice_subrange(header_bytes_v.as_slice(), 0, wrapped_offset);
        let wrapped = aead::encrypt(kek.bytes().as_slice(), &slot_nonce, wrapped_aad, self.dek.bytes().as_slice())?;
        if wrapped.len() != WRAPPED_DEK_LEN {
            return Err(Error::Crypto);
        }
        let wrapped_dek: [u8; WRAPPED_DEK_LEN] = crate::vault::format::copy_to_array(wrapped.as_slice(), 0);
        let ghost hp = header@;
        header.slots.set(i, Slot { slot_type: SlotType::Passphrase, salt, nonce: slot_nonce, wrapped_dek });
        proof {
            let h1 = header@;
            assert(h1.slots[i as int].wrapped_dek =~= wrapped@);
            assert(h1.well_formed());
            crate::vault::format::lemma_header_prefix(h1, i as int);
            assert(hp.slots.subrange(0, i as int) =~= h1.slots.subrange(0, i as int));
            assert(crate::vault::format::fixed_header_bytes(hp) == crate::vault::format::fixed_header_bytes(h1));
            assert(crate::vault::format::slot_bytes(hp.slots[i as int]).subrange(0, crate::vault::format::SLOT_HEADER_LEN as int)
                =~= crate::vault::format::slot_bytes(h1.slots[i as int]).subrange(0, crate::vault::format::SLOT_HEADER_LEN as int));
            assert(header_bytes(h1).subrange(0, spec_wrapped_dek_offset(i as int)) == wrapped_aad@);
            assert(slot_opening(header_bytes(h1), h1, passphrase@, i as int) == Some(self.dek_bytes()));
            assert forall|j: int| 0 <= j < i implies (#[trigger] h1.slots[j]).slot_type != SlotType::Passphrase by {
                assert(h1.slots[j] == h0.slots[j]);
            }
            lemma_no_opening_before(header_bytes(h1), h1, passphrase@, i as nat);
            assert(first_opening(header_bytes(h1), h1, passphrase@, (i + 1) as nat) == Some((i as int, self.dek_bytes())));
            lemma_first_opening_prefix(header_bytes(h1), h1, passphrase@, (i + 1) as nat, n as nat);
        }
        self.header = header;
        Ok(())
    }

    /// Locks the vault: dropping it wipes the data key and the content.
    pub fn lock(self) {
    }
}

proof fn lemma_no_opening_before(b: Seq<u8>, h: HeaderModel, passphrase: Seq<u8>, i: nat)
    requires
        i <= h.slots.len(),
        forall|j: int| 0 <= j < i ==> (#[trigger] h.slots[j]).slot_type != SlotType::Passphrase,
    ensures
        first_opening(b, h, passphrase, i) is None,
    decreases i,
{
    if i > 0 {
        lemma_no_opening_before(b, h, passphrase, (i - 1) as nat);
        assert(h.slots[i - 1].slot_type != SlotType::Passphrase);
    }
}

proof fn lemma_header_fits(h: HeaderModel)
    requires
        h.well_formed(),
    ensures
        crate::vault::format::slot_count_fits(h.slots.len() as int),
        h.len() + 8 + NONCE_LEN <= 1000,
{
    let n = h.slots.len() as int;
    assert(n * crate::vault::format::SLOT_LEN <= crate::vault::format::MAX_SLOT_COUNT * crate::vault::format::SLOT_LEN) by (nonlinear_arith)
        requires
            n <= crate::vault::format::MAX_SLOT_COUNT,
    ;
}

/// A vault opens with a passphrase it unlocks with once written: the bytes
/// that `serialize` produces parse, and unlocking them with that passphrase
/// gives back the data key and the content, as long as the ciphertext fits
/// the format's payload limit.
pub proof fn lemma_serialized_vault_unlocks(u: Unlocked, passphrase: Seq<u8>, bytes: Seq<u8>)
    requires
        u.unlocks_with(passphrase),
        u.serialized_as(bytes),
        u.content_bytes().len() + TAG_LEN <= MAX_PAYLOAD_LEN,
    ensures
        spec_parse(bytes) is Ok,
        unlock_outcome(bytes, passphrase) == Ok::<(Seq<u8>, Seq<u8>), Error>(
            (u.dek_bytes(), u.content_bytes()),
        ),
{
    let h = u.header_model();
    let hl = h.len();
    let nonce = bytes.subrange(hl + 8, hl + 8 + NONCE_LEN);
    let ct = bytes.subrange(hl + 8 + NONCE_LEN, bytes.len() as int);
    crate::vault::format::lemma_parse_file_bytes(h, nonce, ct);
    crate::vault::format::lemma_header_bytes_len(h);
    let pm = spec_parse(bytes)->Ok_0;
    assert(pm.header == h);
    assert(bytes.subrange(0, hl) =~= header_bytes(h));
    assert(header_bytes(h).subrange(0, hl) =~= header_bytes(h));
    lemma_first_opening_same_prefix(bytes, header_bytes(h), h, passphrase, h.slots.len());
}


/// The first of the first `n` slots that is a passphrase slot.
pub open spec fn first_passphrase(slots: Seq<SlotModel>, n: nat) -> Option<int>
    decreases n,
{
    if n == 0 {
        None
    } else {
        match first_passphrase(slots, (n - 1) as nat) {
            Some(i) => Some(i),
            None => if slots[n - 1].slot_type == SlotType::Passphrase {
                Some((n - 1) as int)
            } else {
                None
            },
        }
    }
}

proof fn lemma_first_passphrase_prefix(slots: Seq<SlotModel>, k: nat, n: nat)
    requires
        k <= n,
        first_passphrase(slots, k) is Some,
    ensures
        first_passphrase(slots, n) == first_passphrase(slots, k),
    decreases n,
{
    if n > k {
        lemma_first_passphrase_prefix(slots, k, (n - 1) as nat);
    }
}

proof fn lemma_first_passphrase_none_n(slots: Seq<SlotModel>, n: nat)
    requires
        n <= slots.len(),
    ensures
        first_passphrase(slots, n) is None <==> forall|j: int| 0 <= j < n ==> (#[trigger] slots[j]).slot_type
            != SlotType::Passphrase,
    decreases n,
{
    if n > 0 {
        lemma_first_passphrase_none_n(slots, (n - 1) as nat);
    }
}

proof fn lemma_first_passphrase_some_n(slots: Seq<SlotModel>, n: nat)
    requires
        n <= slots.len(),
    ensures
        first_passphrase(slots, n) matches Some(i) ==> 0 <= i < n && slots[i].slot_type == SlotType::Passphrase
            && forall|j: int| 0 <= j < i ==> (#[trigger] slots[j]).slot_type != SlotType::Passphrase,
    decreases n,
{
    if n > 0 {
        lemma_first_passphrase_some_n(slots, (n - 1) as nat);
        lemma_first_passphrase_none_n(slots, (n - 1) as nat);
    }
}

/// There is no first passphrase slot exactly when no slot is one.
proof fn lemma_first_passphrase_none(slots: Seq<SlotModel>)
    ensures
        first_passphrase(slots, slots.len()) is None <==> forall|j: int|
            0 <= j < slots.len() ==> (#[trigger] slots[j]).slot_type != SlotType::Passphrase,
{
    lemma_first_passphrase_none_n(slots, slots.len());
}

/// The first passphrase slot is a passphrase slot with none before it.
proof fn lemma_first_passphrase_some(slots: Seq<SlotModel>)
    ensures
        first_passphrase(slots, slots.len()) matches Some(i) ==> 0 <= i < slots.len()
            && slots[i].slot_type == SlotType::Passphrase && forall|j: int|
            0 <= j < i ==> (#[trigger] slots[j]).slot_type != SlotType::Passphrase,
{
    lemma_first_passphrase_some_n(slots, slots.len());
}

} // verus!
