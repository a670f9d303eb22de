use vstd::prelude::*;

use crate::crypto::random::{NONCE_LEN, TAG_LEN};
use crate::errors::{Error, Result};

use crate::vault::format::{spec_parse, spec_wrapped_dek_offset, ParsedModel, VaultHeader};

verus! {

/// A vault file that parsed, holding its own bytes.
pub struct ParsedFile {
    pub bytes: Vec<u8>,
    pub header: VaultHeader,
    pub payload_nonce: [u8; NONCE_LEN],
    pub payload_total_len_minus_tag: usize,
}

impl ParsedFile {
    /// The file's bytes.
    pub open spec fn raw(&self) -> Seq<u8> {
        self.bytes@
    }

    /// What the file's bytes parse to.
    pub open spec fn model(&self) -> ParsedModel {
        spec_parse(self.raw())->Ok_0
    }

    /// The public fields agree with what the bytes parse to.
    pub open spec fn wf(&self) -> bool {
        &&& spec_parse(self.raw()) is Ok
        &&& self.model().header == self.header@
        &&& self.model().payload_nonce == self.payload_nonce@
        &&& self.payload_total_len_minus_tag + TAG_LEN == self.model().payload_total_len
    }

    pub fn bytes(&self) -> (r: &[u8])
        ensures
            r@ == self.raw(),
    {
        self.bytes.as_slice()
    }

    pub fn payload_ciphertext_offset(&self) -> (r: usize)
        requires
            self.wf(),
        ensures
            r == self.header@.len() + 8 + NONCE_LEN,
    {
        proof { self.lemma_layout(); }
        self.header.header_len() + 8 + NONCE_LEN
    }

    pub fn payload_ciphertext(&self) -> (r: &[u8])
        requires
            self.wf(),
        ensures
            r@ == self.model().payload_ciphertext,
    {
        proof { self.lemma_layout(); }
        let off = self.payload_ciphertext_offset();
        vstd::slice::slice_subrange(self.bytes.as_slice(), off, self.bytes.len())
    }

    /// The associated data of slot `index`: the file up to its wrapped key.
    pub fn slot_aad(&self, index: usize) -> (r: &[u8])
        requires
            spec_wrapped_dek_offset(index as int) <= self.raw().len(),
        ensures
            r@ == self.raw().subrange(0, spec_wrapped_dek_offset(index as int)),
    {
        let _len = self.bytes.len();
        vstd::slice::slice_subrange(self.bytes.as_slice(), 0, crate::vault::format::slot_wrapped_dek_offset(index))
    }

    /// The associated data of the payload: the whole header.
    pub fn payload_aad(&self) -> (r: &[u8])
        requires
            self.wf(),
        ensures
            r@ == self.raw().subrange(0, self.header@.len()),
    {
        proof { self.lemma_layout(); }
        vstd::slice::slice_subrange(self.bytes.as_slice(), 0, self.header.header_len())
    }

    proof fn lemma_layout(&self)
        requires
            self.wf(),
        ensures
            crate::vault::format::slot_count_fits(self.header@.slots.len() as int),
            self.header@.slots.len() == self.header.slots@.len(),
            self.header@.len() + 8 + NONCE_LEN + self.model().payload_ciphertext.len() == self.raw().len(),
            self.raw().len() <= usize::MAX,
    {
        let b = self.raw();
        assert(crate::vault::format::parse_error(b) is None);
        let n = crate::vault::format::slot_count_at(b);
        assert(n * crate::vault::format::SLOT_LEN <= crate::vault::format::MAX_SLOT_COUNT * crate::vault::format::SLOT_LEN) by (nonlinear_arith)
            requires
                n <= crate::vault::format::MAX_SLOT_COUNT,
        ;
        assert(self.bytes@.len() <= usize::MAX);
    }
}

pub fn parse_vault(bytes: Vec<u8>) -> (r: Result<ParsedFile>)
    ensures
        match spec_parse(bytes@) {
            Err(e) => r == Err::<ParsedFile, Error>(e),
            Ok(_) => r matches Ok(f) && f.wf() && f.raw() == bytes@,
        },
{
    let (header, payload_nonce, payload_total_len) = {
        let parsed = crate::vault::format::parse(bytes.as_slice())?;
        let total = parsed.payload_total_len as usize;
        if parsed.payload_ciphertext.len() != total {
            return Err(Error::InvalidFormat("payload length mismatch"));
        }
        if total < TAG_LEN {
            return Err(Error::InvalidFormat("payload too small"));
        }
        (parsed.header, parsed.payload_nonce, total)
    };
    Ok(ParsedFile {
        bytes,
        header,
        payload_nonce,
        payload_total_len_minus_tag: payload_total_len - TAG_LEN,
    })
}

pub fn validate_vault(bytes: &[u8]) -> (r: Result<()>)
    ensures
        match spec_parse(bytes@) {
            Err(e) => r == Err::<(), Error>(e),
            Ok(_) => r == Ok::<(), Error>(()),
        },
{
    let parsed = crate::vault::format::parse(bytes)?;
    assert(parsed.header@.slots.len() == parsed.header.slots@.len());
    if parsed.header.slots.len() == 0 {
        return Err(Error::InvalidFormat("vault has no key slots"));
    }
    Ok(())
}

pub fn vault_id_of(bytes: &[u8]) -> (r: Result<[u8; 16]>)
    ensures
        match spec_parse(bytes@) {
            Err(e) => r == Err::<[u8; 16], Error>(e),
            Ok(pm) => r matches Ok(id) && id@ == pm.header.vault_id,
        },
{
    let parsed = crate::vault::format::parse(bytes)?;
    Ok(parsed.header.vault_id)
}

} // verus!
