//! The signatures that go back to the companion app.
//!
//! ```text
//! header       magic "KSSN", version u8 (1), number of signatures u8
//! signature    input index u8, sighash type u8, 64 bytes
//! ```
use crate::bytes;
use crate::wallet::cursor;
use crate::wallet::cursor::{ByteReader, ByteWriter};
use crate::wallet::pskt;
use crate::wallet::pskt::PsktError;
use crate::wallet::transaction::SigHashType;
use vstd::prelude::*;

verus! {

/// Most signatures in a response: one per input.
pub const MAX_SIGNATURES: usize = 8;

/// The signature of one input.
#[derive(Debug, Clone)]
#[verifier::ext_equal]
pub struct InputSignature {
    pub input_index: u8,
    pub sighash_type: SigHashType,
    pub signature: [u8; 64],
}

impl InputSignature {
    /// The unused slot.
    pub open spec fn blank() -> InputSignature {
        InputSignature {
            input_index: 0,
            sighash_type: SigHashType::All,
            signature: bytes::zero_array(),
        }
    }

    fn empty() -> (r: Self)
        ensures
            r == InputSignature::blank(),
    {
        InputSignature { input_index: 0, sighash_type: SigHashType::All, signature: [0u8; 64] }
    }
}

/// The signatures of a transaction; the first `num_signatures` slots count.
#[derive(Debug)]
#[verifier::ext_equal]
pub struct SignedResponse {
    pub signatures: [InputSignature; MAX_SIGNATURES],
    pub num_signatures: usize,
}

/// "KSSN".
pub open spec fn response_magic() -> Seq<u8> {
    seq![0x4Bu8, 0x53u8, 0x53u8, 0x4Eu8]
}

/// One signature, field by field.
pub open spec fn signature_fields(sig: InputSignature) -> Seq<Seq<u8>> {
    seq![seq![sig.input_index]] + (seq![seq![sig.sighash_type.byte()]] + seq![sig.signature@])
}

/// The signatures from `i` to `n`.
pub open spec fn signatures_fields(r: SignedResponse, i: int, n: int) -> Seq<Seq<u8>>
    decreases n - i,
{
    if i >= n {
        Seq::empty()
    } else {
        signature_fields(r.signatures@[i]) + signatures_fields(r, i + 1, n)
    }
}

/// A response, field by field.
pub open spec fn response_fields(r: SignedResponse) -> Seq<Seq<u8>> {
    seq![response_magic()] + (seq![seq![1u8]] + (seq![seq![r.num_signatures as u8]]
        + signatures_fields(r, 0, r.num_signatures as int)))
}

/// A response, encoded.
pub open spec fn response_bytes(r: SignedResponse) -> Seq<u8> {
    response_fields(r).flatten()
}

/// The error in the records from `i` to `n`, each 66 bytes long.
pub open spec fn records_error(data: Seq<u8>, i: int, n: int) -> Option<PsktError>
    decreases n - i,
{
    let at = 6 + 66 * i;
    if i >= n {
        None
    } else if at + 2 > data.len() {
        Some(PsktError::BufferTooShort)
    } else if SigHashType::of_byte(data[at + 1]) is None {
        Some(PsktError::InvalidSigHashType)
    } else if at + 66 > data.len() {
        Some(PsktError::BufferTooShort)
    } else {
        records_error(data, i + 1, n)
    }
}

/// The error in an encoded response.
pub open spec fn response_error(data: Seq<u8>) -> Option<PsktError> {
    if data.len() < 4 {
        Some(PsktError::BufferTooShort)
    } else if data.take(4) != response_magic() {
        Some(PsktError::InvalidMagic)
    } else if data.len() < 5 {
        Some(PsktError::BufferTooShort)
    } else if data[4] != 1 {
        Some(PsktError::UnsupportedVersion)
    } else if data.len() < 6 {
        Some(PsktError::BufferTooShort)
    } else if data[5] > MAX_SIGNATURES {
        Some(PsktError::TooManyInputs)
    } else {
        records_error(data, 0, data[5] as int)
    }
}

/// Record `i` of an encoded response, and a blank past the last.
pub open spec fn record(data: Seq<u8>, i: int) -> InputSignature {
    let at = 6 + 66 * i;
    if i < data[5] {
        InputSignature {
            input_index: data[at],
            sighash_type: SigHashType::of_byte(data[at + 1]).unwrap(),
            signature: bytes::array_of(data.subrange(at + 2, at + 66)),
        }
    } else {
        InputSignature::blank()
    }
}

/// What a sound encoded response holds.
pub open spec fn response_value(data: Seq<u8>) -> SignedResponse {
    SignedResponse {
        signatures: [
            record(data, 0),
            record(data, 1),
            record(data, 2),
            record(data, 3),
            record(data, 4),
            record(data, 5),
            record(data, 6),
            record(data, 7),
        ],
        num_signatures: data[5] as usize,
    }
}

impl SignedResponse {
    /// No signatures.
    pub open spec fn blank() -> SignedResponse {
        SignedResponse {
            signatures: [
                InputSignature::blank(),
                InputSignature::blank(),
                InputSignature::blank(),
                InputSignature::blank(),
                InputSignature::blank(),
                InputSignature::blank(),
                InputSignature::blank(),
                InputSignature::blank(),
            ],
            num_signatures: 0,
        }
    }

    /// No signatures.
    pub fn new() -> (r: Self)
        ensures
            r == SignedResponse::blank(),
    {
        SignedResponse {
            signatures: [
                InputSignature::empty(),
                InputSignature::empty(),
                InputSignature::empty(),
                InputSignature::empty(),
                InputSignature::empty(),
                InputSignature::empty(),
                InputSignature::empty(),
                InputSignature::empty(),
            ],
            num_signatures: 0,
        }
    }

    /// This response with one more signature.
    pub open spec fn plus(self, sig: InputSignature) -> SignedResponse {
        SignedResponse {
            signatures: vstd::array::spec_array_update(
                self.signatures,
                self.num_signatures as int,
                sig,
            ),
            num_signatures: (self.num_signatures + 1) as usize,
        }
    }

    /// Adds a signature. Fails, and changes nothing, when there is no room.
    pub fn add_signature(
        &mut self,
        input_index: u8,
        sighash_type: SigHashType,
        signature: &[u8; 64],
    ) -> (r: Result<(), PsktError>)
        ensures
            old(self).num_signatures < MAX_SIGNATURES ==> r is Ok && *final(self) == old(
                self,
            ).plus(InputSignature { input_index, sighash_type, signature: *signature }),
            old(self).num_signatures >= MAX_SIGNATURES ==> r == Err::<(), PsktError>(
                PsktError::TooManyInputs,
            ) && *final(self) == *old(self),
    {
        if self.num_signatures >= MAX_SIGNATURES {
            return Err(PsktError::TooManyInputs);
        }
        let slot = self.num_signatures;
        self.signatures[slot] = InputSignature { input_index, sighash_type, signature: *signature };
        self.num_signatures += 1;
        Ok(())
    }

    fn write(&self, w: &mut ByteWriter) -> (r: Result<(), PsktError>)
        requires
            old(w).wf(),
            self.num_signatures <= MAX_SIGNATURES,
            old(w).todo() == response_fields(*self),
        ensures
            final(w).wf(),
            final(w).start == old(w).start,
            final(w).fields == old(w).fields,
            final(final(w).buf)@ == final(old(w).buf)@,
            r is Ok ==> final(w).todo().len() == 0,
            r matches Err(e) ==> e == PsktError::OutputBufferTooSmall && final(w).stuck(),
    {
        let magic: [u8; 4] = [0x4B, 0x53, 0x53, 0x4E];
        assert(magic@ =~= response_magic());
        w.write_bytes(magic.as_slice())?;
        w.write_u8(1)?;
        w.write_u8(self.num_signatures as u8)?;
        let mut i: usize = 0;
        while i < self.num_signatures
            invariant
                i <= self.num_signatures <= MAX_SIGNATURES,
                w.wf(),
                w.start == old(w).start,
                w.fields == old(w).fields,
                final(w.buf)@ == final(old(w).buf)@,
                w.todo() == signatures_fields(*self, i as int, self.num_signatures as int),
            decreases self.num_signatures - i,
        {
            broadcast use cursor::lemma_concat_assoc;

            let sig = &self.signatures[i];
            w.write_u8(sig.input_index)?;
            w.write_u8(sig.sighash_type.to_byte())?;
            w.write_bytes(sig.signature.as_slice())?;
            i += 1;
        }
        Ok(())
    }

    /// Serialises the response. Returns its length.
    pub fn serialize(&self, output: &mut [u8]) -> (r: Result<usize, PsktError>)
        requires
            self.num_signatures <= MAX_SIGNATURES,
        ensures
            pskt::serialized(response_fields(*self), old(output)@, final(output)@, r),
            r is Ok <==> response_bytes(*self).len() <= old(output)@.len(),
            r matches Ok(n) ==> n == response_bytes(*self).len() && final(output)@
                == response_bytes(*self) + old(output)@.skip(n as int),
            r matches Err(e) ==> e == PsktError::OutputBufferTooSmall,
    {
        let ghost fields = response_fields(*self);
        let mut w = ByteWriter::new(output, Ghost(fields));
        match self.write(&mut w) {
            Err(e) => {
                proof {
                    cursor::lemma_fitting(fields, w.next@, w.start@.len() as int);
                }
                Err(e)
            },
            Ok(()) => {
                assert(fields.take(w.next@) =~= fields);
                Ok(w.written())
            },
        }
    }

    /// Parses a response.
    pub fn parse(data: &[u8]) -> (r: Result<Self, PsktError>)
        ensures
            pskt::error_of(r) == response_error(data@),
            r matches Ok(v) ==> v == response_value(data@),
    {
        let mut r = ByteReader::new(data);
        let magic = r.read_bytes(4)?;
        let expected: [u8; 4] = [0x4B, 0x53, 0x53, 0x4E];
        assert(expected@ =~= response_magic());
        assert(magic@ =~= data@.take(4));
        if !bytes::slice_eq(magic, expected.as_slice()) {
            return Err(PsktError::InvalidMagic);
        }
        let version = r.read_u8()?;
        if version != 1 {
            return Err(PsktError::UnsupportedVersion);
        }
        let num_sigs = r.read_u8()? as usize;
        if num_sigs > MAX_SIGNATURES {
            return Err(PsktError::TooManyInputs);
        }
        let mut response = SignedResponse::new();
        response.num_signatures = num_sigs;
        let mut i: usize = 0;
        while i < num_sigs
            invariant
                i <= num_sigs <= MAX_SIGNATURES,
                num_sigs == data@[5],
                r.wf(),
                r.data == data,
                r.pos == 6 + 66 * i,
                response.num_signatures == num_sigs,
                response_error(data@) == records_error(data@, i as int, num_sigs as int),
                forall|j: int|
                    0 <= j < i ==> #[trigger] response.signatures@[j] == record(data@, j),
                forall|j: int|
                    i <= j < MAX_SIGNATURES ==> #[trigger] response.signatures@[j]
                        == InputSignature::blank(),
            decreases num_sigs - i,
        {
            response.signatures[i].input_index = r.read_u8()?;
            let sht = r.read_u8()?;
            match SigHashType::from_byte(sht) {
                Some(t) => {
                    response.signatures[i].sighash_type = t;
                },
                None => {
                    return Err(PsktError::InvalidSigHashType);
                },
            }
            let sig = r.read_bytes(64)?;
            response.signatures[i].signature = bytes::to_array(sig);
            i += 1;
        }
        proof {
            let want = response_value(data@);
            assert forall|j: int| 0 <= j < 8 implies response.signatures@[j]
                == want.signatures@[j] by {
                assert(response.signatures@[j] == record(data@, j));
            }
            assert(response.signatures =~= want.signatures);
        }
        Ok(response)
    }
}

/// A signature that is added comes behind the others, as it is, and leaves
/// them as they were.
pub proof fn law_added_signature_comes_last(r: SignedResponse, sig: InputSignature, j: int)
    requires
        r.num_signatures < 8,
        0 <= j < 8,
    ensures
        r.plus(sig).num_signatures == r.num_signatures + 1,
        r.plus(sig).signatures@[j] == if j == r.num_signatures {
            sig
        } else {
            r.signatures@[j]
        },
        SignedResponse::blank().num_signatures == 0,
{
}

} // verus!
