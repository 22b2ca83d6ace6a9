//! The object model: the typed object variants and their canonical
//! on-disk byte encoding.
//!
//! Every object's canonical encoding is `"<format> <len>\0<payload>"`:
//! the lowercase format tag, one space, the exact payload byte length in
//! decimal ASCII with no leading zeros, one NUL byte, then the payload.
//! The encoding is both what is hashed for the identifier and what is
//! persisted (after compression).

use vstd::prelude::*;

use crate::bytes::bytes_eq;
use crate::bytes::copy_range;
use crate::errors::StoreError;
use crate::kvlm::KvlmModel;
use crate::kvlm::OrderedHM;
use crate::kvlm::SPACE;
use crate::kvlm::kvlm_serialize;
use crate::kvlm::model_wf;
use crate::kvlm::parse_model;
use crate::kvlm::serialize_model;

verus! {

/// The byte that ends the canonical header.
pub const NUL: u8 = 0;

/// A typed object: an opaque binary blob, or a structured metadata
/// record.
pub enum Object {
    Blob(Vec<u8>),
    Metadata(OrderedHM),
}

/// Mathematical model of a typed object.
pub enum ObjectModel {
    Blob(Seq<u8>),
    Metadata(KvlmModel),
}

impl View for Object {
    type V = ObjectModel;

    open spec fn view(&self) -> ObjectModel {
        match self {
            Object::Blob(d) => ObjectModel::Blob(d@),
            Object::Metadata(m) => ObjectModel::Metadata(m@),
        }
    }
}

/// A model is well formed when its metadata document is; blobs always
/// are.
pub open spec fn obj_wf(o: ObjectModel) -> bool {
    match o {
        ObjectModel::Blob(_) => true,
        ObjectModel::Metadata(m) => model_wf(m),
    }
}

/// The format tag of blobs.
pub open spec fn blob_tag() -> Seq<u8> {
    // the ASCII bytes of "blob"
    seq![98u8, 108u8, 111u8, 98u8]
}

/// The format tag of metadata records.
pub open spec fn commit_tag() -> Seq<u8> {
    // the ASCII bytes of "commit"
    seq![99u8, 111u8, 109u8, 109u8, 105u8, 116u8]
}

/// The format tag of an object; immutable once created, it determines
/// the payload's encoding and decoding routine.
pub open spec fn fmt_of(o: ObjectModel) -> Seq<u8> {
    match o {
        ObjectModel::Blob(_) => blob_tag(),
        ObjectModel::Metadata(_) => commit_tag(),
    }
}

/// The canonical payload: blob content verbatim, or the serialized
/// document of a metadata record.
pub open spec fn payload_of(o: ObjectModel) -> Seq<u8> {
    match o {
        ObjectModel::Blob(d) => d,
        ObjectModel::Metadata(m) => serialize_model(m),
    }
}

/// Decimal ASCII rendering of a number, without leading zeros.
pub open spec fn dec_of(n: nat) -> Seq<u8>
    decreases n,
{
    if n < 10 {
        seq![(48 + n) as u8]
    } else {
        dec_of(n / 10).push((48 + n % 10) as u8)
    }
}

/// The canonical encoding: format tag, one space, the payload length in
/// decimal, one NUL byte, then the payload.
pub open spec fn encode_of(o: ObjectModel) -> Seq<u8> {
    fmt_of(o) + seq![SPACE] + dec_of(payload_of(o).len()) + seq![NUL] + payload_of(o)
}

/// A decimal rendering is nonempty and holds ASCII digits only.
pub proof fn lemma_dec_of_digits(n: nat)
    ensures
        dec_of(n).len() >= 1,
        forall|i: int| 0 <= i < dec_of(n).len() ==> 48 <= #[trigger] dec_of(n)[i] <= 57,
    decreases n,
{
    if n >= 10 {
        lemma_dec_of_digits(n / 10);
    }
}

/// The numeric value of a digit string.
pub open spec fn dec_val(s: Seq<u8>) -> nat
    decreases s.len(),
{
    if s.len() == 0 {
        0
    } else {
        dec_val(s.drop_last()) * 10 + (if 48 <= s.last() <= 57 {
            (s.last() - 48) as nat
        } else {
            0
        })
    }
}

/// Whether every byte is an ASCII digit.
pub open spec fn all_digits(s: Seq<u8>) -> bool {
    forall|i: int| 0 <= i < s.len() ==> 48 <= #[trigger] s[i] <= 57
}

/// Reading back a rendered decimal gives the number.
pub proof fn lemma_dec_val_of(n: nat)
    ensures
        dec_val(dec_of(n)) == n,
    decreases n,
{
    if n < 10 {
        let s = dec_of(n);
        assert(s.len() == 1);
        assert(s.last() == (48 + n) as u8);
        assert(s.drop_last() =~= Seq::<u8>::empty());
        assert(dec_val(s.drop_last()) == 0);
        assert(dec_val(s) == (s.last() - 48) as nat);
    } else {
        lemma_dec_val_of(n / 10);
        assert(dec_of(n).drop_last() =~= dec_of(n / 10));
        assert(dec_val(dec_of(n)) == (n / 10) * 10 + n % 10);
        assert((n / 10) * 10 + n % 10 == n) by (nonlinear_arith);
    }
}

/// Decimal ASCII rendering of a length.
fn usize_to_dec(n: usize) -> (r: Vec<u8>)
    ensures
        r@ == dec_of(n as nat),
    decreases n,
{
    if n < 10 {
        let mut v: Vec<u8> = Vec::new();
        v.push(48 + n as u8);
        proof {
            assert(v@ =~= dec_of(n as nat));
        }
        v
    } else {
        let mut v = usize_to_dec(n / 10);
        v.push(48 + (n % 10) as u8);
        v
    }
}

/// The exec bytes of the blob tag.
pub(crate) fn blob_tag_vec() -> (r: Vec<u8>)
    ensures
        r@ == blob_tag(),
{
    let mut v: Vec<u8> = Vec::new();
    v.push(98);
    v.push(108);
    v.push(111);
    v.push(98);
    proof {
        assert(v@ =~= blob_tag());
    }
    v
}

/// The exec bytes of the commit tag.
pub(crate) fn commit_tag_vec() -> (r: Vec<u8>)
    ensures
        r@ == commit_tag(),
{
    let mut v: Vec<u8> = Vec::new();
    v.push(99);
    v.push(111);
    v.push(109);
    v.push(109);
    v.push(105);
    v.push(116);
    proof {
        assert(v@ =~= commit_tag());
    }
    v
}

/// Reconstructing an object from its three framing fields: the declared
/// length must equal the actual payload length, and the format tag picks
/// the variant; an unknown tag is unsupported.
pub open spec fn decode_of(fmt: Seq<u8>, declared: nat, payload: Seq<u8>) -> Result<
    ObjectModel,
    StoreError,
> {
    if declared != payload.len() {
        Err(StoreError::MalformedObject)
    } else if fmt == blob_tag() {
        Ok(ObjectModel::Blob(payload))
    } else if fmt == commit_tag() {
        match parse_model(payload) {
            Some(m) => Ok(ObjectModel::Metadata(m)),
            None => Err(StoreError::MalformedObject),
        }
    } else {
        Err(StoreError::UnsupportedFormat)
    }
}

impl Object {
    /// The format tag bytes of this object.
    pub fn fmt(&self) -> (r: Vec<u8>)
        ensures
            r@ == fmt_of(self@),
    {
        match self {
            Object::Blob(_) => blob_tag_vec(),
            Object::Metadata(_) => commit_tag_vec(),
        }
    }

    /// The canonical payload bytes of this object.
    pub fn payload(&self) -> (r: Vec<u8>)
        ensures
            r@ == payload_of(self@),
    {
        match self {
            Object::Blob(d) => {
                let r = copy_range(d, 0, d.len());
                proof {
                    assert(d@.subrange(0, d@.len() as int) =~= d@);
                }
                r
            },
            Object::Metadata(m) => kvlm_serialize(m),
        }
    }

    /// The canonical encoding of this object.
    pub fn encode(&self) -> (r: Vec<u8>)
        ensures
            r@ == encode_of(self@),
    {
        let mut out = self.fmt();
        out.push(SPACE);
        let mut payload = self.payload();
        let mut lenb = usize_to_dec(payload.len());
        out.append(&mut lenb);
        out.push(NUL);
        out.append(&mut payload);
        proof {
            assert(out@ =~= encode_of(self@));
        }
        out
    }

    /// Reconstruct an object from already-split framing fields.
    ///
    /// Fails with [`StoreError::MalformedObject`] exactly when the
    /// declared length differs from the payload's actual length or a
    /// metadata payload does not parse, and with
    /// [`StoreError::UnsupportedFormat`] exactly when the tag names no
    /// supported kind.
    pub fn decode(fmt: &Vec<u8>, declared_len: usize, payload: Vec<u8>) -> (r: Result<
        Object,
        StoreError,
    >)
        ensures
            match r {
                Ok(o) => decode_of(fmt@, declared_len as nat, payload@) == Ok::<
                    ObjectModel,
                    StoreError,
                >(o@),
                Err(e) => decode_of(fmt@, declared_len as nat, payload@) == Err::<
                    ObjectModel,
                    StoreError,
                >(e),
            },
    {
        if payload.len() != declared_len {
            return Err(StoreError::MalformedObject);
        }
        if bytes_eq(fmt, &blob_tag_vec()) {
            return Ok(Object::Blob(payload));
        }
        if bytes_eq(fmt, &commit_tag_vec()) {
            return match crate::kvlm::kvlm_parse(&payload) {
                Ok(m) => Ok(Object::Metadata(m)),
                Err(e) => Err(e),
            };
        }
        Err(StoreError::UnsupportedFormat)
    }
}

} // verus!
