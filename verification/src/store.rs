//! The object store operations, as pure functions over plain values.
//!
//! Writing computes the canonical encoding, the identifier and, when
//! persisting, the compressed bytes; reading takes the stored bytes (or
//! their absence) and reconstructs the typed object. The storage
//! location is a pure function of the identifier: a directory named by
//! its first two hex characters and a file named by the remaining 38,
//! so the store needs no index. All file I/O is the caller's: these
//! functions neither read nor write any disk state.

use vstd::prelude::*;
use vstd::string::StrSliceExecFns;

use crate::bytes::bytes_eq;
use crate::bytes::copy_range;
use crate::compress::compress;
use crate::compress::decompress;
use crate::compress::inflate_of;
use crate::digest::digest_hex;
use crate::digest::digest_of;
use crate::digest::is_hex_char;
use crate::digest::lemma_hex_of_chars;
use crate::errors::StoreError;
use crate::kvlm::SPACE;
use crate::object::NUL;
use crate::object::Object;
use crate::object::ObjectModel;
use crate::object::all_digits;
use crate::object::blob_tag;
use crate::object::blob_tag_vec;
use crate::object::commit_tag;
use crate::object::commit_tag_vec;
use crate::object::dec_val;
use crate::object::decode_of;
use crate::object::encode_of;
use crate::object::payload_of;
use crate::object::fmt_of;
use crate::object::obj_wf;
use crate::object::dec_of;
use crate::object::lemma_dec_of_digits;
use crate::object::lemma_dec_val_of;
use crate::kvlm::parse_model;

verus! {

broadcast use crate::bytes::lemma_bytes_deep_view;

/// The position of the first occurrence of a byte.
pub open spec fn find_first(s: Seq<u8>, b: u8) -> Option<int>
    decreases s.len(),
{
    if s.len() == 0 {
        None
    } else if s[0] == b {
        Some(0int)
    } else {
        match find_first(s.drop_first(), b) {
            None => None,
            Some(i) => Some(i + 1),
        }
    }
}

/// What a find result means: the position holds the byte and nothing
/// earlier does; a miss means the byte occurs nowhere.
pub proof fn lemma_find_first_bounds(s: Seq<u8>, b: u8)
    ensures
        match find_first(s, b) {
            Some(i) => 0 <= i < s.len() && s[i] == b && forall|k: int| 0 <= k < i ==> s[k] != b,
            None => forall|k: int| 0 <= k < s.len() ==> s[k] != b,
        },
    decreases s.len(),
{
    if s.len() > 0 && s[0] != b {
        lemma_find_first_bounds(s.drop_first(), b);
        match find_first(s.drop_first(), b) {
            None => {
                assert forall|k: int| 0 <= k < s.len() implies s[k] != b by {
                    if k > 0 {
                        assert(s.drop_first()[k - 1] == s[k]);
                    }
                }
            },
            Some(i) => {
                assert(s[i + 1] == s.drop_first()[i]);
                assert forall|k: int| 0 <= k < i + 1 implies s[k] != b by {
                    if k > 0 {
                        assert(s.drop_first()[k - 1] == s[k]);
                    }
                }
            },
        }
    }
}

/// The first occurrence is where the witness says it is.
pub proof fn lemma_find_first_at(s: Seq<u8>, b: u8, i: int)
    requires
        0 <= i < s.len(),
        s[i] == b,
        forall|k: int| 0 <= k < i ==> s[k] != b,
    ensures
        find_first(s, b) == Some(i),
{
    lemma_find_first_bounds(s, b);
}

/// Reading the canonical framing out of decompressed bytes: the format
/// tag before the first space, the decimal length field before the first
/// NUL after that space, and the payload after the NUL. A missing space,
/// missing NUL, empty or non-numeric or machine-exceeding length field
/// is a framing violation; the rest is the object decoder's verdict.
pub open spec fn read_of(raw: Seq<u8>) -> Result<ObjectModel, StoreError> {
    match find_first(raw, SPACE) {
        None => Err(StoreError::MalformedObject),
        Some(i) => {
            let fmt = raw.take(i);
            let rest = raw.skip(i + 1);
            match find_first(rest, NUL) {
                None => Err(StoreError::MalformedObject),
                Some(j) => {
                    let lenf = rest.take(j);
                    let payload = rest.skip(j + 1);
                    if lenf.len() == 0 || !all_digits(lenf) || dec_val(lenf) > usize::MAX {
                        Err(StoreError::MalformedObject)
                    } else {
                        decode_of(fmt, dec_val(lenf), payload)
                    }
                },
            }
        },
    }
}

/// What reading yields from what the store holds at a location: nothing
/// there is a missing object, bytes that do not decompress are a corrupt
/// stream, and decompressed bytes are read by the canonical framing.
pub open spec fn stored_read_of(data: Option<Seq<u8>>) -> Result<ObjectModel, StoreError> {
    match data {
        None => Err(StoreError::ObjectNotFound),
        Some(c) => match inflate_of(c) {
            None => Err(StoreError::CorruptStream),
            Some(raw) => read_of(raw),
        },
    }
}

/// The identifier of an object: the digest of its canonical encoding.
pub open spec fn id_of(o: ObjectModel) -> Seq<char> {
    digest_of(encode_of(o))
}

/// A valid object identifier: exactly 40 lowercase hex characters.
pub open spec fn is_id(s: Seq<char>) -> bool {
    s.len() == 40 && forall|i: int| 0 <= i < s.len() ==> is_hex_char(#[trigger] s[i])
}

/// The storage location of an identifier: the directory of its first
/// two characters and the file of its remaining 38.
pub open spec fn loc_of(id: Seq<char>) -> (Seq<char>, Seq<char>) {
    (id.take(2), id.skip(2))
}

/// Find the first occurrence of a byte.
fn find_byte(s: &Vec<u8>, b: u8) -> (r: Option<usize>)
    ensures
        match r {
            Some(i) => find_first(s@, b) == Some(i as int),
            None => find_first(s@, b) is None,
        },
{
    let mut i: usize = 0;
    while i < s.len()
        invariant
            i <= s@.len(),
            forall|k: int| 0 <= k < i ==> s@[k] != b,
        decreases s@.len() - i,
    {
        if s[i] == b {
            proof {
                lemma_find_first_at(s@, b, i as int);
            }
            return Some(i);
        }
        i += 1;
    }
    proof {
        lemma_find_first_bounds(s@, b);
    }
    None
}

/// Read a decimal length field. `None` exactly when the field is empty,
/// holds a non-digit, or denotes a value over the machine limit.
fn parse_len(s: &Vec<u8>) -> (r: Option<usize>)
    ensures
        match r {
            Some(v) => s@.len() > 0 && all_digits(s@) && dec_val(s@) == v,
            None => s@.len() == 0 || !all_digits(s@) || dec_val(s@) > usize::MAX,
        },
{
    if s.len() == 0 {
        return None;
    }
    let mut acc: usize = 0;
    let mut i: usize = 0;
    while i < s.len()
        invariant
            i <= s@.len(),
            s@.len() > 0,
            forall|k: int| 0 <= k < i ==> 48 <= #[trigger] s@[k] <= 57,
            acc == dec_val(s@.take(i as int)),
        decreases s@.len() - i,
    {
        let b = s[i];
        if b < 48 || b > 57 {
            proof {
                assert(!(48 <= s@[i as int] <= 57));
                assert(!all_digits(s@));
            }
            return None;
        }
        proof {
            assert(s@.take(i + 1).drop_last() =~= s@.take(i as int));
            assert(s@.take(i + 1).last() == s@[i as int]);
        }
        let d = (b - 48) as usize;
        let next = match acc.checked_mul(10) {
            Some(m) => m.checked_add(d),
            None => None,
        };
        match next {
            Some(v) => {
                acc = v;
            },
            None => {
                proof {
                    assert(dec_val(s@.take(i + 1)) > usize::MAX);
                    lemma_dec_val_take_le(s@, i + 1);
                }
                return None;
            },
        }
        i += 1;
    }
    proof {
        assert(s@.take(s@.len() as int) =~= s@);
    }
    Some(acc)
}

/// A prefix of a digit string never denotes more than the whole string.
proof fn lemma_dec_val_take_le(s: Seq<u8>, t: int)
    requires
        0 <= t <= s.len(),
    ensures
        dec_val(s.take(t)) <= dec_val(s),
    decreases s.len() - t,
{
    if t < s.len() {
        lemma_dec_val_take_le(s, t + 1);
        assert(s.take(t + 1).drop_last() =~= s.take(t));
        assert(dec_val(s.take(t + 1)) == dec_val(s.take(t)) * 10 + (if 48 <= s.take(t + 1).last()
            <= 57 {
            (s.take(t + 1).last() - 48) as nat
        } else {
            0
        }));
        assert(dec_val(s.take(t)) * 10 >= dec_val(s.take(t)));
    } else {
        assert(s.take(t) =~= s);
    }
}


/// Read an object back from what the store holds at its location.
///
/// `None` stands for an absent file and fails with
/// [`StoreError::ObjectNotFound`]; stored bytes are decompressed
/// (propagating [`StoreError::CorruptStream`]), split along the
/// canonical framing, validated, and decoded. No state is touched on
/// any path.
pub fn object_read(data: Option<Vec<u8>>) -> (r: Result<Object, StoreError>)
    ensures
        match r {
            Ok(o) => stored_read_of(data.deep_view()) == Ok::<ObjectModel, StoreError>(o@),
            Err(e) => stored_read_of(data.deep_view()) == Err::<ObjectModel, StoreError>(e),
        },
{
    let c = match data {
        None => {
            return Err(StoreError::ObjectNotFound);
        },
        Some(c) => c,
    };
    let raw = match decompress(&c) {
        Ok(rw) => rw,
        Err(e) => {
            return Err(e);
        },
    };
    let sp = match find_byte(&raw, SPACE) {
        Some(i) => i,
        None => {
            return Err(StoreError::MalformedObject);
        },
    };
    proof {
        lemma_find_first_bounds(raw@, SPACE);
    }
    let fmt = copy_range(&raw, 0, sp);
    let rest = copy_range(&raw, sp + 1, raw.len());
    proof {
        assert(fmt@ =~= raw@.take(sp as int));
        assert(rest@ =~= raw@.skip(sp + 1));
    }
    let nl = match find_byte(&rest, NUL) {
        Some(j) => j,
        None => {
            return Err(StoreError::MalformedObject);
        },
    };
    proof {
        lemma_find_first_bounds(rest@, NUL);
    }
    let lenf = copy_range(&rest, 0, nl);
    let payload = copy_range(&rest, nl + 1, rest.len());
    proof {
        assert(lenf@ =~= rest@.take(nl as int));
        assert(payload@ =~= rest@.skip(nl + 1));
    }
    let declared = match parse_len(&lenf) {
        Some(v) => v,
        None => {
            return Err(StoreError::MalformedObject);
        },
    };
    Object::decode(&fmt, declared, payload)
}

/// Write an object: compute its canonical encoding and identifier, and,
/// only when `persist` is set, the compressed bytes to place at the
/// identifier's location. With `persist` unset nothing is produced to
/// store, which makes identifier computation a side-effect-free mode.
pub fn object_write(obj: &Object, persist: bool) -> (r: (String, Option<Vec<u8>>))
    ensures
        r.0@ == id_of(obj@),
        is_id(r.0@),
        match r.1 {
            Some(c) => persist && inflate_of(c@) == Some(encode_of(obj@)),
            None => !persist,
        },
{
    let enc = obj.encode();
    let id = digest_hex(&enc);
    proof {
        lemma_hex_of_chars(crate::digest::sha1_of(enc@));
    }
    if persist {
        let c = compress(&enc);
        (id, Some(c))
    } else {
        (id, None)
    }
}

/// The object denoted by caller-supplied payload bytes under a format
/// tag: the payload of a blob verbatim, the parsed document of a
/// metadata record, and no object under an unknown tag.
pub open spec fn obj_of(data: Seq<u8>, fmt: Seq<u8>) -> Result<ObjectModel, StoreError> {
    if fmt == blob_tag() {
        Ok(ObjectModel::Blob(data))
    } else if fmt == commit_tag() {
        match parse_model(data) {
            Some(m) => Ok(ObjectModel::Metadata(m)),
            None => Err(StoreError::MalformedObject),
        }
    } else {
        Err(StoreError::UnsupportedFormat)
    }
}

/// Hash (and optionally prepare for persisting) caller-supplied payload
/// bytes as a typed object.
///
/// The returned pair is the identifier and, exactly when `write` is
/// set, the compressed canonical encoding for the caller to place at
/// the identifier's location. An unknown tag fails with
/// [`StoreError::UnsupportedFormat`]; metadata bytes that do not parse
/// fail with [`StoreError::MalformedObject`].
pub fn object_hash(data: Vec<u8>, fmt: &Vec<u8>, write: bool) -> (r: Result<
    (String, Option<Vec<u8>>),
    StoreError,
>)
    ensures
        match obj_of(data@, fmt@) {
            Ok(o) => r matches Ok(p) && p.0@ == id_of(o) && is_id(p.0@) && (match p.1 {
                Some(c) => write && inflate_of(c@) == Some(encode_of(o)),
                None => !write,
            }),
            Err(e) => r matches Err(e2) && e2 == e,
        },
{
    if bytes_eq(fmt, &blob_tag_vec()) {
        let o = Object::Blob(data);
        Ok(object_write(&o, write))
    } else if bytes_eq(fmt, &commit_tag_vec()) {
        match crate::kvlm::kvlm_parse(&data) {
            Ok(m) => {
                let o = Object::Metadata(m);
                Ok(object_write(&o, write))
            },
            Err(e) => Err(e),
        }
    } else {
        Err(StoreError::UnsupportedFormat)
    }
}

/// Resolve a user-supplied name to an object identifier.
///
/// Only a literal identifier resolves: a name that already is 40
/// lowercase hex characters is returned verbatim; anything else fails
/// with [`StoreError::UnresolvedName`].
pub fn object_find(name: &str) -> (r: Result<String, StoreError>)
    ensures
        match r {
            Ok(id) => id@ == name@ && is_id(name@),
            Err(e) => e == StoreError::UnresolvedName && !is_id(name@),
        },
{
    let n = name.unicode_len();
    if n != 40 {
        return Err(StoreError::UnresolvedName);
    }
    let mut i: usize = 0;
    while i < n
        invariant
            n == name@.len(),
            n == 40,
            i <= n,
            forall|k: int| 0 <= k < i ==> is_hex_char(#[trigger] name@[k]),
        decreases n - i,
    {
        let c = name.get_char(i);
        let u = c as u32;
        if !((48 <= u && u <= 57) || (97 <= u && u <= 102)) {
            proof {
                assert(!is_hex_char(name@[i as int]));
            }
            return Err(StoreError::UnresolvedName);
        }
        proof {
            assert(is_hex_char(name@[i as int]));
        }
        i += 1;
    }
    Ok(name.to_owned())
}

/// The storage location of an identifier: the two-character directory
/// name and the 38-character file name.
pub fn object_loc(id: &str) -> (r: (String, String))
    requires
        is_id(id@),
    ensures
        r.0@ == loc_of(id@).0,
        r.1@ == loc_of(id@).1,
{
    proof {
        assert(vstd::string::is_ascii(id)) by {
            assert forall|i: int| 0 <= i < id@.len() implies '\0' <= #[trigger] id@[i]
                <= '\u{7f}' by {
                assert(is_hex_char(id@[i]));
            }
        }
    }
    let d = id.substring_ascii(0, 2);
    let f = id.substring_ascii(2, 40);
    proof {
        assert(d@ =~= id@.take(2));
        assert(f@ =~= id@.skip(2));
    }
    (d.to_owned(), f.to_owned())
}

/// The bytes to display for a stored object: its canonical payload,
/// reconstructed from what the store holds (or does not hold) at the
/// object's location. Blobs display their content verbatim; metadata
/// records display their re-serialized document.
pub fn cat_file_cmd(data: Option<Vec<u8>>) -> (r: Result<Vec<u8>, StoreError>)
    ensures
        match stored_read_of(data.deep_view()) {
            Ok(o) => r matches Ok(out) && out@ == payload_of(o),
            Err(e) => r matches Err(e2) && e2 == e,
        },
{
    match object_read(data) {
        Ok(o) => Ok(o.payload()),
        Err(e) => Err(e),
    }
}

/// Determinism of content addressing: the identifier is a pure function
/// of the canonical encoding, so repeated computations agree and two
/// objects with byte-identical canonical encodings always receive the
/// same identifier.
pub proof fn lemma_id_deterministic(o1: ObjectModel, o2: ObjectModel)
    requires
        encode_of(o1) == encode_of(o2),
    ensures
        id_of(o1) == id_of(o2),
{
}

/// Store round trip: the canonical encoding of a well-formed object,
/// split along its framing and decoded, reconstructs the object exactly
/// — the same format tag and the same canonical payload.
pub proof fn lemma_store_round_trip(o: ObjectModel)
    requires
        obj_wf(o),
        payload_of(o).len() <= usize::MAX,
    ensures
        read_of(encode_of(o)) == Ok::<ObjectModel, StoreError>(o),
{
    let fmt = fmt_of(o);
    let payload = payload_of(o);
    let dec = dec_of(payload.len());
    let enc = encode_of(o);
    lemma_dec_of_digits(payload.len());
    assert(fmt == blob_tag() || fmt == commit_tag());
    assert(forall|i: int| 0 <= i < fmt.len() ==> #[trigger] fmt[i] != SPACE);
    assert(enc[fmt.len() as int] == SPACE);
    assert forall|k: int| 0 <= k < fmt.len() implies enc[k] != SPACE by {
        assert(enc[k] == fmt[k]);
    }
    lemma_find_first_at(enc, SPACE, fmt.len() as int);
    assert(enc.take(fmt.len() as int) =~= fmt);
    let rest = enc.skip(fmt.len() as int + 1);
    assert(rest =~= dec + seq![NUL] + payload);
    assert(rest[dec.len() as int] == NUL);
    assert forall|k: int| 0 <= k < dec.len() implies rest[k] != NUL by {
        assert(rest[k] == dec[k]);
        assert(48 <= dec[k] <= 57);
    }
    lemma_find_first_at(rest, NUL, dec.len() as int);
    assert(rest.take(dec.len() as int) =~= dec);
    assert(rest.skip(dec.len() as int + 1) =~= payload);
    lemma_dec_val_of(payload.len());
    assert(all_digits(dec));
    match o {
        ObjectModel::Blob(d) => {
            assert(decode_of(fmt, dec_val(dec), payload) == Ok::<ObjectModel, StoreError>(o));
        },
        ObjectModel::Metadata(m) => {
            assert(fmt != blob_tag()) by {
                assert(blob_tag().len() == 4 && commit_tag().len() == 6);
            }
            crate::kvlm::lemma_kvlm_round_trip(m);
            assert(decode_of(fmt, dec_val(dec), payload) == Ok::<ObjectModel, StoreError>(o));
        },
    }
}

/// Idempotent write: a write of an object goes to the location derived
/// from its identifier, which is a pure function of the object (see
/// [`lemma_id_deterministic`]), so a second write of the same object
/// overwrites the same single file; and any two compressed streams a
/// write may produce for that object decompress to the same canonical
/// bytes and read back as the same object. The store after the second
/// write is thus observably the store after the first: no duplicate and
/// no corrupted file.
pub proof fn lemma_write_idempotent(o: ObjectModel)
    requires
        obj_wf(o),
        payload_of(o).len() <= usize::MAX,
    ensures
        forall|c1: Seq<u8>, c2: Seq<u8>|
            #![trigger inflate_of(c1), inflate_of(c2)]
            inflate_of(c1) == Some(encode_of(o)) && inflate_of(c2) == Some(encode_of(o))
                ==> stored_read_of(Some(c1)) == stored_read_of(Some(c2)) && stored_read_of(
                Some(c1),
            ) == Ok::<ObjectModel, StoreError>(o),
{
    lemma_store_round_trip(o);
}

} // verus!
