use gust::compress::compress;
use gust::compress::decompress;
use gust::errors::StoreError;
use gust::kvlm::OrderedHM;
use gust::object::Object;
use gust::store::cat_file_cmd;
use gust::store::object_find;
use gust::store::object_hash;
use gust::store::object_loc;
use gust::store::object_read;
use gust::store::object_write;

// the well-known identifier of the blob holding "hello\n"
const HELLO_ID: &str = "ce013625030ba8dba906f756967f9e9ca394464a";

#[test]
fn blob_canonical_encoding() {
    let o = Object::Blob(b"hello\n".to_vec());
    assert_eq!(o.encode(), b"blob 6\x00hello\n".to_vec());
}

#[test]
fn blob_identifier_matches_digest_of_encoding() {
    let o = Object::Blob(b"hello\n".to_vec());
    let (id, out) = object_write(&o, false);
    assert_eq!(id, HELLO_ID);
    assert!(out.is_none());
}

#[test]
fn empty_blob_identifier() {
    // the digest of "blob 0\0", as any compatible tool computes it
    let (id, _) = object_write(&Object::Blob(Vec::new()), false);
    assert_eq!(id, "e69de29bb2d1d6434b8b29ae775ad8c2e48c5391");
}

#[test]
fn identifier_is_deterministic() {
    let o1 = Object::Blob(b"same bytes".to_vec());
    let o2 = Object::Blob(b"same bytes".to_vec());
    let (id1, _) = object_write(&o1, false);
    let (id1b, _) = object_write(&o1, false);
    let (id2, _) = object_write(&o2, false);
    assert_eq!(id1, id1b);
    assert_eq!(id1, id2);
}

#[test]
fn write_then_read_reconstructs_blob() {
    let o = Object::Blob(b"some\x00binary\xffpayload\n".to_vec());
    let (_, stored) = object_write(&o, true);
    let back = object_read(Some(stored.unwrap())).unwrap();
    assert_eq!(back.fmt(), o.fmt());
    assert_eq!(back.payload(), o.payload());
}

#[test]
fn write_then_read_reconstructs_commit() {
    let mut m = OrderedHM::new();
    m.append(b"tree".to_vec(), b"29ff16c9c14e2652b22f8b78bb08a5a07930c147".to_vec());
    m.append(b"gpgsig".to_vec(), b"line1\nline2\nline3".to_vec());
    m.set_message(b"A message.\n".to_vec());
    let o = Object::Metadata(m);
    let (_, stored) = object_write(&o, true);
    let back = object_read(Some(stored.unwrap())).unwrap();
    assert_eq!(back.fmt(), b"commit".to_vec());
    assert_eq!(back.payload(), o.payload());
}

#[test]
fn idempotent_write() {
    let o = Object::Blob(b"written twice".to_vec());
    let (id1, s1) = object_write(&o, true);
    let (id2, s2) = object_write(&o, true);
    assert_eq!(id1, id2);
    assert_eq!(object_loc(&id1), object_loc(&id2));
    // both stored streams decompress to the same canonical bytes
    assert_eq!(decompress(&s1.unwrap()).unwrap(), decompress(&s2.unwrap()).unwrap());
}

#[test]
fn read_of_missing_object_fails() {
    assert!(matches!(object_read(None), Err(StoreError::ObjectNotFound)));
}

#[test]
fn read_of_garbage_is_corrupt_stream() {
    let garbage = b"not a zlib stream at all".to_vec();
    assert!(matches!(object_read(Some(garbage)), Err(StoreError::CorruptStream)));
}

#[test]
fn read_of_uncompressed_encoding_is_corrupt_stream() {
    // the canonical bytes must be stored compressed; raw they are no
    // valid stream (this also fails if compression handed its input
    // back unchanged)
    let raw = b"blob 6\x00hello\n".to_vec();
    assert!(matches!(object_read(Some(raw)), Err(StoreError::CorruptStream)));
}

#[test]
fn declared_length_must_match() {
    let stored = compress(&b"blob 7\x00hello\n".to_vec());
    assert!(matches!(object_read(Some(stored)), Err(StoreError::MalformedObject)));
    let stored = compress(&b"blob 5\x00hello\n".to_vec());
    assert!(matches!(object_read(Some(stored)), Err(StoreError::MalformedObject)));
}

#[test]
fn framing_violations_are_malformed() {
    // no space
    let stored = compress(&b"blob6\x00hello\n".to_vec());
    assert!(matches!(object_read(Some(stored)), Err(StoreError::MalformedObject)));
    // no NUL
    let stored = compress(&b"blob 6 hello\n".to_vec());
    assert!(matches!(object_read(Some(stored)), Err(StoreError::MalformedObject)));
    // non-numeric length
    let stored = compress(&b"blob x\x00hello\n".to_vec());
    assert!(matches!(object_read(Some(stored)), Err(StoreError::MalformedObject)));
    // empty length field
    let stored = compress(&b"blob \x00hello\n".to_vec());
    assert!(matches!(object_read(Some(stored)), Err(StoreError::MalformedObject)));
}

#[test]
fn unknown_format_tag_is_unsupported() {
    let stored = compress(&b"tree 3\x00abc".to_vec());
    assert!(matches!(object_read(Some(stored)), Err(StoreError::UnsupportedFormat)));
}

#[test]
fn decode_rejects_length_mismatch() {
    let r = Object::decode(&b"blob".to_vec(), 7, b"hello\n".to_vec());
    assert!(matches!(r, Err(StoreError::MalformedObject)));
}

#[test]
fn decode_dispatches_on_tag() {
    let r = Object::decode(&b"blob".to_vec(), 3, b"abc".to_vec()).unwrap();
    assert_eq!(r.payload(), b"abc".to_vec());
    let r = Object::decode(&b"commit".to_vec(), 8, b"k v\n\nmsg".to_vec()).unwrap();
    assert_eq!(r.fmt(), b"commit".to_vec());
    let r = Object::decode(&b"tag".to_vec(), 3, b"abc".to_vec());
    assert!(matches!(r, Err(StoreError::UnsupportedFormat)));
}

#[test]
fn object_hash_blob_dry_run() {
    let (id, stored) = object_hash(b"hello\n".to_vec(), &b"blob".to_vec(), false).unwrap();
    assert_eq!(id, HELLO_ID);
    assert!(stored.is_none());
}

#[test]
fn object_hash_commit_persists() {
    let data = b"tree 29ff16c9c14e2652b22f8b78bb08a5a07930c147\n\nFirst commit.\n".to_vec();
    let (_, stored) = object_hash(data.clone(), &b"commit".to_vec(), true).unwrap();
    let back = object_read(Some(stored.unwrap())).unwrap();
    assert_eq!(back.payload(), data);
}

#[test]
fn object_hash_rejects_unknown_format() {
    let r = object_hash(b"abc".to_vec(), &b"tree".to_vec(), false);
    assert!(matches!(r, Err(StoreError::UnsupportedFormat)));
}

#[test]
fn object_hash_rejects_unparsable_commit() {
    let r = object_hash(b"no separator".to_vec(), &b"commit".to_vec(), false);
    assert!(matches!(r, Err(StoreError::MalformedObject)));
}

#[test]
fn object_find_accepts_only_literal_identifiers() {
    let id = object_find(HELLO_ID).unwrap();
    assert_eq!(id, HELLO_ID);
    assert!(matches!(object_find("HEAD"), Err(StoreError::UnresolvedName)));
    assert!(matches!(object_find(""), Err(StoreError::UnresolvedName)));
    // right length, wrong alphabet
    assert!(matches!(
        object_find("CE013625030BA8DBA906F756967F9E9CA394464A"),
        Err(StoreError::UnresolvedName)
    ));
    assert!(matches!(
        object_find("ce013625030ba8dba906f756967f9e9ca394464g"),
        Err(StoreError::UnresolvedName)
    ));
    // one character short
    assert!(matches!(
        object_find("ce013625030ba8dba906f756967f9e9ca394464"),
        Err(StoreError::UnresolvedName)
    ));
}

#[test]
fn object_loc_splits_identifier() {
    let (dir, file) = object_loc(HELLO_ID);
    assert_eq!(dir, "ce");
    assert_eq!(file, "013625030ba8dba906f756967f9e9ca394464a");
}

#[test]
fn cat_file_cmd_shows_payload() {
    let o = Object::Blob(b"hello\n".to_vec());
    let (_, stored) = object_write(&o, true);
    assert_eq!(cat_file_cmd(stored).unwrap(), b"hello\n".to_vec());
    assert!(matches!(cat_file_cmd(None), Err(StoreError::ObjectNotFound)));
}

#[test]
fn cat_file_cmd_normalizes_interleaved_headers() {
    // repeated keys group at first arrival when displayed
    let data = b"a 1\nb 2\na 3\n\nmsg".to_vec();
    let (_, stored) = object_hash(data, &b"commit".to_vec(), true).unwrap();
    let shown = cat_file_cmd(stored).unwrap();
    assert_eq!(shown, b"a 1\na 3\nb 2\n\nmsg".to_vec());
}

#[test]
fn compress_round_trip() {
    for case in [&b""[..], &b"a"[..], &b"hello\n"[..], &[0u8; 1000][..]] {
        let c = compress(&case.to_vec());
        assert_eq!(decompress(&c).unwrap(), case.to_vec());
    }
}

#[test]
fn decompress_rejects_invalid_streams() {
    assert!(matches!(decompress(&Vec::new()), Err(StoreError::CorruptStream)));
    assert!(matches!(decompress(&b"\x78\x9c".to_vec()), Err(StoreError::CorruptStream)));
    // truncated valid stream
    let mut c = compress(&b"some payload to compress".to_vec());
    c.truncate(c.len() - 3);
    assert!(matches!(decompress(&c), Err(StoreError::CorruptStream)));
    // corrupted checksum
    let mut c = compress(&b"another payload".to_vec());
    let last = c.len() - 1;
    c[last] ^= 0xff;
    assert!(matches!(decompress(&c), Err(StoreError::CorruptStream)));
}

#[test]
fn identifier_shape_and_distinctness() {
    // 40 lowercase hex characters, and different payloads get different
    // identifiers (this also fails if the digest wrapper handed its
    // input back unchanged)
    let (id, _) = object_hash(b"abc".to_vec(), &b"blob".to_vec(), false).unwrap();
    assert_eq!(id.len(), 40);
    assert!(id.chars().all(|c| c.is_ascii_hexdigit() && !c.is_ascii_uppercase()));
    let (id2, _) = object_hash(b"abd".to_vec(), &b"blob".to_vec(), false).unwrap();
    assert_ne!(id, id2);
}
