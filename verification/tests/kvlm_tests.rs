use gust::errors::StoreError;
use gust::kvlm::OrderedHM;
use gust::kvlm::kvlm_parse;
use gust::kvlm::kvlm_serialize;

fn doc(headers: &[(&str, &str)], message: &str) -> OrderedHM {
    let mut m = OrderedHM::new();
    for (k, v) in headers {
        m.append(k.as_bytes().to_vec(), v.as_bytes().to_vec());
    }
    m.set_message(message.as_bytes().to_vec());
    m
}

#[test]
fn serialize_empty_document() {
    let m = OrderedHM::new();
    assert_eq!(kvlm_serialize(&m), b"\n".to_vec());
}

#[test]
fn parse_blank_line_only() {
    let m = kvlm_parse(&b"\n".to_vec()).unwrap();
    assert_eq!(m.num_entries(), 0);
    assert_eq!(m.message(), &Vec::<u8>::new());
}

#[test]
fn serialize_single_header_and_message() {
    let m = doc(&[("tree", "abc")], "hello\n");
    assert_eq!(kvlm_serialize(&m), b"tree abc\n\nhello\n".to_vec());
}

#[test]
fn parse_single_header_and_message() {
    let m = kvlm_parse(&b"tree abc\n\nhello\n".to_vec()).unwrap();
    assert_eq!(m.num_entries(), 1);
    assert_eq!(m.entry_at(0).key(), &b"tree".to_vec());
    assert_eq!(m.entry_at(0).values(), &vec![b"abc".to_vec()]);
    assert_eq!(m.message(), &b"hello\n".to_vec());
}

#[test]
fn continuation_line_fidelity() {
    // a value with an embedded newline gains exactly one space on its
    // continuation line, and parses back to the original two-line value
    let m = doc(&[("tree", "line1\nline2")], "");
    let raw = kvlm_serialize(&m);
    assert_eq!(raw, b"tree line1\n line2\n\n".to_vec());
    let back = kvlm_parse(&raw).unwrap();
    assert_eq!(back.get(&b"tree".to_vec()).unwrap(), &vec![b"line1\nline2".to_vec()]);
}

#[test]
fn continuation_over_three_lines() {
    let value = "one\ntwo\nthree\nfour";
    let m = doc(&[("gpgsig", value)], "msg");
    let raw = kvlm_serialize(&m);
    assert_eq!(raw, b"gpgsig one\n two\n three\n four\n\nmsg".to_vec());
    let back = kvlm_parse(&raw).unwrap();
    assert_eq!(back.get(&b"gpgsig".to_vec()).unwrap(), &vec![value.as_bytes().to_vec()]);
}

#[test]
fn repeated_keys_keep_value_order() {
    let m = doc(&[("parent", "aaa"), ("parent", "bbb")], "m");
    let raw = kvlm_serialize(&m);
    assert_eq!(raw, b"parent aaa\nparent bbb\n\nm".to_vec());
    let back = kvlm_parse(&raw).unwrap();
    assert_eq!(back.num_entries(), 1);
    assert_eq!(
        back.get(&b"parent".to_vec()).unwrap(),
        &vec![b"aaa".to_vec(), b"bbb".to_vec()]
    );
}

#[test]
fn key_order_is_first_arrival() {
    let raw = b"a 1\nb 2\na 3\n\nmsg".to_vec();
    let m = kvlm_parse(&raw).unwrap();
    assert_eq!(m.num_entries(), 2);
    assert_eq!(m.entry_at(0).key(), &b"a".to_vec());
    assert_eq!(m.entry_at(0).values(), &vec![b"1".to_vec(), b"3".to_vec()]);
    assert_eq!(m.entry_at(1).key(), &b"b".to_vec());
    assert_eq!(m.entry_at(1).values(), &vec![b"2".to_vec()]);
}

#[test]
fn round_trip_many_headers() {
    let m = doc(
        &[
            ("tree", "29ff16c9c14e2652b22f8b78bb08a5a07930c147"),
            ("parent", "206941306e8a8af65b66eaaaea388a7ae24d49a0"),
            ("author", "A U Thor <author@example.com> 1527025023 +0200"),
            ("gpgsig", "-----BEGIN-----\nabc\ndef\n-----END-----"),
        ],
        "Commit message.\n\nWith two paragraphs.\n",
    );
    let raw = kvlm_serialize(&m);
    let back = kvlm_parse(&raw).unwrap();
    assert_eq!(back.num_entries(), m.num_entries());
    for i in 0..m.num_entries() {
        assert_eq!(back.entry_at(i).key(), m.entry_at(i).key());
        assert_eq!(back.entry_at(i).values(), m.entry_at(i).values());
    }
    assert_eq!(back.message(), m.message());
    // serializing again gives the same bytes
    assert_eq!(kvlm_serialize(&back), raw);
}

#[test]
fn message_with_embedded_newlines_is_verbatim() {
    let raw = b"k v\n\nline1\nline2\n\nline3".to_vec();
    let m = kvlm_parse(&raw).unwrap();
    assert_eq!(m.message(), &b"line1\nline2\n\nline3".to_vec());
}

#[test]
fn missing_separator_is_malformed() {
    assert!(matches!(kvlm_parse(&b"".to_vec()), Err(StoreError::MalformedObject)));
    assert!(matches!(kvlm_parse(&b"tree abc\n".to_vec()), Err(StoreError::MalformedObject)));
    assert!(matches!(kvlm_parse(&b"tree abc".to_vec()), Err(StoreError::MalformedObject)));
}

#[test]
fn header_line_without_space_is_malformed() {
    assert!(matches!(kvlm_parse(&b"nospace\n\nmsg".to_vec()), Err(StoreError::MalformedObject)));
}

#[test]
fn empty_key_is_malformed() {
    assert!(matches!(kvlm_parse(&b" value\n\nmsg".to_vec()), Err(StoreError::MalformedObject)));
}

#[test]
fn empty_value_round_trips() {
    let raw = b"key \n\nm".to_vec();
    let m = kvlm_parse(&raw).unwrap();
    assert_eq!(m.get(&b"key".to_vec()).unwrap(), &vec![b"".to_vec()]);
    assert_eq!(kvlm_serialize(&m), raw);
}

#[test]
fn value_ending_in_newline_round_trips() {
    let m = doc(&[("k", "v\n")], "m");
    let raw = kvlm_serialize(&m);
    assert_eq!(raw, b"k v\n \n\nm".to_vec());
    let back = kvlm_parse(&raw).unwrap();
    assert_eq!(back.get(&b"k".to_vec()).unwrap(), &vec![b"v\n".to_vec()]);
}

#[test]
fn get_of_absent_key_is_none() {
    let m = doc(&[("tree", "abc")], "");
    assert!(m.get(&b"parent".to_vec()).is_none());
}
