//! The digest function behind object identifiers: a deterministic 160-bit
//! fingerprint of a byte sequence, rendered as 40 lowercase hex characters.

use sha1::Digest;
use vstd::prelude::*;

verus! {

/// The 20 digest bytes that the SHA-1 function assigns to a byte
/// sequence. The digest is a function of the bytes alone: the same input
/// gives the same digest in every process and on every machine.
pub uninterp spec fn sha1_of(data: Seq<u8>) -> Seq<u8>;

/// Relies on `sha1::Sha1` for the SHA-1 digest of the input: the result
/// depends on the input bytes alone and is always 20 bytes long.
#[verifier::external_body]
fn sha1_bytes(data: &Vec<u8>) -> (r: Vec<u8>)
    ensures
        r@ == sha1_of(data@),
        r@.len() == 20,
{
    sha1::Sha1::digest(data.as_slice()).to_vec()
}

/// The lowercase hex digit of a nibble.
pub open spec fn hex_digit(n: u8) -> char
    recommends
        n < 16,
{
    if n == 0 {
        '0'
    } else if n == 1 {
        '1'
    } else if n == 2 {
        '2'
    } else if n == 3 {
        '3'
    } else if n == 4 {
        '4'
    } else if n == 5 {
        '5'
    } else if n == 6 {
        '6'
    } else if n == 7 {
        '7'
    } else if n == 8 {
        '8'
    } else if n == 9 {
        '9'
    } else if n == 10 {
        'a'
    } else if n == 11 {
        'b'
    } else if n == 12 {
        'c'
    } else if n == 13 {
        'd'
    } else if n == 14 {
        'e'
    } else {
        'f'
    }
}

/// Two lowercase hex characters for each byte, high nibble first, no
/// separators.
pub open spec fn hex_of(data: Seq<u8>) -> Seq<char>
    decreases data.len(),
{
    if data.len() == 0 {
        Seq::empty()
    } else {
        seq![hex_digit((data[0] / 16) as u8), hex_digit((data[0] % 16) as u8)] + hex_of(
            data.drop_first(),
        )
    }
}

/// The hex rendering has two characters per byte.
pub proof fn lemma_hex_of_len(data: Seq<u8>)
    ensures
        hex_of(data).len() == 2 * data.len(),
    decreases data.len(),
{
    if data.len() > 0 {
        lemma_hex_of_len(data.drop_first());
    }
}

/// The identifier of a byte sequence: the 40 lowercase hex characters of
/// its 160-bit digest.
pub open spec fn digest_of(data: Seq<u8>) -> Seq<char> {
    hex_of(sha1_of(data))
}

/// A lowercase hex digit character.
pub open spec fn is_hex_char(c: char) -> bool {
    ('0' <= c && c <= '9') || ('a' <= c && c <= 'f')
}

/// Every character of a hex rendering is a lowercase hex digit.
pub proof fn lemma_hex_of_chars(data: Seq<u8>)
    ensures
        forall|i: int| 0 <= i < hex_of(data).len() ==> is_hex_char(#[trigger] hex_of(data)[i]),
    decreases data.len(),
{
    if data.len() > 0 {
        lemma_hex_of_chars(data.drop_first());
        assert(is_hex_char(hex_digit((data[0] / 16) as u8)));
        assert(is_hex_char(hex_digit((data[0] % 16) as u8)));
        assert forall|i: int| 0 <= i < hex_of(data).len() implies is_hex_char(
            #[trigger] hex_of(data)[i],
        ) by {
            if i >= 2 {
                assert(hex_of(data)[i] == hex_of(data.drop_first())[i - 2]);
            }
        }
    }
}

/// The one-character string of a lowercase hex digit.
fn hex_str(n: u8) -> (r: &'static str)
    requires
        n < 16,
    ensures
        r@ == seq![hex_digit(n)],
        r.is_ascii(),
{
    proof {
        reveal_strlit("0");
        reveal_strlit("1");
        reveal_strlit("2");
        reveal_strlit("3");
        reveal_strlit("4");
        reveal_strlit("5");
        reveal_strlit("6");
        reveal_strlit("7");
        reveal_strlit("8");
        reveal_strlit("9");
        reveal_strlit("a");
        reveal_strlit("b");
        reveal_strlit("c");
        reveal_strlit("d");
        reveal_strlit("e");
        reveal_strlit("f");
    }
    match n {
        0 => "0",
        1 => "1",
        2 => "2",
        3 => "3",
        4 => "4",
        5 => "5",
        6 => "6",
        7 => "7",
        8 => "8",
        9 => "9",
        10 => "a",
        11 => "b",
        12 => "c",
        13 => "d",
        14 => "e",
        _ => "f",
    }
}

/// Render bytes as lowercase hex, two characters per byte.
pub fn to_hex(data: &Vec<u8>) -> (r: String)
    ensures
        r@ == hex_of(data@),
        r.is_ascii(),
{
    let mut r = String::new();
    let mut i: usize = 0;
    proof {
        assert(data@.skip(0) =~= data@);
    }
    while i < data.len()
        invariant
            i <= data@.len(),
            r@ + hex_of(data@.skip(i as int)) == hex_of(data@),
            r.is_ascii(),
        decreases data@.len() - i,
    {
        let b = data[i];
        proof {
            assert(data@.skip(i as int)[0] == data@[i as int]);
            assert(data@.skip(i as int).drop_first() =~= data@.skip(i + 1));
        }
        let hi = hex_str(b / 16);
        let lo = hex_str(b % 16);
        r.append(hi);
        r.append(lo);
        i += 1;
    }
    proof {
        assert(hex_of(data@.skip(data@.len() as int)) =~= Seq::<char>::empty());
        assert(r@ =~= r@ + hex_of(data@.skip(data@.len() as int)));
    }
    r
}

/// The identifier of a byte sequence: deterministic, defined for every
/// input including the empty one, 40 lowercase hex characters with no
/// separators.
pub fn digest_hex(data: &Vec<u8>) -> (r: String)
    ensures
        r@ == digest_of(data@),
        r@.len() == 40,
        r.is_ascii(),
{
    let d = sha1_bytes(data);
    let r = to_hex(&d);
    proof {
        lemma_hex_of_len(d@);
    }
    r
}

} // verus!
