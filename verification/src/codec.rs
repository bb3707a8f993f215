//! Storage codecs for the persisted layouts the index uses.
//!
//! [`StrStrU8Codec`] frames a word pair with a trailing proximity byte:
//! `left-utf8, 0x00, right-utf8, proximity`. [`RoaringBitmapRefCodec`]
//! carries posting lists in the portable roaring serialization.

use vstd::prelude::*;
use vstd::slice::slice_subrange;
use vstd::string::StringSliceAdditionalSpecFns;
use vstd::utf8::{encode_utf8, decode_utf8, valid_utf8, encode_utf8_valid_utf8,
    encode_utf8_decode_utf8};
use roaring::RoaringBitmap;
use crate::bitmap::{bitmap_set, bitmap_parse, bitmap_serialize, bitmap_deserialize};

verus! {

/// Relies on `str::from_utf8`: it succeeds exactly on valid UTF-8, and
/// the resulting string slice has the input bytes.
#[verifier::external_body]
fn try_from_utf8(v: &[u8]) -> (r: Option<&str>)
    ensures
        match r {
            Some(s) => valid_utf8(v@) && s.spec_bytes() == v@,
            None => !valid_utf8(v@),
        },
{
    core::str::from_utf8(v).ok()
}

/// Appends a byte slice to a vector.
fn push_bytes(out: &mut Vec<u8>, b: &[u8])
    ensures
        final(out)@ == old(out)@ + b@,
{
    let mut i: usize = 0;
    while i < b.len()
        invariant
            i <= b@.len(),
            out@ == old(out)@ + b@.take(i as int),
        decreases b@.len() - i,
    {
        proof {
            assert(old(out)@ + b@.take(i + 1) =~= (old(out)@ + b@.take(i as int)).push(
                b@[i as int],
            ));
        }
        out.push(b[i]);
        i += 1;
    }
    proof {
        assert(b@.take(i as int) =~= b@);
    }
}

/// The framed byte layout: `left-utf8, 0x00, right-utf8, proximity`.
pub open spec fn str_str_u8_bytes(s1: Seq<char>, s2: Seq<char>, n: u8) -> Seq<u8> {
    encode_utf8(s1) + seq![0u8] + encode_utf8(s2) + seq![n]
}

/// Position of the first zero byte, if any.
pub open spec fn find_zero(bytes: Seq<u8>) -> Option<int>
    decreases bytes.len(),
{
    if bytes.len() == 0 {
        None
    } else if bytes[0] == 0 {
        Some(0)
    } else {
        match find_zero(bytes.drop_first()) {
            Some(i) => Some(i + 1),
            None => None,
        }
    }
}

/// `find_zero` names the first zero byte exactly.
proof fn lemma_find_zero(s: Seq<u8>)
    ensures
        match find_zero(s) {
            Some(i) => 0 <= i < s.len() && s[i] == 0 && forall|j: int| 0 <= j < i ==> s[j] != 0,
            None => forall|j: int| 0 <= j < s.len() ==> s[j] != 0,
        },
    decreases s.len(),
{
    if s.len() > 0 && s[0] != 0 {
        lemma_find_zero(s.drop_first());
        let d = s.drop_first();
        assert(forall|j: int| 0 <= j < s.len() - 1 ==> #[trigger] d[j] == s[j + 1]);
        match find_zero(d) {
            Some(i) => {
                assert(s[i + 1] == 0);
                assert forall|j: int| 0 <= j < i + 1 implies s[j] != 0 by {
                    if j > 0 {
                        assert(d[j - 1] != 0);
                    }
                }
            },
            None => {
                assert forall|j: int| 0 <= j < s.len() implies s[j] != 0 by {
                    if j > 0 {
                        assert(d[j - 1] != 0);
                    }
                }
            },
        }
    }
}

/// What decoding a framed byte sequence yields: the trailing byte is the
/// proximity, the bytes before it split at the first zero byte, and both
/// halves must be valid UTF-8.
pub open spec fn spec_str_str_u8_decode(bytes: Seq<u8>) -> Option<(Seq<char>, Seq<char>, u8)> {
    if bytes.len() == 0 {
        None
    } else {
        let n = bytes.last();
        let rest = bytes.drop_last();
        match find_zero(rest) {
            None => None,
            Some(i) => {
                let b1 = rest.take(i);
                let b2 = rest.skip(i + 1);
                if valid_utf8(b1) && valid_utf8(b2) {
                    Some((decode_utf8(b1), decode_utf8(b2), n))
                } else {
                    None
                }
            },
        }
    }
}

/// Codec for `(left word, right word, proximity)` keys.
pub struct StrStrU8Codec;

impl StrStrU8Codec {
    /// Encodes a word pair and its proximity byte.
    pub fn bytes_encode(s1: &str, s2: &str, n: u8) -> (r: Vec<u8>)
        ensures
            r@ == str_str_u8_bytes(s1@, s2@, n),
    {
        let b1 = s1.as_bytes();
        let b2 = s2.as_bytes();
        let mut bytes: Vec<u8> = Vec::new();
        push_bytes(&mut bytes, b1);
        bytes.push(0);
        push_bytes(&mut bytes, b2);
        bytes.push(n);
        proof {
            assert(bytes@ =~= str_str_u8_bytes(s1@, s2@, n));
        }
        bytes
    }

    /// Decodes a framed byte sequence back into its word pair and
    /// proximity byte; `None` exactly when the frame is malformed.
    pub fn bytes_decode<'a>(bytes: &'a [u8]) -> (r: Option<(&'a str, &'a str, u8)>)
        ensures
            match r {
                Some(t) => spec_str_str_u8_decode(bytes@) == Some((t.0@, t.1@, t.2)),
                None => spec_str_str_u8_decode(bytes@) is None,
            },
    {
        let len = bytes.len();
        if len == 0 {
            return None;
        }
        let n = bytes[len - 1];
        let end = len - 1;
        let ghost rest = bytes@.drop_last();
        proof {
            assert(rest.len() == end);
            assert(forall|j: int| 0 <= j < end ==> rest[j] == bytes@[j]);
            assert(bytes@.last() == n);
        }
        let mut i: usize = 0;
        while i < end && bytes[i] != 0
            invariant
                i <= end,
                end == bytes@.len() - 1,
                rest == bytes@.drop_last(),
                forall|j: int| 0 <= j < i ==> rest[j] != 0,
            decreases end - i,
        {
            i += 1;
        }
        proof {
            lemma_find_zero(rest);
        }
        if i == end {
            proof {
                assert(find_zero(rest) is None) by {
                    match find_zero(rest) {
                        Some(k) => {
                            assert(rest[k] != 0);
                        },
                        None => {},
                    }
                }
            }
            return None;
        }
        proof {
            assert(rest[i as int] == 0);
            assert(find_zero(rest) == Some(i as int)) by {
                match find_zero(rest) {
                    Some(k) => {
                        if k < i {
                            assert(rest[k] != 0);
                        }
                        if k > i {
                            assert(rest[i as int] != 0);
                        }
                    },
                    None => {
                        assert(rest[i as int] != 0);
                    },
                }
            }
        }
        let b1 = slice_subrange(bytes, 0, i);
        let b2 = slice_subrange(bytes, i + 1, end);
        proof {
            assert(b1@ =~= rest.take(i as int));
            assert(b2@ =~= rest.skip(i + 1));
        }
        let s1 = match try_from_utf8(b1) {
            Some(s) => s,
            None => {
                return None;
            },
        };
        let s2 = match try_from_utf8(b2) {
            Some(s) => s,
            None => {
                return None;
            },
        };
        proof {
            encode_utf8_decode_utf8(s1@);
            encode_utf8_decode_utf8(s2@);
            assert(decode_utf8(b1@) == s1@);
            assert(decode_utf8(b2@) == s2@);
        }
        Some((s1, s2, n))
    }
}

/// Decoding an encoded triple recovers it, provided the left word's
/// UTF-8 bytes hold no zero byte (the layout's separator).
pub proof fn lemma_str_str_u8_round_trip(s1: Seq<char>, s2: Seq<char>, n: u8)
    requires
        !encode_utf8(s1).contains(0),
    ensures
        spec_str_str_u8_decode(str_str_u8_bytes(s1, s2, n)) == Some((s1, s2, n)),
{
    let b1 = encode_utf8(s1);
    let b2 = encode_utf8(s2);
    let bytes = str_str_u8_bytes(s1, s2, n);
    let rest = bytes.drop_last();
    assert(bytes.len() == b1.len() + 1 + b2.len() + 1);
    assert(bytes.last() == n);
    assert(rest =~= b1 + seq![0u8] + b2);
    assert(rest[b1.len() as int] == 0);
    assert forall|j: int| 0 <= j < b1.len() implies rest[j] != 0 by {
        assert(rest[j] == b1[j]);
        if b1[j] == 0 {
            assert(b1.contains(0));
        }
    }
    lemma_find_zero(rest);
    assert(find_zero(rest) == Some(b1.len() as int)) by {
        match find_zero(rest) {
            Some(k) => {
                if k < b1.len() {
                    assert(rest[k] != 0);
                }
                if k > b1.len() {
                    assert(rest[b1.len() as int] != 0);
                }
            },
            None => {
                assert(rest[b1.len() as int] != 0);
            },
        }
    }
    assert(rest.take(b1.len() as int) =~= b1);
    assert(rest.skip(b1.len() as int + 1) =~= b2);
    encode_utf8_valid_utf8(s1);
    encode_utf8_valid_utf8(s2);
    encode_utf8_decode_utf8(s1);
    encode_utf8_decode_utf8(s2);
}

/// Codec for posting lists in the portable roaring serialization.
pub struct RoaringBitmapRefCodec;

impl RoaringBitmapRefCodec {
    /// Serializes a posting list; the bytes parse back to its contents.
    pub fn bytes_encode(item: &RoaringBitmap) -> (r: Vec<u8>)
        ensures
            bitmap_parse(r@) == Some(bitmap_set(*item)),
    {
        bitmap_serialize(item)
    }

    /// Parses a serialized posting list; `None` exactly when the bytes
    /// do not parse.
    pub fn bytes_decode(bytes: &[u8]) -> (r: Option<RoaringBitmap>)
        ensures
            match r {
                Some(b) => bitmap_parse(bytes@) == Some(bitmap_set(b)),
                None => bitmap_parse(bytes@) is None,
            },
    {
        bitmap_deserialize(bytes)
    }
}

} // verus!
