use milli::codec::{StrStrU8Codec, RoaringBitmapRefCodec};
use roaring::RoaringBitmap;

#[test]
fn str_str_u8_encode_lays_out_the_frame() {
    let bytes = StrStrU8Codec::bytes_encode("is", "2021", 1);
    assert_eq!(bytes, vec![b'i', b's', 0, b'2', b'0', b'2', b'1', 1]);
}

#[test]
fn str_str_u8_round_trips() {
    let bytes = StrStrU8Codec::bytes_encode("hello", "world", 7);
    let (left, right, prox) = StrStrU8Codec::bytes_decode(&bytes).unwrap();
    assert_eq!(left, "hello");
    assert_eq!(right, "world");
    assert_eq!(prox, 7);
}

#[test]
fn str_str_u8_round_trips_non_ascii() {
    let bytes = StrStrU8Codec::bytes_encode("caf\u{e9}", "th\u{e9}", 3);
    let (left, right, prox) = StrStrU8Codec::bytes_decode(&bytes).unwrap();
    assert_eq!(left, "caf\u{e9}");
    assert_eq!(right, "th\u{e9}");
    assert_eq!(prox, 3);
}

#[test]
fn str_str_u8_decode_rejects_empty_input() {
    assert!(StrStrU8Codec::bytes_decode(&[]).is_none());
}

#[test]
fn str_str_u8_decode_rejects_a_frame_without_separator() {
    assert!(StrStrU8Codec::bytes_decode(&[b'a', b'b', 5]).is_none());
}

#[test]
fn str_str_u8_decode_rejects_invalid_utf8() {
    // 0xff is never valid UTF-8.
    assert!(StrStrU8Codec::bytes_decode(&[0xff, 0, b'b', 5]).is_none());
    assert!(StrStrU8Codec::bytes_decode(&[b'a', 0, 0xff, 5]).is_none());
}

#[test]
fn str_str_u8_decode_splits_at_the_first_zero() {
    let (left, right, prox) = StrStrU8Codec::bytes_decode(&[0, b'b', 9]).unwrap();
    assert_eq!(left, "");
    assert_eq!(right, "b");
    assert_eq!(prox, 9);
}

#[test]
fn roaring_codec_round_trips() {
    let bitmap: RoaringBitmap = [1u32, 5, 1000, 70000].into_iter().collect();
    let bytes = RoaringBitmapRefCodec::bytes_encode(&bitmap);
    let back = RoaringBitmapRefCodec::bytes_decode(&bytes).unwrap();
    assert_eq!(back, bitmap);
}

#[test]
fn roaring_codec_round_trips_the_empty_bitmap() {
    let bitmap = RoaringBitmap::new();
    let bytes = RoaringBitmapRefCodec::bytes_encode(&bitmap);
    let back = RoaringBitmapRefCodec::bytes_decode(&bytes).unwrap();
    assert_eq!(back, bitmap);
}

#[test]
fn roaring_codec_rejects_garbage() {
    assert!(RoaringBitmapRefCodec::bytes_decode(&[1, 2]).is_none());
}
