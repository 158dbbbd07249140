use extsort::sortable::encode_then_decode;
use extsort::Sortable;

#[test]
fn u32_encodes_little_endian() {
    let mut buf: Vec<u8> = Vec::new();
    let x: u32 = 0xdead_beef;
    x.encode(&mut buf);
    assert_eq!(buf, vec![0xef, 0xbe, 0xad, 0xde]);
}

#[test]
fn decoding_an_encoding_gives_the_item_back() {
    let mut buf: Vec<u8> = Vec::new();
    let x: u32 = 123_456_789;
    x.encode(&mut buf);
    assert_eq!(u32::decode(&buf, 0), Some((123_456_789, 4)));
    // immediately past the last item the decoder reports end-of-stream
    assert_eq!(u32::decode(&buf, 4), None);
}

#[test]
fn round_trip_helper_returns_the_item() {
    assert_eq!(encode_then_decode(&0u32), Some((0u32, 4)));
    assert_eq!(encode_then_decode(&u32::MAX), Some((u32::MAX, 4)));
    assert_eq!(encode_then_decode(&42u32), Some((42u32, 4)));
}

#[test]
fn truncated_tail_reads_as_end_of_stream() {
    let mut buf: Vec<u8> = Vec::new();
    7u32.encode(&mut buf);
    5u32.encode(&mut buf);
    assert_eq!(u32::decode(&buf, 0), Some((7, 4)));
    assert_eq!(u32::decode(&buf, 4), Some((5, 8)));
    // a tail shorter than one encoding is exhausted, not an error
    assert_eq!(u32::decode(&buf[..6], 4), None);
}
