use passcrack::header::{TableHeader, HEADER_FIXED_LEN};

#[test]
fn header_layout_is_little_endian_with_length_prefix() {
    let header = TableHeader { len: 6, charset: b"abc".to_vec() };
    assert_eq!(
        header.encode(),
        vec![6, 0, 0, 0, 3, 0, 0, 0, 0, 0, 0, 0, b'a', b'b', b'c']
    );
    let header = TableHeader { len: 0x01020304, charset: Vec::new() };
    assert_eq!(header.encode(), vec![4, 3, 2, 1, 0, 0, 0, 0, 0, 0, 0, 0]);
    assert_eq!(HEADER_FIXED_LEN, 12);
}

#[test]
fn header_with_long_alphabet_has_a_two_byte_count() {
    let header = TableHeader { len: u32::MAX, charset: vec![7u8; 258] };
    let bytes = header.encode();
    assert_eq!(bytes.len(), 12 + 258);
    assert_eq!(&bytes[..12], &[255, 255, 255, 255, 2, 1, 0, 0, 0, 0, 0, 0][..]);
    assert!(bytes[12..].iter().all(|b| *b == 7));
}

#[test]
fn header_is_read_back_whatever_follows() {
    let header = TableHeader { len: 2, charset: b"ab".to_vec() };
    let mut bytes = header.encode();
    bytes.extend_from_slice(&[9, 9, 9]);
    let (read, size) = TableHeader::decode(&bytes).unwrap();
    assert_eq!(read.len, 2);
    assert_eq!(read.charset, b"ab".to_vec());
    assert_eq!(size, 14);
}

#[test]
fn decode_reads_the_fields_it_is_given() {
    let bytes = [1u8, 1, 0, 0, 2, 0, 0, 0, 0, 0, 0, 0, 0xfe, 0xff];
    let (read, size) = TableHeader::decode(&bytes).unwrap();
    assert_eq!(read.len, 257);
    assert_eq!(read.charset, vec![0xfe, 0xff]);
    assert_eq!(size, 14);
}

#[test]
fn truncated_header_is_rejected() {
    assert!(TableHeader::decode(&[]).is_none());
    assert!(TableHeader::decode(&[2, 0, 0, 0, 2, 0, 0, 0, 0, 0, 0]).is_none());
    assert!(TableHeader::decode(&[2, 0, 0, 0, 2, 0, 0, 0, 0, 0, 0, 0, b'a']).is_none());
    assert!(TableHeader::decode(&[2, 0, 0, 0, 255, 255, 255, 255, 255, 255, 255, 255, b'a']).is_none());
    assert!(TableHeader::decode(&[2, 0, 0, 0, 0, 0, 0, 0, 0, 0, 0, 0]).is_some());
}

#[test]
fn header_layout_is_the_one_bincode_gives() {
    for (len, charset) in [
        (6u32, b"abcdefghijklmnopqrstuvwxyz0123456789".to_vec()),
        (0, Vec::new()),
        (u32::MAX, vec![0xff; 300]),
        (0x0a0b0c0d, vec![0, 1, 2]),
    ] {
        let header = TableHeader { len, charset: charset.clone() };
        let bytes = header.encode();
        assert_eq!(bytes, bincode::serialize(&(len, charset.clone())).unwrap());
        let read: (u32, Vec<u8>) = bincode::deserialize(&bytes).unwrap();
        let (decoded, size) = TableHeader::decode(&bytes).unwrap();
        assert_eq!((decoded.len, decoded.charset.clone()), read);
        assert_eq!(decoded, header);
        assert_eq!(size, bytes.len());
    }
}
