use passcrack::charset::Charset;

fn decode(charset: &Charset, index: u64, len: usize) -> Vec<u8> {
    let mut buf = vec![0u8; len];
    charset.get_into(index, &mut buf);
    buf
}

#[test]
fn two_letters_length_two_in_index_order() {
    let charset = Charset::new("ab");
    assert_eq!(decode(&charset, 0, 2), b"aa".to_vec());
    assert_eq!(decode(&charset, 1, 2), b"ba".to_vec());
    assert_eq!(decode(&charset, 2, 2), b"ab".to_vec());
    assert_eq!(decode(&charset, 3, 2), b"bb".to_vec());
}

#[test]
fn first_byte_changes_fastest() {
    let charset = Charset::new("abc");
    assert_eq!(decode(&charset, 0, 3), b"aaa".to_vec());
    assert_eq!(decode(&charset, 1, 3), b"baa".to_vec());
    assert_eq!(decode(&charset, 3, 3), b"aba".to_vec());
    assert_eq!(decode(&charset, 9, 3), b"aab".to_vec());
    assert_eq!(decode(&charset, 26, 3), b"ccc".to_vec());
    assert_eq!(decode(&charset, 5, 3), b"cba".to_vec());
}

#[test]
fn digits_beyond_the_buffer_are_ignored() {
    let charset = Charset::new("ab");
    assert_eq!(decode(&charset, 4, 2), b"aa".to_vec());
    assert_eq!(decode(&charset, 7, 2), b"bb".to_vec());
    assert_eq!(decode(&charset, u64::MAX, 3), b"bbb".to_vec());
}

#[test]
fn empty_buffer_is_left_alone() {
    let charset = Charset::new("");
    let mut buf: Vec<u8> = Vec::new();
    charset.get_into(5, &mut buf);
    assert!(buf.is_empty());
    assert_eq!(decode(&Charset::new("xyz"), 17, 0), Vec::<u8>::new());
}

#[test]
fn buffer_is_overwritten_whatever_it_held() {
    let charset = Charset::new("01");
    let mut buf = vec![b'z'; 4];
    charset.get_into(5, &mut buf);
    assert_eq!(buf, b"1010".to_vec());
    charset.get_into(0, &mut buf);
    assert_eq!(buf, b"0000".to_vec());
}

#[test]
fn charset_keeps_the_bytes_of_the_text() {
    let charset = Charset::new("ab\u{e9}");
    assert_eq!(charset.as_bytes(), &[b'a', b'b', 0xc3, 0xa9][..]);
    assert_eq!(Charset(vec![1, 2, 3]).as_bytes(), &[1u8, 2, 3][..]);
}

#[test]
fn range_is_size_of_the_space() {
    let charset = Charset::new("abcdefghijklmnopqrstuvwxyz0123456789");
    assert_eq!(charset.range(0), Some(0..1));
    assert_eq!(charset.range(1), Some(0..36));
    assert_eq!(charset.range(6), Some(0..2176782336));
    assert_eq!(charset.range(12), Some(0..4738381338321616896));
    assert_eq!(Charset::new("ab").range(2), Some(0..4));
    assert_eq!(Charset::new("ab").range(63), Some(0..(1u64 << 63)));
}

#[test]
fn range_rejects_a_space_beyond_u64() {
    let charset = Charset::new("abcdefghijklmnopqrstuvwxyz0123456789");
    assert_eq!(charset.range(13), None);
    assert_eq!(charset.range(u32::MAX), None);
    assert_eq!(Charset::new("ab").range(64), None);
}

#[test]
fn range_of_degenerate_alphabets() {
    assert_eq!(Charset::new("").range(0), Some(0..1));
    assert_eq!(Charset::new("").range(1), Some(0..0));
    assert_eq!(Charset::new("").range(u32::MAX), Some(0..0));
    assert_eq!(Charset::new("a").range(0), Some(0..1));
    assert_eq!(Charset::new("a").range(u32::MAX), Some(0..1));
}

#[test]
fn position_is_the_first_occurrence() {
    let charset = Charset::new("abca");
    assert_eq!(charset.position_of(b'a'), Some(0));
    assert_eq!(charset.position_of(b'c'), Some(2));
    assert_eq!(charset.position_of(b'z'), None);
    assert_eq!(Charset::new("").position_of(b'a'), None);
}

#[test]
fn index_of_is_the_mixed_radix_number() {
    let charset = Charset::new("ab");
    assert_eq!(charset.index_of(b"aa"), Some(0));
    assert_eq!(charset.index_of(b"ba"), Some(1));
    assert_eq!(charset.index_of(b"ab"), Some(2));
    assert_eq!(charset.index_of(b"bb"), Some(3));
    assert_eq!(charset.index_of(b""), Some(0));
    assert_eq!(Charset::new("0123456789").index_of(b"321"), Some(123));
}

#[test]
fn index_of_rejects_foreign_bytes_and_overflow() {
    let charset = Charset::new("ab");
    assert_eq!(charset.index_of(b"ac"), None);
    assert_eq!(charset.index_of(b"ca"), None);
    assert_eq!(Charset::new("").index_of(b"a"), None);
    let mut word = vec![b'a'; 64];
    word.push(b'b');
    assert_eq!(charset.index_of(&word), None);
    let mut word = vec![b'a'; 63];
    word.push(b'b');
    assert_eq!(charset.index_of(&word), Some(1u64 << 63));
    assert_eq!(charset.index_of(&vec![b'b'; 64]), Some(u64::MAX));
}

#[test]
fn decoding_then_composing_gives_the_index_back() {
    let charset = Charset::new("abc");
    for len in 0..5usize {
        let size = charset.range(len as u32).unwrap().end;
        for i in 0..size {
            let word = decode(&charset, i, len);
            assert_eq!(charset.index_of(&word), Some(i));
        }
    }
}

#[test]
fn candidates_are_distinct_and_cover_all_words() {
    let charset = Charset::new("xyz");
    let size = charset.range(3).unwrap().end;
    assert_eq!(size, 27);
    let mut seen: Vec<Vec<u8>> = Vec::new();
    for i in 0..size {
        let word = decode(&charset, i, 3);
        assert!(word.iter().all(|b| b"xyz".contains(b)));
        assert!(!seen.contains(&word));
        seen.push(word);
    }
    for a in b"xyz" {
        for b in b"xyz" {
            for c in b"xyz" {
                assert!(seen.contains(&vec![*a, *b, *c]));
            }
        }
    }
}

#[test]
fn repeated_byte_gives_repeated_candidates() {
    let charset = Charset::new("aa");
    assert_eq!(decode(&charset, 0, 1), decode(&charset, 1, 1));
    assert_eq!(charset.index_of(b"a"), Some(0));
}

#[test]
fn describe_escapes_what_is_not_graphic() {
    assert_eq!(Charset::new("abc019").describe(), "abc019");
    assert_eq!(Charset::new("a b").describe(), "a\\x20b");
    assert_eq!(Charset(vec![0x00, 0x7f, 0xff, b'~', b'!']).describe(), "\\x00\\x7f\\xff~!");
    assert_eq!(Charset(vec![0x0a, 0xab]).describe(), "\\x0a\\xab");
    assert_eq!(Charset::new("").describe(), "");
}
