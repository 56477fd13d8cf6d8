use passcrack::charset::Charset;
use passcrack::digest::digest;
use passcrack::search::{
    bruteforce, bytes_equal, open_table, scan_chunk, scan_table, search_length, search_range,
    Match, Record,
};
use passcrack::table::{build_table, TableError};

fn record(identity: &str, password: &[u8]) -> Record {
    Record { identity: identity.to_string(), digest: digest(password).to_vec() }
}

fn plain(found: &[Match]) -> Vec<(usize, u64, Vec<u8>)> {
    found.iter().map(|m| (m.record, m.index, m.candidate.clone())).collect()
}

#[test]
fn scanner_finds_ab_at_index_two() {
    let charset = Charset::new("ab");
    let file = build_table(&charset, 2, 1 << 20).unwrap();
    let records = vec![record("alice", b"ab")];
    let found = scan_table(&file, &records).ok().unwrap();
    assert_eq!(plain(&found), vec![(0, 2, b"ab".to_vec())]);
}

#[test]
fn brute_force_finds_ab_at_index_two() {
    let charset = Charset::new("ab");
    let records = vec![record("alice", b"ab")];
    let found = search_length(&charset, 2, &records).ok().unwrap();
    assert_eq!(plain(&found), vec![(0, 2, b"ab".to_vec())]);
    let found = bruteforce(&charset, 1, 3, &records).ok().unwrap();
    assert_eq!(plain(&found), vec![(0, 2, b"ab".to_vec())]);
}

#[test]
fn scanner_and_brute_force_agree() {
    let charset = Charset::new("abc");
    let records = vec![
        record("u0", b"cab"),
        record("u1", b"zzz"),
        record("u2", b"aaa"),
        record("u3", b"cab"),
        record("u4", b"ab"),
        record("u5", b"ccc"),
    ];
    let file = build_table(&charset, 3, 5 * 16).unwrap();
    let scanned = scan_table(&file, &records).ok().unwrap();
    let searched = search_length(&charset, 3, &records).ok().unwrap();
    assert_eq!(plain(&scanned), plain(&searched));
    assert_eq!(
        plain(&scanned),
        vec![
            (2, 0, b"aaa".to_vec()),
            (0, 11, b"cab".to_vec()),
            (3, 11, b"cab".to_vec()),
            (5, 26, b"ccc".to_vec()),
        ]
    );
}

#[test]
fn every_match_is_reported_once() {
    let charset = Charset::new("ab");
    let records = vec![record("x", b"bb"), record("y", b"bb"), record("z", b"aa")];
    let found = search_length(&charset, 2, &records).ok().unwrap();
    assert_eq!(
        plain(&found),
        vec![(2, 0, b"aa".to_vec()), (0, 3, b"bb".to_vec()), (1, 3, b"bb".to_vec())]
    );
}

#[test]
fn no_record_no_match() {
    let charset = Charset::new("ab");
    let file = build_table(&charset, 2, 64).unwrap();
    assert!(scan_table(&file, &[]).ok().unwrap().is_empty());
    assert!(search_length(&charset, 2, &[]).ok().unwrap().is_empty());
    let records = vec![record("nobody", b"zz")];
    assert!(scan_table(&file, &records).ok().unwrap().is_empty());
    assert!(bruteforce(&charset, 0, 4, &records).ok().unwrap().is_empty());
}

#[test]
fn stored_digest_of_another_length_never_matches() {
    let charset = Charset::new("ab");
    let mut short = digest(b"ab").to_vec();
    short.pop();
    let mut long = digest(b"ab").to_vec();
    long.push(0);
    let records = vec![
        Record { identity: "short".to_string(), digest: short },
        Record { identity: "long".to_string(), digest: long },
        Record { identity: "none".to_string(), digest: Vec::new() },
    ];
    assert!(search_length(&charset, 2, &records).ok().unwrap().is_empty());
    let file = build_table(&charset, 2, 64).unwrap();
    assert!(scan_table(&file, &records).ok().unwrap().is_empty());
}

#[test]
fn file_length_that_disagrees_with_header_is_corrupt() {
    let charset = Charset::new("ab");
    let file = build_table(&charset, 2, 64).unwrap();
    let records = vec![record("alice", b"ab")];
    let mut shorter = file.clone();
    shorter.pop();
    assert!(matches!(scan_table(&shorter, &records), Err(TableError::SizeMismatch)));
    let mut one_less = file.clone();
    one_less.truncate(file.len() - 16);
    assert!(matches!(scan_table(&one_less, &records), Err(TableError::SizeMismatch)));
    let mut longer = file.clone();
    longer.extend_from_slice(&[0u8; 16]);
    assert!(matches!(scan_table(&longer, &records), Err(TableError::SizeMismatch)));
    assert!(matches!(scan_table(&file[..14], &records), Err(TableError::SizeMismatch)));
    assert!(matches!(open_table(&file[..14]), Err(TableError::SizeMismatch)));
}

#[test]
fn header_that_declares_more_than_the_file_holds_is_corrupt() {
    let mut file = vec![3, 0, 0, 0, 2, 0, 0, 0, 0, 0, 0, 0, b'a', b'b'];
    file.extend_from_slice(&[0u8; 64]);
    assert!(matches!(scan_table(&file, &[]), Err(TableError::SizeMismatch)));
    let mut file = vec![200, 0, 0, 0, 2, 0, 0, 0, 0, 0, 0, 0, b'a', b'b'];
    file.extend_from_slice(&[0u8; 64]);
    assert!(matches!(scan_table(&file, &[]), Err(TableError::SizeMismatch)));
    let mut file = vec![60, 0, 0, 0, 2, 0, 0, 0, 0, 0, 0, 0, b'a', b'b'];
    file.extend_from_slice(&[0u8; 64]);
    assert!(matches!(open_table(&file), Err(TableError::SizeMismatch)));
}

#[test]
fn file_that_ends_inside_its_header_is_corrupt() {
    assert!(matches!(scan_table(&[], &[]), Err(TableError::TruncatedHeader)));
    assert!(matches!(scan_table(&[2, 0, 0, 0, 2, 0], &[]), Err(TableError::TruncatedHeader)));
    assert!(matches!(
        scan_table(&[2, 0, 0, 0, 2, 0, 0, 0, 0, 0, 0, 0, b'a'], &[]),
        Err(TableError::TruncatedHeader)
    ));
    assert!(matches!(open_table(&[0u8; 11]), Err(TableError::TruncatedHeader)));
}

#[test]
fn open_table_gives_the_layout() {
    let charset = Charset::new("abc");
    let file = build_table(&charset, 2, 64).unwrap();
    let layout = open_table(&file).ok().unwrap();
    assert_eq!(layout.header.len, 2);
    assert_eq!(layout.header.charset, b"abc".to_vec());
    assert_eq!(layout.data_offset, 15);
    assert_eq!(layout.entries, 9);
}

#[test]
fn scanner_reads_the_table_not_the_candidates() {
    let charset = Charset::new("ab");
    let mut file = build_table(&charset, 2, 64).unwrap();
    let forged = digest(b"secret");
    file[14 + 16..14 + 32].copy_from_slice(&forged);
    let records = vec![record("bob", b"secret"), record("eve", b"ba")];
    let found = scan_table(&file, &records).ok().unwrap();
    assert_eq!(plain(&found), vec![(0, 1, b"ba".to_vec())]);
}

#[test]
fn chunks_scanned_apart_give_the_matches_of_the_whole() {
    let charset = Charset::new("abc");
    let records = vec![record("u0", b"bca"), record("u1", b"cc"), record("u2", b"aab")];
    let file = build_table(&charset, 3, 1 << 20).unwrap();
    let layout = open_table(&file).ok().unwrap();
    let data = &file[layout.data_offset..];
    let whole = plain(&scan_chunk(&charset, 3, 0, data, &records));
    assert_eq!(whole, vec![(0, 7, b"bca".to_vec()), (2, 9, b"aab".to_vec())]);
    for cut in 0..=27usize {
        let mut parts = plain(&scan_chunk(&charset, 3, 0, &data[..cut * 16], &records));
        parts.extend(plain(&scan_chunk(&charset, 3, cut as u64, &data[cut * 16..], &records)));
        assert_eq!(parts, whole);
    }
}

#[test]
fn ranges_searched_apart_give_the_matches_of_the_whole() {
    let charset = Charset::new("abc");
    let records = vec![record("u0", b"bca"), record("u1", b"cc"), record("u2", b"aab")];
    let whole = plain(&search_range(&charset, 3, 0, 27, &records));
    assert_eq!(whole, vec![(0, 7, b"bca".to_vec()), (2, 9, b"aab".to_vec())]);
    for cut in 0..=27u64 {
        let mut parts = plain(&search_range(&charset, 3, 0, cut, &records));
        parts.extend(plain(&search_range(&charset, 3, cut, 27, &records)));
        assert_eq!(parts, whole);
    }
    assert!(search_range(&charset, 3, 9, 9, &records).is_empty());
    assert!(search_range(&charset, 3, 10, 9, &records).is_empty());
}

#[test]
fn lengths_are_searched_in_increasing_order() {
    let charset = Charset::new("ab");
    let records = vec![
        record("three", b"bab"),
        record("empty", b""),
        record("one", b"b"),
        record("two", b"ab"),
        record("four", b"abba"),
    ];
    let found = bruteforce(&charset, 0, 3, &records).ok().unwrap();
    assert_eq!(
        plain(&found),
        vec![
            (1, 0, Vec::new()),
            (2, 1, b"b".to_vec()),
            (3, 2, b"ab".to_vec()),
            (0, 5, b"bab".to_vec()),
        ]
    );
    let found = bruteforce(&charset, 2, 4, &records).ok().unwrap();
    assert_eq!(
        plain(&found),
        vec![(3, 2, b"ab".to_vec()), (0, 5, b"bab".to_vec()), (4, 6, b"abba".to_vec())]
    );
    assert!(bruteforce(&charset, 3, 2, &records).ok().unwrap().is_empty());
}

#[test]
fn search_of_a_space_beyond_u64_is_rejected() {
    let charset = Charset::new("abcdefghijklmnopqrstuvwxyz0123456789");
    assert!(matches!(search_length(&charset, 13, &[]), Err(TableError::SpaceTooLarge)));
    assert!(matches!(bruteforce(&charset, 1, 13, &[]), Err(TableError::SpaceTooLarge)));
    assert!(matches!(bruteforce(&charset, 13, 13, &[]), Err(TableError::SpaceTooLarge)));
    assert!(bruteforce(&charset, 14, 13, &[]).is_ok());
}

#[test]
fn search_over_degenerate_alphabets() {
    let records = vec![record("empty", b""), record("a", b"aaa")];
    let found = bruteforce(&Charset::new(""), 0, 5, &records).ok().unwrap();
    assert_eq!(plain(&found), vec![(0, 0, Vec::new())]);
    let found = bruteforce(&Charset::new("a"), 0, 5, &records).ok().unwrap();
    assert_eq!(plain(&found), vec![(0, 0, Vec::new()), (1, 0, b"aaa".to_vec())]);
}

#[test]
fn bytes_equal_compares_length_and_content() {
    assert!(bytes_equal(b"", b""));
    assert!(bytes_equal(b"abc", b"abc"));
    assert!(!bytes_equal(b"abc", b"abd"));
    assert!(!bytes_equal(b"abc", b"ab"));
    assert!(!bytes_equal(b"", b"a"));
}
