use passcrack::digest::{digest, DIGEST_LEN};

#[test]
fn digest_is_md5() {
    assert_eq!(
        digest(b""),
        [212, 29, 140, 217, 143, 0, 178, 4, 233, 128, 9, 152, 236, 248, 66, 126]
    );
    assert_eq!(
        digest(b"ab"),
        [24, 126, 244, 67, 97, 34, 209, 204, 47, 64, 220, 43, 146, 240, 235, 160]
    );
    assert_eq!(
        digest(b"abc"),
        [144, 1, 80, 152, 60, 210, 79, 176, 214, 150, 63, 125, 40, 225, 127, 114]
    );
    assert_eq!(digest(b"abc"), md5::compute(b"abc").0);
}

#[test]
fn digest_has_sixteen_bytes_and_is_not_its_input() {
    let input = [0u8; 16];
    assert_eq!(DIGEST_LEN, 16);
    assert_eq!(digest(&input).len(), DIGEST_LEN);
    assert_ne!(digest(&input), input);
}
