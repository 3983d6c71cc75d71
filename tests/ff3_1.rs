use fpe::error::ErrorKind;
use fpe::ff3_1::FF3_1;

const KEY: [u8; 16] = [
    0xEF, 0x43, 0x59, 0xD8, 0xD5, 0x80, 0xAA, 0x4F, 0x7F, 0x03, 0x6D, 0x6F, 0x04, 0xFC, 0x6A, 0x94,
];
const TWEAK: [u8; 7] = [0xD8, 0xE7, 0x92, 0x0A, 0xFA, 0x33, 0x0A];

#[test]
fn ff3_1_sample() {
    let ff3 = FF3_1::new(&KEY, None, 10, None).unwrap();
    let ct = ff3.encrypt("890121234567890000", Some(&TWEAK)).unwrap();
    assert_eq!(ct, "477064185124354662");
    assert_eq!(ff3.decrypt(&ct, Some(&TWEAK)).unwrap(), "890121234567890000");
}

#[test]
fn ff3_1_round_trip_many() {
    let cases: [(usize, &str); 4] = [
        (10, "0123456789012"),
        (26, "abcdefghijklmn"),
        (36, "zyxwvutsrq0987"),
        (2, "0110100101011101010110"),
    ];
    for (radix, pt) in cases {
        for key_len in [16usize, 24, 32] {
            let key: Vec<u8> = (0..key_len as u8).map(|b| b.wrapping_mul(7)).collect();
            let ff3 = FF3_1::new(&key, Some(&TWEAK), radix, None).unwrap();
            let ct = ff3.encrypt(pt, None).unwrap();
            assert_eq!(ct.chars().count(), pt.chars().count());
            assert_eq!(ff3.decrypt(&ct, None).unwrap(), pt);
        }
    }
}

#[test]
fn ff3_1_text_bounds() {
    let ff3 = FF3_1::new(&KEY, None, 10, None).unwrap();
    // 10^57 <= 2^192 < 10^58.
    let longest = "1".repeat(57);
    let ct = ff3.encrypt(&longest, Some(&TWEAK)).unwrap();
    assert_eq!(ff3.decrypt(&ct, Some(&TWEAK)).unwrap(), longest);
    let too_long = "1".repeat(58);
    assert_eq!(ff3.encrypt(&too_long, Some(&TWEAK)).unwrap_err().kind, ErrorKind::InvalidTextLength);
    let shortest = "123456";
    let ct = ff3.encrypt(shortest, Some(&TWEAK)).unwrap();
    assert_eq!(ff3.decrypt(&ct, Some(&TWEAK)).unwrap(), shortest);
    assert_eq!(ff3.encrypt("12345", Some(&TWEAK)).unwrap_err().kind, ErrorKind::InvalidTextLength);
}

#[test]
fn ff3_1_tweak_must_be_seven_bytes() {
    let ff3 = FF3_1::new(&KEY, None, 10, None).unwrap();
    assert_eq!(ff3.encrypt("1234567890", None).unwrap_err().kind, ErrorKind::InvalidTweakLength);
    assert_eq!(
        ff3.encrypt("1234567890", Some(&[0u8; 8])).unwrap_err().kind,
        ErrorKind::InvalidTweakLength
    );
    assert_eq!(
        FF3_1::new(&KEY, Some(&[0u8; 6]), 10, None).err().unwrap().kind,
        ErrorKind::InvalidTweakLength
    );
    assert_eq!(ff3.encrypt("12345a7890", Some(&TWEAK)).unwrap_err().kind, ErrorKind::InvalidCharacter);
}

#[test]
fn ff3_1_tweak_changes_output() {
    let ff3 = FF3_1::new(&KEY, None, 10, None).unwrap();
    let a = ff3.encrypt("890121234567890000", Some(&TWEAK)).unwrap();
    let b = ff3.encrypt("890121234567890000", Some(&[0u8; 7])).unwrap();
    assert_ne!(a, b);
}
