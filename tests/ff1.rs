use fpe::error::ErrorKind;
use fpe::ff1::FF1;

const KEY128: [u8; 16] = [
    0x2B, 0x7E, 0x15, 0x16, 0x28, 0xAE, 0xD2, 0xA6, 0xAB, 0xF7, 0x15, 0x88, 0x09, 0xCF, 0x4F, 0x3C,
];
const KEY192: [u8; 24] = [
    0x2B, 0x7E, 0x15, 0x16, 0x28, 0xAE, 0xD2, 0xA6, 0xAB, 0xF7, 0x15, 0x88, 0x09, 0xCF, 0x4F, 0x3C,
    0xEF, 0x43, 0x59, 0xD8, 0xD5, 0x80, 0xAA, 0x4F,
];
const TWEAK: [u8; 10] = [0x39, 0x38, 0x37, 0x36, 0x35, 0x34, 0x33, 0x32, 0x31, 0x30];

#[test]
fn ff1_sample_1() {
    let ff1 = FF1::new(&KEY128, None, 0, 0, 10, None).unwrap();
    assert_eq!(ff1.encrypt("0123456789", Some(&[])).unwrap(), "2433477484");
    assert_eq!(ff1.decrypt("2433477484", Some(&[])).unwrap(), "0123456789");
}

#[test]
fn ff1_sample_2() {
    let ff1 = FF1::new(&KEY128, None, 0, 0, 10, None).unwrap();
    assert_eq!(ff1.encrypt("0123456789", Some(&TWEAK)).unwrap(), "6124200773");
    assert_eq!(ff1.decrypt("6124200773", Some(&TWEAK)).unwrap(), "0123456789");
}

#[test]
fn ff1_sample_5() {
    let ff1 = FF1::new(&KEY192, None, 0, 0, 10, None).unwrap();
    let ct = ff1.encrypt("0123456789", Some(&TWEAK)).unwrap();
    assert_eq!(ct, "2496655549");
    assert_eq!(ff1.decrypt(&ct, Some(&TWEAK)).unwrap(), "0123456789");
}

#[test]
fn ff1_sample_3_radix_36() {
    let tweak = [0x37, 0x37, 0x37, 0x37, 0x70, 0x71, 0x72, 0x73, 0x37, 0x37, 0x37];
    let ff1 = FF1::new(&KEY128, None, 0, 0, 36, None).unwrap();
    let ct = ff1.encrypt("0123456789abcdefghi", Some(&tweak)).unwrap();
    assert_eq!(ct, "a9tv40mll9kdu509eum");
    assert_eq!(ff1.decrypt(&ct, Some(&tweak)).unwrap(), "0123456789abcdefghi");
}

#[test]
fn ff1_sample_4_aes192() {
    let ff1 = FF1::new(&KEY192, None, 0, 0, 10, None).unwrap();
    assert_eq!(ff1.encrypt("0123456789", None).unwrap(), "2830668132");
}

#[test]
fn ff1_sample_7_aes256() {
    let key: [u8; 32] = [
        0x2B, 0x7E, 0x15, 0x16, 0x28, 0xAE, 0xD2, 0xA6, 0xAB, 0xF7, 0x15, 0x88, 0x09, 0xCF, 0x4F,
        0x3C, 0xEF, 0x43, 0x59, 0xD8, 0xD5, 0x80, 0xAA, 0x4F, 0x7F, 0x03, 0x6D, 0x6F, 0x04, 0xFC,
        0x6A, 0x94,
    ];
    let ff1 = FF1::new(&key, None, 0, 0, 10, None).unwrap();
    assert_eq!(ff1.encrypt("0123456789", None).unwrap(), "6657667009");
}

#[test]
fn ff1_default_tweak_is_used() {
    let ff1 = FF1::new(&KEY128, Some(&TWEAK), 0, 0, 10, None).unwrap();
    assert_eq!(ff1.encrypt("0123456789", None).unwrap(), "6124200773");
}

#[test]
fn ff1_alphabet_round_trip() {
    let ff1 = FF1::new(&KEY128, None, 0, 0, 26, Some("abcdefghijklmnopqrstuvwxyz")).unwrap();
    let ct = ff1.encrypt("hellohello", None).unwrap();
    assert_eq!(ct.chars().count(), 10);
    assert!(ct.chars().all(|c| c.is_ascii_lowercase()));
    assert_eq!(ff1.decrypt(&ct, None).unwrap(), "hellohello");
}

#[test]
fn ff1_round_trip_many() {
    let alpha64 = "ABCDEFGHIJKLMNOPQRSTUVWXYZabcdefghijklmnopqrstuvwxyz0123456789+/";
    let cases: [(usize, Option<&str>, &str); 5] = [
        (2, None, "01101001010111010101"),
        (10, None, "31415926535"),
        (36, None, "thequickbrownfox"),
        (64, Some(alpha64), "Zm9vYmFy+/9"),
        (10, None, "0000000"),
    ];
    for (radix, alpha, pt) in cases {
        for key_len in [16usize, 24, 32] {
            let key: Vec<u8> = (0..key_len as u8).collect();
            let ff1 = FF1::new(&key, None, 0, 0, radix, alpha).unwrap();
            let ct = ff1.encrypt(pt, Some(&[1, 2, 3])).unwrap();
            assert_eq!(ct.chars().count(), pt.chars().count());
            assert_ne!(ct, pt);
            assert_eq!(ff1.decrypt(&ct, Some(&[1, 2, 3])).unwrap(), pt);
        }
    }
}

#[test]
fn ff1_tweak_changes_output() {
    let ff1 = FF1::new(&KEY128, None, 0, 0, 10, None).unwrap();
    let a = ff1.encrypt("0123456789012345", Some(&[1])).unwrap();
    let b = ff1.encrypt("0123456789012345", Some(&[2])).unwrap();
    assert_ne!(a, b);
}

#[test]
fn ff1_is_deterministic() {
    let ff1 = FF1::new(&KEY128, None, 0, 0, 10, None).unwrap();
    let other = FF1::new(&KEY128, None, 0, 0, 10, None).unwrap();
    let a = ff1.encrypt("98765432109876", Some(&TWEAK)).unwrap();
    assert_eq!(a, ff1.encrypt("98765432109876", Some(&TWEAK)).unwrap());
    assert_eq!(a, other.encrypt("98765432109876", Some(&TWEAK)).unwrap());
}

#[test]
fn ff1_errors() {
    let ff1 = FF1::new(&KEY128, None, 2, 4, 10, None).unwrap();
    assert_eq!(ff1.encrypt("12345", Some(&[1, 2])).unwrap_err().kind, ErrorKind::InvalidTextLength);
    assert_eq!(ff1.encrypt("123456", Some(&[1])).unwrap_err().kind, ErrorKind::InvalidTweakLength);
    assert_eq!(
        ff1.encrypt("123456", Some(&[1, 2, 3, 4, 5])).unwrap_err().kind,
        ErrorKind::InvalidTweakLength
    );
    assert_eq!(ff1.encrypt("12345a", Some(&[1, 2])).unwrap_err().kind, ErrorKind::InvalidCharacter);
    assert!(ff1.encrypt("123456", Some(&[1, 2])).is_ok());
    assert!(ff1.encrypt("123456", Some(&[1, 2, 3, 4])).is_ok());
    assert_eq!(FF1::new(&[0u8; 20], None, 0, 0, 10, None).err().unwrap().kind, ErrorKind::InvalidKeyLength);
    assert_eq!(FF1::new(&KEY128, None, 0, 0, 1, None).err().unwrap().kind, ErrorKind::InvalidRadix);
    assert_eq!(FF1::new(&KEY128, None, 5, 4, 10, None).err().unwrap().kind, ErrorKind::InvalidTweakBounds);
}

#[test]
fn ff1_shortest_text_radix_2() {
    let ff1 = FF1::new(&KEY128, None, 0, 0, 2, None).unwrap();
    assert!(ff1.encrypt("0101010101010101010", None).is_err());
    let pt = "01010101010101010101";
    let ct = ff1.encrypt(pt, None).unwrap();
    assert_eq!(ff1.decrypt(&ct, None).unwrap(), pt);
}
