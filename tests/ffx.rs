use fpe::alphabet::Alphabet;
use fpe::error::ErrorKind;
use fpe::ffx::{bignum_to_chars, chars_to_bignum, FFX};
use num_bigint::BigUint;

#[test]
fn test_cipher_reuse() {
    let exp = [
        102, 233, 75, 212, 239, 138, 44, 59, 136, 76, 250, 89, 202, 52, 43, 46,
    ];
    let ffx = FFX::new(&[0; 16], None, 1024, 0, 0, 10, None).unwrap();

    let mut d1: [u8; 16] = [0; 16];
    let mut d2: [u8; 16] = [0; 16];
    let s: [u8; 16] = [0; 16];

    ffx.ciph(&mut d1, &s).unwrap();
    ffx.ciph(&mut d2, &s).unwrap();

    assert!(d1 == d2);
    assert!(d1 == exp);
}

#[test]
fn test_bignum_conversion() {
    let alpha = Alphabet::new("0123456789", Some(10)).unwrap();

    let n_str = "9037450980398204379409345039453045723049";
    let n = BigUint::parse_bytes(n_str.as_bytes(), 10).unwrap().to_bytes_be();

    let c = bignum_to_chars(&n, &alpha, None).unwrap();
    assert!(String::from_iter(c.clone()) == n_str);

    let r = chars_to_bignum(&c, &alpha).unwrap();
    assert!(BigUint::from_bytes_be(&n) == BigUint::from_bytes_be(&r));
}

#[test]
fn codec_pads_to_length() {
    let alpha = Alphabet::new("0123456789", Some(10)).unwrap();
    let n_str = "9037450980398204379409345039453045723049";
    let n = BigUint::parse_bytes(n_str.as_bytes(), 10).unwrap().to_bytes_be();
    let c = bignum_to_chars(&n, &alpha, Some(40)).unwrap();
    assert_eq!(String::from_iter(c.clone()), n_str);
    let c = bignum_to_chars(&[7u8], &alpha, Some(4)).unwrap();
    assert_eq!(String::from_iter(c), "0007");
    let c = bignum_to_chars(&[0x01u8, 0x00], &alpha, Some(2)).unwrap();
    assert_eq!(String::from_iter(c), "256");
    let c = bignum_to_chars(&[], &alpha, Some(3)).unwrap();
    assert_eq!(String::from_iter(c), "000");
}

#[test]
fn codec_reads_digits() {
    let alpha = Alphabet::new("0123456789abcdef", Some(16)).unwrap();
    let cs: Vec<char> = "ff01".chars().collect();
    let n = chars_to_bignum(&cs, &alpha).unwrap();
    assert_eq!(BigUint::from_bytes_be(&n), BigUint::from(0xff01u32));
    let bad: Vec<char> = "fg".chars().collect();
    assert_eq!(chars_to_bignum(&bad, &alpha).unwrap_err().kind, ErrorKind::InvalidCharacter);
}

#[test]
fn prf_is_cbc_mac() {
    let ffx = FFX::new(&[0; 16], None, 1024, 0, 0, 10, None).unwrap();
    let zero = [0u8; 16];
    let mut first = [0u8; 16];
    ffx.ciph(&mut first, &zero).unwrap();
    // Two zero blocks: the second block is AES of the first output.
    let mut expect = [0u8; 16];
    ffx.ciph(&mut expect, &first).unwrap();
    let mut mac = [0u8; 16];
    ffx.prf(&mut mac, &[0u8; 32]).unwrap();
    assert_eq!(mac, expect);
    let mut one = [0u8; 16];
    ffx.prf(&mut one, &zero).unwrap();
    assert_eq!(one, first);
}

#[test]
fn prf_rejects_misaligned_input() {
    let ffx = FFX::new(&[0; 16], None, 1024, 0, 0, 10, None).unwrap();
    let mut d = [0u8; 16];
    assert_eq!(ffx.prf(&mut d, &[0u8; 17]).unwrap_err().kind, ErrorKind::LengthMisalignment);
    let mut short = [0u8; 8];
    assert_eq!(ffx.prf(&mut short, &[0u8; 16]).unwrap_err().kind, ErrorKind::LengthMisalignment);
    assert_eq!(ffx.ciph(&mut short, &[0u8; 16]).unwrap_err().kind, ErrorKind::LengthMisalignment);
}

#[test]
fn ffx_validates_parameters() {
    let k = [0u8; 16];
    assert_eq!(FFX::new(&k, None, 1024, 0, 0, 1, None).err().unwrap().kind, ErrorKind::InvalidRadix);
    assert_eq!(FFX::new(&k, None, 1024, 0, 0, 37, None).err().unwrap().kind, ErrorKind::InvalidRadix);
    assert_eq!(
        FFX::new(&k, None, 1024, 0, 0, 3, Some("aab")).err().unwrap().kind,
        ErrorKind::DuplicateAlphabet
    );
    assert_eq!(
        FFX::new(&k, None, 5, 0, 0, 10, None).err().unwrap().kind,
        ErrorKind::UnsupportedTextBounds
    );
    assert!(FFX::new(&k, None, 6, 0, 0, 10, None).is_ok());
    assert_eq!(
        FFX::new(&k, None, 1024, 3, 2, 10, None).err().unwrap().kind,
        ErrorKind::InvalidTweakBounds
    );
    assert_eq!(
        FFX::new(&k, Some(&[1, 2]), 1024, 3, 4, 10, None).err().unwrap().kind,
        ErrorKind::InvalidTweakLength
    );
    assert_eq!(
        FFX::new(&[0u8; 15], None, 1024, 0, 0, 10, None).err().unwrap().kind,
        ErrorKind::InvalidKeyLength
    );
    for len in [16usize, 24, 32] {
        assert!(FFX::new(&vec![0u8; len], None, 1024, 0, 0, 10, None).is_ok());
    }
}

#[test]
fn ffx_limits() {
    let ffx = FFX::new(&[0; 16], Some(&[9, 9]), 1024, 1, 3, 10, None).unwrap();
    assert!(ffx.validate_text_length(5).is_err());
    assert!(ffx.validate_text_length(6).is_ok());
    assert!(ffx.validate_text_length(1024).is_ok());
    assert_eq!(ffx.validate_text_length(1025).unwrap_err().kind, ErrorKind::InvalidTextLength);
    assert!(ffx.validate_tweak_length(0).is_err());
    assert!(ffx.validate_tweak_length(1).is_ok());
    assert!(ffx.validate_tweak_length(3).is_ok());
    assert_eq!(ffx.validate_tweak_length(4).unwrap_err().kind, ErrorKind::InvalidTweakLength);
    assert_eq!(ffx.get_tweak(&None), &[9, 9]);
    let t = [1u8, 2, 3];
    assert_eq!(ffx.get_tweak(&Some(&t)), &t);
    assert_eq!(ffx.get_radix(), 10);
    assert_eq!(ffx.get_alphabet().len(), 10);
}
