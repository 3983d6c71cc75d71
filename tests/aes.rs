use fpe::aes::Cipher;
use fpe::error::ErrorKind;

fn hex(s: &str) -> Vec<u8> {
    (0..s.len()).step_by(2).map(|i| u8::from_str_radix(&s[i..i + 2], 16).unwrap()).collect()
}

#[test]
fn aes_known_answers() {
    let pt = hex("00112233445566778899aabbccddeeff");
    let cases = [
        ("000102030405060708090a0b0c0d0e0f", "69c4e0d86a7b0430d8cdb78070b4c55a"),
        ("000102030405060708090a0b0c0d0e0f1011121314151617", "dda97ca4864cdfe06eaf70a0ec0d7191"),
        (
            "000102030405060708090a0b0c0d0e0f101112131415161718191a1b1c1d1e1f",
            "8ea2b7ca516745bfeafc49904b496089",
        ),
    ];
    for (key, ct) in cases {
        let c = Cipher::new(&hex(key)).unwrap();
        assert_eq!(c.block_size(), 16);
        let mut out = [0u8; 20];
        out[16..].copy_from_slice(&[1, 2, 3, 4]);
        c.encrypt_block(&pt, &mut out);
        assert_eq!(&out[..16], &hex(ct)[..]);
        assert_eq!(&out[16..], &[1, 2, 3, 4]);
    }
}

#[test]
fn aes_cbc_chains_blocks() {
    let c = Cipher::new(&[0u8; 16]).unwrap();
    let mut first = [0u8; 16];
    c.encrypt_block(&[0u8; 16], &mut first);
    let mut second = [0u8; 16];
    c.encrypt_block(&first, &mut second);
    let out = c.cbc_encrypt(&[0u8; 32]);
    assert_eq!(&out[..16], &first);
    assert_eq!(&out[16..], &second);
}

#[test]
fn aes_rejects_bad_key_length() {
    for len in [0usize, 15, 17, 31, 33] {
        assert_eq!(Cipher::new(&vec![0u8; len]).err().unwrap().kind, ErrorKind::InvalidKeyLength);
    }
}
