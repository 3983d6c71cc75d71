use fpe::alphabet::Alphabet;
use fpe::error::ErrorKind;

#[test]
fn alphabet_maps_both_ways() {
    let a = Alphabet::new("zyxwv", Some(4)).unwrap();
    assert_eq!(a.len(), 4);
    assert_eq!(a.ltr('z').unwrap(), 0);
    assert_eq!(a.ltr('w').unwrap(), 3);
    assert_eq!(a.pos(1).unwrap(), 'y');
    assert_eq!(a.ltr('v').unwrap_err().kind, ErrorKind::InvalidCharacter);
}

#[test]
fn alphabet_rejects_short_and_duplicate() {
    assert_eq!(Alphabet::new("abc", Some(4)).err().unwrap().kind, ErrorKind::AlphabetTooShort);
    assert_eq!(Alphabet::new("abca", Some(4)).err().unwrap().kind, ErrorKind::DuplicateAlphabet);
    assert!(Alphabet::new("abca", Some(3)).is_ok());
    assert_eq!(Alphabet::new("abc", None).unwrap().len(), 0);
}

#[test]
fn alphabet_of_sixty_four() {
    let s = "ABCDEFGHIJKLMNOPQRSTUVWXYZabcdefghijklmnopqrstuvwxyz0123456789+/";
    let a = Alphabet::new(s, Some(64)).unwrap();
    for (i, c) in s.chars().enumerate() {
        assert_eq!(a.ltr(c).unwrap(), i);
        assert_eq!(a.pos(i).unwrap(), c);
    }
}
