use magic_packet::hex::{classify, CharClass};

#[test]
fn digits_have_their_values() {
    let digits = "0123456789";
    for (i, c) in digits.chars().enumerate() {
        assert_eq!(classify(c), CharClass::Digit(i as u8));
    }
    let lower = "abcdef";
    for (i, c) in lower.chars().enumerate() {
        assert_eq!(classify(c), CharClass::Digit(10 + i as u8));
    }
    let upper = "ABCDEF";
    for (i, c) in upper.chars().enumerate() {
        assert_eq!(classify(c), CharClass::Digit(10 + i as u8));
    }
}

#[test]
fn separators_are_three() {
    assert_eq!(classify('-'), CharClass::Separator);
    assert_eq!(classify(':'), CharClass::Separator);
    assert_eq!(classify('.'), CharClass::Separator);
}

#[test]
fn neighbours_of_the_digits_are_other() {
    for c in ['/', ';', '@', 'G', '`', 'g', ' ', '_', ',', '\u{e9}'] {
        assert_eq!(classify(c), CharClass::Other);
    }
}
