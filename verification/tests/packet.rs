use magic_packet::{create_magic_packet, encode, parse_mac, ParseError};

#[test]
fn test_valid_ok() {
    assert!(create_magic_packet("ff:aa:bb:cc:dd:ee").is_ok());
    assert!(create_magic_packet("de-ad-be-ef-ba-be").is_ok());
    assert!(create_magic_packet("ca.11.ab.1e.ba.be").is_ok());
    assert!(create_magic_packet("ca.11:ab-1e.ba:be").is_ok());
    assert!(create_magic_packet("ca11ab1ebabe").is_ok());
}

#[test]
fn test_invalid_err() {
    // gibberish
    assert!(create_magic_packet("hello").is_err());
    // invalid characters
    assert!(create_magic_packet("he.js:an:cc:dd:ee").is_err());
    // too short
    assert!(create_magic_packet("ab:cd").is_err());
    // too long
    assert!(create_magic_packet("ab:cd:ab:cd:ab:cd:ab:cd:ab").is_err());
    // mixed length
    assert!(
        create_magic_packet("ca11ab1eba:be").is_err(),
        "mixed length not allowed"
    );
}

#[test]
fn test_magic() {
    let pkt = create_magic_packet("AA:aa:aa:aa:aa:aa").unwrap();

    // starts with padding
    let expected = [255, 255, 255, 255, 255, 255];
    assert_eq!(&pkt[..6], &expected);

    // follows with mac
    let expected = [170, 170, 170, 170, 170, 170];
    assert_eq!(&pkt[6..12], &expected);

    // ends with mac
    let expected = [170, 170, 170, 170, 170, 170];
    assert_eq!(&pkt[102 - 6..102], &expected);
}

#[test]
fn test_mac() {
    let pkt = parse_mac("aa:aa:aa:aa:aa:aa").unwrap();
    let mac = [170, 170, 170, 170, 170, 170];
    assert_eq!(&pkt[..], &mac);

    assert!(parse_mac("aa:aabbccddeeffaa").is_err(), "bad format");
}

#[test]
fn packet_has_sync_bytes_then_sixteen_copies() {
    let address = [0xCA, 0x11, 0xAB, 0x1E, 0xBA, 0xBE];
    let pkt = create_magic_packet("ca:11:ab:1e:ba:be").unwrap();
    assert_eq!(pkt.len(), 102);
    assert_eq!(&pkt[..6], &[0xFF; 6]);
    for k in 0..16 {
        assert_eq!(&pkt[6 + 6 * k..12 + 6 * k], &address);
    }
}

#[test]
fn encode_lays_out_every_byte() {
    let address = [1, 2, 3, 4, 5, 6];
    let pkt = encode(address);
    let mut expected = vec![0xFFu8; 6];
    for _ in 0..16 {
        expected.extend_from_slice(&address);
    }
    assert_eq!(expected.len(), 102);
    assert_eq!(&pkt[..], &expected[..]);
}

#[test]
fn windows_give_the_address_back() {
    let address = parse_mac("01-23-45-67-89-ab").unwrap();
    assert_eq!(address, [0x01, 0x23, 0x45, 0x67, 0x89, 0xAB]);
    let pkt = encode(address);
    for k in 0..16 {
        let mut window = [0u8; 6];
        window.copy_from_slice(&pkt[6 + 6 * k..12 + 6 * k]);
        assert_eq!(window, address);
    }
}

#[test]
fn mixed_separators_parse_like_uniform_ones() {
    let expected = [0xCA, 0x11, 0xAB, 0x1E, 0xBA, 0xBE];
    assert_eq!(parse_mac("ca.11:ab-1e.ba:be"), Ok(expected));
    assert_eq!(parse_mac("ca:11:ab:1e:ba:be"), Ok(expected));
    assert_eq!(parse_mac("ca-11-ab-1e-ba-be"), Ok(expected));
    assert_eq!(parse_mac("ca.11.ab.1e.ba.be"), Ok(expected));
    assert_eq!(parse_mac("ca11ab1ebabe"), Ok(expected));
    assert_eq!(
        create_magic_packet("ca.11:ab-1e.ba:be"),
        create_magic_packet("ca:11:ab:1e:ba:be")
    );
}

#[test]
fn digits_in_either_case() {
    let expected = [0xAB, 0xCD, 0xEF, 0xAB, 0xCD, 0xEF];
    assert_eq!(parse_mac("abcdefABCDEF"), Ok(expected));
    assert_eq!(parse_mac("AB:CD:EF:ab:cd:ef"), Ok(expected));
    assert_eq!(parse_mac("0123456789aF"), Ok([0x01, 0x23, 0x45, 0x67, 0x89, 0xAF]));
    assert_eq!(parse_mac("00:00:00:00:00:00"), Ok([0; 6]));
    assert_eq!(parse_mac("FF:FF:FF:FF:FF:FF"), Ok([0xFF; 6]));
}

#[test]
fn high_nibble_comes_first() {
    assert_eq!(parse_mac("10:02:f0:0f:9a:a9"), Ok([0x10, 0x02, 0xF0, 0x0F, 0x9A, 0xA9]));
}

#[test]
fn fourteen_characters_with_two_separators() {
    let expected = [0xAA, 0xBB, 0xCC, 0xDD, 0xEE, 0xFF];
    assert_eq!(parse_mac("aabb.ccdd.eeff"), Ok(expected));
    assert_eq!(parse_mac("::aabbccddeeff"), Ok(expected));
    assert_eq!(parse_mac("aabbccddeeff::"), Err(ParseError::BadFormat));
}

#[test]
fn bad_character_carries_character_and_index() {
    assert_eq!(
        parse_mac("he.js:an:cc:dd:ee"),
        Err(ParseError::BadCharacter('h', 0))
    );
    assert_eq!(
        parse_mac("ae.js:an:cc:dd:ee"),
        Err(ParseError::BadCharacter('j', 3))
    );
    assert_eq!(
        parse_mac("aa:bb:cc:dd:ee:fg"),
        Err(ParseError::BadCharacter('g', 16))
    );
    assert_eq!(
        parse_mac("aabbccddeef "),
        Err(ParseError::BadCharacter(' ', 11))
    );
    assert_eq!(
        create_magic_packet("aa_bb:cc:dd:ee:ff"),
        Err(ParseError::BadCharacter('_', 2))
    );
}

#[test]
fn index_counts_characters() {
    assert_eq!(
        parse_mac("a\u{e9}:bb:cc:dd:ee:ff"),
        Err(ParseError::BadCharacter('\u{e9}', 1))
    );
    assert_eq!(
        parse_mac("aa:\u{20ac}b:cc:dd:ee:ff"),
        Err(ParseError::BadCharacter('\u{20ac}', 3))
    );
}

#[test]
fn bad_length_carries_the_length() {
    assert_eq!(parse_mac("ab:cd"), Err(ParseError::BadLength(5)));
    assert_eq!(
        parse_mac("ab:cd:ab:cd:ab:cd:ab:cd:ab"),
        Err(ParseError::BadLength(26))
    );
    assert_eq!(parse_mac("ca11ab1eba:be"), Err(ParseError::BadLength(13)));
    assert_eq!(parse_mac("hello"), Err(ParseError::BadLength(5)));
    assert_eq!(parse_mac(""), Err(ParseError::BadLength(0)));
    assert_eq!(parse_mac("aabbccddeef"), Err(ParseError::BadLength(11)));
    assert_eq!(
        parse_mac("aa:bb:cc:dd:ee:ff:"),
        Err(ParseError::BadLength(18))
    );
    assert_eq!(
        create_magic_packet("ab:cd"),
        Err(ParseError::BadLength(5))
    );
}

#[test]
fn length_is_checked_before_characters() {
    assert_eq!(parse_mac("xyz"), Err(ParseError::BadLength(3)));
    assert_eq!(
        parse_mac("zz:zz:zz:zz:zz:zz:zz"),
        Err(ParseError::BadLength(20))
    );
}

#[test]
fn content_after_the_twelfth_digit_is_bad_format() {
    assert_eq!(parse_mac("aa:aabbccddeeffaa"), Err(ParseError::BadFormat));
    assert_eq!(parse_mac("aabbccddeeff:::::"), Err(ParseError::BadFormat));
    assert_eq!(parse_mac("aabbccddeeffx."), Err(ParseError::BadFormat));
    assert_eq!(
        create_magic_packet("aabbccddeeff00"),
        Err(ParseError::BadFormat)
    );
}

#[test]
fn fewer_than_twelve_digits_is_bad_format() {
    assert_eq!(parse_mac("aa:aa:aa:aa::::::"), Err(ParseError::BadFormat));
    assert_eq!(parse_mac("::::::::::::"), Err(ParseError::BadFormat));
    assert_eq!(parse_mac("aabbccddeef:"), Err(ParseError::BadFormat));
    assert_eq!(parse_mac("aa:bb:cc:dd:ee:f:"), Err(ParseError::BadFormat));
}

#[test]
fn first_fault_wins() {
    assert_eq!(
        parse_mac("aa:bx:cc:dy:ee:ff"),
        Err(ParseError::BadCharacter('x', 4))
    );
    assert_eq!(
        parse_mac("aabbccddeeff:x"),
        Err(ParseError::BadFormat)
    );
}

#[test]
fn messages() {
    assert_eq!(ParseError::BadFormat.message(), "bad format");
    assert_eq!(ParseError::BadLength(5).message(), "bad length of 5");
    assert_eq!(ParseError::BadLength(0).message(), "bad length of 0");
    assert_eq!(ParseError::BadLength(26).message(), "bad length of 26");
    assert_eq!(
        ParseError::BadLength(1234567890).message(),
        "bad length of 1234567890"
    );
    assert_eq!(
        ParseError::BadCharacter('x', 3).message(),
        "bad character 'x' at index 3"
    );
    assert_eq!(
        ParseError::BadCharacter('j', 16).message(),
        "bad character 'j' at index 16"
    );
    assert_eq!(
        parse_mac("aa:bb:cc:dd:ee:f?").unwrap_err().message(),
        "bad character '?' at index 16"
    );
}

#[test]
fn description_is_the_same_for_every_error() {
    assert_eq!(ParseError::BadFormat.description(), "bad mac address");
    assert_eq!(ParseError::BadLength(5).description(), "bad mac address");
    assert_eq!(ParseError::BadCharacter('x', 3).description(), "bad mac address");
}

#[test]
fn errors_compare_and_copy() {
    let e = ParseError::BadCharacter('x', 3);
    let f = e;
    assert_eq!(e, f);
    assert_ne!(ParseError::BadLength(5), ParseError::BadLength(6));
    assert!(ParseError::BadFormat < ParseError::BadLength(0));
    assert!(ParseError::BadLength(7) < ParseError::BadCharacter('a', 0));
}
