use fileheads::Error;
use fileheads::UrlEncodeWrapper;
use fileheads::decode;

#[test]
fn encode_plain_key() {
    let w = UrlEncodeWrapper::new(b"foo".to_vec());
    assert_eq!(w.encode(), b"key=foo".to_vec());
}

#[test]
fn encode_escapes_reserved_bytes() {
    // space -> '+', '/' -> %2F, '~' -> %7E, and the byte extremes.
    let key = vec![b'f', b'o', b'o', b' ', b'/', b'~', 0u8, 255u8];
    let w = UrlEncodeWrapper::new(key);
    assert_eq!(w.encode(), b"key=foo+%2F%7E%00%FF".to_vec());
}

#[test]
fn decode_inverts_encode() {
    let keys: Vec<Vec<u8>> = vec![
        b"".to_vec(),
        b"foo".to_vec(),
        b"a b*c-d.e_f".to_vec(),
        vec![0u8, 1, 2, 37, 43, 61, 127, 128, 255],
    ];
    for key in keys {
        let encoded = UrlEncodeWrapper::new(key.clone()).encode();
        let decoded = decode(&encoded).unwrap();
        assert_eq!(decoded.key, key);
    }
}

#[test]
fn decode_rejects_malformed_forms() {
    let bad: Vec<Vec<u8>> = vec![
        b"".to_vec(),             // no field name
        b"nope=foo".to_vec(),     // wrong field name
        b"key".to_vec(),          // no '='
        b"key=%".to_vec(),        // escape cut short
        b"key=%4".to_vec(),       // escape cut short
        b"key=%zz".to_vec(),      // no hexadecimal digits
        b"key=%2f".to_vec(),      // lowercase digits are not canonical
        b"key=%41".to_vec(),      // 'A' would never be escaped
        b"key=%20".to_vec(),      // a space is written '+'
        b"key=a&b=c".to_vec(),    // a second field
    ];
    for name in bad {
        assert!(matches!(decode(&name), Err(Error::Decoding)));
    }
}

#[test]
fn encoding_matches_the_urlencoded_form() {
    // The filename form is the www-form-urlencoded serialization of a
    // single-field structure named `key`.
    let values = ["foo", "foo bar/~*-._", "a=b&c", "\u{00fc}ber"];
    for value in values {
        let expected = serde_urlencoded::to_string([("key", value)]).unwrap();
        let got = UrlEncodeWrapper::new(value.as_bytes().to_vec()).encode();
        assert_eq!(String::from_utf8(got).unwrap(), expected);

        let decoded = decode(&expected.clone().into_bytes()).unwrap();
        assert_eq!(decoded.key, value.as_bytes().to_vec());
    }
}

#[test]
fn wrapper_keeps_the_key() {
    let w = UrlEncodeWrapper::new(b"tip".to_vec());
    assert_eq!(w.key, b"tip".to_vec());
}
