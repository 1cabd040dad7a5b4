use bencode::Bencodable;
use bencode::Decode;
use bencode::ErrorKind;
use bencode::ParseError;

#[test]
fn decodes_ints() {
    assert_eq!("i1e".decode(), Ok(Bencodable::Int(1)));
    assert_eq!("i0e".decode(), Ok(Bencodable::Int(0)));
    assert_eq!("i-1e".decode(), Ok(Bencodable::Int(-1)));
    assert_eq!("i-1e".to_string().decode(), Ok(Bencodable::Int(-1)));
}

#[test]
fn decodes_strings() {
    assert_eq!("4:fcuk".decode(), Ok(Bencodable::Str(b"fcuk".to_vec())));
    assert_eq!("0:".decode(), Ok(Bencodable::Str(Vec::new())));
    assert_eq!("6:yellow".decode(), Ok(Bencodable::Str(b"yellow".to_vec())));
}

#[test]
fn decodes_lists() {
    assert_eq!("le".decode(), Ok(Bencodable::List(vec![])));
    assert_eq!(
        "l4:fcuke".decode(),
        Ok(Bencodable::List(vec![Bencodable::Str(b"fcuk".to_vec())]))
    );
    assert_eq!(
        "l4:fcuki99ee".decode(),
        Ok(Bencodable::List(vec![
            Bencodable::Str(b"fcuk".to_vec()),
            Bencodable::Int(99)
        ]))
    );
    assert_eq!(
        "lli1024eee".decode(),
        Ok(Bencodable::List(vec![Bencodable::List(vec![
            Bencodable::Int(1024)
        ])]))
    );
}

#[test]
fn decodes_dicts() {
    let hm = Bencodable::Dict(vec![(
        b"hi".to_vec(),
        Bencodable::Str(b"there".to_vec()),
    )]);

    assert_eq!("d2:hi5:theree".decode(), Ok(hm));

    let hm2 = Bencodable::Dict(vec![(
        b"hi".to_vec(),
        Bencodable::List(vec![
            Bencodable::Int(1),
            Bencodable::Int(2),
            Bencodable::Int(3),
        ]),
    )]);

    assert_eq!("d2:hili1ei2ei3eee".decode(), Ok(hm2));

    let hm4 = Bencodable::Dict(vec![(b"inner".to_vec(), Bencodable::Int(5))]);
    let hm3 = Bencodable::Dict(vec![(b"outer".to_vec(), hm4)]);

    assert_eq!("d5:outerd5:inneri5eee".decode(), Ok(hm3));
}

#[test]
fn decodes_empty_constructs() {
    assert_eq!("0:".decode(), Ok(Bencodable::Str(Vec::new())));
    assert_eq!("le".decode(), Ok(Bencodable::List(Vec::new())));
    assert_eq!("de".decode(), Ok(Bencodable::Dict(Vec::new())));
}

#[test]
fn decodes_bytes_input() {
    assert_eq!(b"i7e"[..].decode(), Ok(Bencodable::Int(7)));
    assert_eq!(
        "3:abc".as_bytes().decode(),
        Ok(Bencodable::Str(b"abc".to_vec()))
    );
}

#[test]
fn decodes_with_whitespace_between_tokens() {
    assert_eq!(" i42e ".decode(), Ok(Bencodable::Int(42)));
    assert_eq!(
        "l i1e i2e e".decode(),
        Ok(Bencodable::List(vec![
            Bencodable::Int(1),
            Bencodable::Int(2)
        ]))
    );
}

#[test]
fn decodes_extreme_ints() {
    assert_eq!(
        "i9223372036854775807e".decode(),
        Ok(Bencodable::Int(i64::MAX))
    );
    assert_eq!(
        "i-9223372036854775808e".decode(),
        Ok(Bencodable::Int(i64::MIN))
    );
}

#[test]
fn rejects_negative_zero_and_leading_zeros() {
    assert_eq!(
        "i-0e".decode(),
        Err(ParseError { kind: ErrorKind::UnexpectedToken, offset: 2 })
    );
    assert_eq!(
        "i007e".decode(),
        Err(ParseError { kind: ErrorKind::UnexpectedToken, offset: 1 })
    );
}

#[test]
fn rejects_truncated_input() {
    assert_eq!(
        "i1".decode(),
        Err(ParseError { kind: ErrorKind::UnexpectedEof, offset: 2 })
    );
    assert_eq!(
        "5:ab".decode(),
        Err(ParseError { kind: ErrorKind::UnexpectedEof, offset: 4 })
    );
    assert_eq!(
        "l".decode(),
        Err(ParseError { kind: ErrorKind::UnexpectedEof, offset: 1 })
    );
    assert_eq!(
        "".decode(),
        Err(ParseError { kind: ErrorKind::UnexpectedEof, offset: 0 })
    );
}

#[test]
fn rejects_stray_tokens() {
    assert_eq!(
        "x".decode(),
        Err(ParseError { kind: ErrorKind::UnexpectedToken, offset: 0 })
    );
    assert_eq!(
        "i1ei2e".decode(),
        Err(ParseError { kind: ErrorKind::UnexpectedToken, offset: 3 })
    );
}

#[test]
fn rejects_malformed_lengths() {
    assert_eq!(
        "3x".decode(),
        Err(ParseError { kind: ErrorKind::InvalidLength, offset: 1 })
    );
}

#[test]
fn rejects_malformed_dicts() {
    assert_eq!(
        "d2:hie".decode(),
        Err(ParseError { kind: ErrorKind::MalformedDict, offset: 5 })
    );
    assert_eq!(
        "di1ei2ee".decode(),
        Err(ParseError { kind: ErrorKind::InvalidDictKey, offset: 1 })
    );
}

#[test]
fn rejects_integer_overflow() {
    assert_eq!(
        "i9223372036854775808e".decode(),
        Err(ParseError { kind: ErrorKind::IntegerOverflow, offset: 1 })
    );
    assert_eq!(
        "i-9223372036854775809e".decode(),
        Err(ParseError { kind: ErrorKind::IntegerOverflow, offset: 2 })
    );
    assert_eq!(
        "i999999999999999999999999999999999999999999e".decode(),
        Err(ParseError { kind: ErrorKind::IntegerOverflow, offset: 1 })
    );
}

#[test]
fn decodes_duplicate_keys_last_wins() {
    let expected = Bencodable::Dict(vec![(b"a".to_vec(), Bencodable::Int(2))]);
    assert_eq!("d1:ai1e1:ai2ee".decode(), Ok(expected));
}

#[test]
fn decoded_dicts_are_key_sorted() {
    let expected = Bencodable::Dict(vec![
        (b"a".to_vec(), Bencodable::Int(2)),
        (b"b".to_vec(), Bencodable::Int(1)),
    ]);
    assert_eq!("d1:bi1e1:ai2ee".decode(), Ok(expected));
}

#[test]
fn accepts_leading_zero_string_lengths() {
    // length prefixes go by their decimal value, as the grammar reads them
    assert_eq!("05:abcde".decode(), Ok(Bencodable::Str(b"abcde".to_vec())));
}

#[test]
fn rejects_whitespace_inside_tokens() {
    // no whitespace between an integer's digits and its `e`
    assert_eq!(
        "i42 e".decode(),
        Err(ParseError { kind: ErrorKind::UnexpectedToken, offset: 3 })
    );
    // none between a length and its `:`
    assert_eq!(
        "2 :ab".decode(),
        Err(ParseError { kind: ErrorKind::InvalidLength, offset: 1 })
    );
}
