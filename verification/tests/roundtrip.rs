use bencode::Bencodable;
use bencode::Decode;
use bencode::Encode;

fn sample() -> Bencodable {
    Bencodable::Dict(vec![
        (
            b"files".to_vec(),
            Bencodable::List(vec![
                Bencodable::Str(b"a.txt".to_vec()),
                Bencodable::Str(b"b.txt".to_vec()),
            ]),
        ),
        (b"length".to_vec(), Bencodable::Int(1024)),
        (b"name".to_vec(), Bencodable::Str(b"demo".to_vec())),
    ])
}

#[test]
fn round_trips_a_canonical_value() {
    let v = sample();
    let bytes = v.encode();
    assert_eq!(bytes[..].decode(), Ok(sample()));
}

#[test]
fn round_trips_every_kind() {
    for v in [
        Bencodable::Int(0),
        Bencodable::Int(-7),
        Bencodable::Str(Vec::new()),
        Bencodable::Str(b"spam".to_vec()),
        Bencodable::List(Vec::new()),
        Bencodable::Dict(Vec::new()),
    ] {
        let bytes = v.encode();
        let back = bytes[..].decode().unwrap();
        assert_eq!(back.encode(), bytes);
    }
}

#[test]
fn round_trip_canonicalizes_entry_order() {
    // the decoded tree holds the entries sorted, whatever order they were
    // supplied in
    let messy = Bencodable::Dict(vec![
        (b"b".to_vec(), Bencodable::Int(2)),
        (b"a".to_vec(), Bencodable::Int(1)),
    ]);
    let tidy = Bencodable::Dict(vec![
        (b"a".to_vec(), Bencodable::Int(1)),
        (b"b".to_vec(), Bencodable::Int(2)),
    ]);
    assert_eq!(messy.encode()[..].decode(), Ok(tidy));
}

#[test]
fn encode_is_idempotent_across_decode() {
    let messy = Bencodable::Dict(vec![
        (b"z".to_vec(), Bencodable::Int(26)),
        (b"m".to_vec(), Bencodable::List(vec![Bencodable::Int(13)])),
        (b"a".to_vec(), Bencodable::Str(b"one".to_vec())),
    ]);
    let once = messy.encode();
    let again = once[..].decode().unwrap().encode();
    assert_eq!(again, once);
}

#[test]
fn end_to_end_expected_bytes() {
    let d = Bencodable::Dict(vec![(b"hi".to_vec(), Bencodable::Int(1))]);
    assert_eq!(d.encode(), b"d2:hii1ee".to_vec());

    let expected = Bencodable::Dict(vec![(
        b"hi".to_vec(),
        Bencodable::List(vec![
            Bencodable::Int(1),
            Bencodable::Int(2),
            Bencodable::Int(3),
        ]),
    )]);
    assert_eq!("d2:hili1ei2ei3eee".decode(), Ok(expected));

    let l = Bencodable::List(vec![
        Bencodable::Int(1),
        Bencodable::Int(2),
        Bencodable::Int(3),
    ]);
    assert_eq!(l.encode(), b"li1ei2ei3ee".to_vec());
}

#[test]
fn cloning_preserves_the_value() {
    let v = sample();
    let c = v.clone();
    assert_eq!(c, sample());
    assert_eq!(c.encode(), v.encode());
}
