use bencode::Bencodable;
use bencode::Encode;

#[test]
fn encodes_strings() {
    assert_eq!(
        "abcdefghijklmnopqrstuvwxyz".to_string().encode(),
        "26:abcdefghijklmnopqrstuvwxyz".as_bytes().to_vec()
    );
    assert_eq!("hi".to_string().encode(), "2:hi".as_bytes().to_vec());
    assert_eq!("".to_string().encode(), "0:".as_bytes().to_vec())
}

#[test]
fn encodes_usize() {
    let usize_max = format!("i{}e", usize::MAX).into_bytes();
    let usize_min = format!("i{}e", usize::MIN).into_bytes();

    assert_eq!(usize::MAX.encode(), usize_max);
    assert_eq!(usize::MIN.encode(), usize_min);
    assert_eq!(0usize.encode(), b"i0e".to_vec());
}

#[test]
fn encodes_u8() {
    let u8_max = format!("i{}e", u8::MAX).into_bytes();
    let u8_min = format!("i{}e", u8::MIN).into_bytes();

    assert_eq!(u8::MAX.encode(), u8_max);
    assert_eq!(u8::MIN.encode(), u8_min);
    assert_eq!(0u8.encode(), b"i0e".to_vec());
}

#[test]
fn encodes_u16() {
    let u16_max = format!("i{}e", u16::MAX).into_bytes();
    let u16_min = format!("i{}e", u16::MIN).into_bytes();

    assert_eq!(u16::MAX.encode(), u16_max);
    assert_eq!(u16::MIN.encode(), u16_min);
    assert_eq!(0u16.encode(), b"i0e".to_vec());
}

#[test]
fn encodes_u32() {
    let u32_max = format!("i{}e", u32::MAX).into_bytes();
    let u32_min = format!("i{}e", u32::MIN).into_bytes();

    assert_eq!(u32::MAX.encode(), u32_max);
    assert_eq!(u32::MIN.encode(), u32_min);
    assert_eq!(0u32.encode(), b"i0e".to_vec());
}

#[test]
fn encodes_u64() {
    let u64_max = format!("i{}e", u64::MAX).into_bytes();
    let u64_min = format!("i{}e", u64::MIN).into_bytes();

    assert_eq!(u64::MAX.encode(), u64_max);
    assert_eq!(u64::MIN.encode(), u64_min);
    assert_eq!(0u64.encode(), b"i0e".to_vec());
}

#[test]
fn encodes_u128() {
    let u128_max = format!("i{}e", u128::MAX).into_bytes();
    let u128_min = format!("i{}e", u128::MIN).into_bytes();

    assert_eq!(u128::MAX.encode(), u128_max);
    assert_eq!(u128::MIN.encode(), u128_min);
    assert_eq!(0u128.encode(), b"i0e".to_vec());
}

#[test]
fn encodes_isize() {
    let isize_max = format!("i{}e", isize::MAX).into_bytes();
    let isize_min = format!("i{}e", isize::MIN).into_bytes();

    assert_eq!(isize::MAX.encode(), isize_max);
    assert_eq!(isize::MIN.encode(), isize_min);
    assert_eq!(0isize.encode(), b"i0e".to_vec());
}

#[test]
fn encodes_i8() {
    assert_eq!(i8::MAX.encode(), b"i127e".to_vec());
    assert_eq!(i8::MIN.encode(), b"i-128e".to_vec());
    assert_eq!(0i8.encode(), b"i0e".to_vec());
}

#[test]
fn encodes_i16() {
    assert_eq!(i16::MAX.encode(), b"i32767e".to_vec());
    assert_eq!(i16::MIN.encode(), b"i-32768e".to_vec());
    assert_eq!(0i16.encode(), b"i0e".to_vec());
}

#[test]
fn encodes_i32() {
    assert_eq!(i32::MAX.encode(), b"i2147483647e".to_vec());
    assert_eq!(i32::MIN.encode(), b"i-2147483648e".to_vec());
    assert_eq!(0i32.encode(), b"i0e".to_vec());
}

#[test]
fn encodes_i64() {
    assert_eq!(i64::MAX.encode(), b"i9223372036854775807e".to_vec());
    assert_eq!(i64::MIN.encode(), b"i-9223372036854775808e".to_vec());
    assert_eq!(0i64.encode(), b"i0e".to_vec());
}

#[test]
fn encodes_i128() {
    assert_eq!(
        i128::MAX.encode(),
        b"i170141183460469231731687303715884105727e".to_vec()
    );
    assert_eq!(
        i128::MIN.encode(),
        b"i-170141183460469231731687303715884105728e".to_vec()
    );
    assert_eq!(0i128.encode(), b"i0e".to_vec());
}

#[test]
fn encodes_lists() {
    let empty: Vec<i32> = Vec::new();
    assert_eq!(vec![1i8, 2i8, 3i8].encode(), b"li1ei2ei3ee".to_vec());
    assert_eq!(empty.encode(), b"le".to_vec());
}

#[test]
fn encodes_dicts() {
    let hm = Bencodable::Dict(vec![(b"hi".to_vec(), Bencodable::Int(1))]);

    assert_eq!(hm.encode(), b"d2:hii1ee".to_vec());

    let hm_list = Bencodable::Dict(vec![(
        b"hi".to_vec(),
        Bencodable::List(vec![Bencodable::Int(1), Bencodable::Int(32)]),
    )]);

    assert_eq!(hm_list.encode(), b"d2:hili1ei32eee".to_vec());

    let nested = Bencodable::Dict(vec![(b"fine".to_vec(), Bencodable::Int(99))]);
    let hm_hm = Bencodable::Dict(vec![(b"nested!".to_vec(), nested)]);

    assert_eq!(hm_hm.encode(), b"d7:nested!d4:finei99eee".to_vec());
}

#[test]
fn encodes_value_ints_and_strings() {
    assert_eq!(Bencodable::Int(-42).encode(), b"i-42e".to_vec());
    assert_eq!(Bencodable::Int(0).encode(), b"i0e".to_vec());
    assert_eq!(Bencodable::Str(b"spam".to_vec()).encode(), b"4:spam".to_vec());
    assert_eq!(Bencodable::Str(Vec::new()).encode(), b"0:".to_vec());
}

#[test]
fn encodes_value_lists() {
    let l = Bencodable::List(vec![
        Bencodable::Int(1),
        Bencodable::Int(2),
        Bencodable::Int(3),
    ]);
    assert_eq!(l.encode(), b"li1ei2ei3ee".to_vec());
    assert_eq!(Bencodable::List(Vec::new()).encode(), b"le".to_vec());
}

#[test]
fn encodes_dicts_with_sorted_keys() {
    // entries supplied out of order come out sorted by key
    let d = Bencodable::Dict(vec![
        (b"b".to_vec(), Bencodable::Int(2)),
        (b"a".to_vec(), Bencodable::Int(1)),
        (b"c".to_vec(), Bencodable::Int(3)),
    ]);
    assert_eq!(d.encode(), b"d1:ai1e1:bi2e1:ci3ee".to_vec());
}

#[test]
fn encodes_dicts_last_duplicate_wins() {
    let d = Bencodable::Dict(vec![
        (b"a".to_vec(), Bencodable::Int(1)),
        (b"a".to_vec(), Bencodable::Int(2)),
    ]);
    assert_eq!(d.encode(), b"d1:ai2ee".to_vec());
}

#[test]
fn encodes_strings_by_byte_length() {
    // the length prefix counts bytes, not characters
    let s = "café".to_string();
    let mut expected = b"5:".to_vec();
    expected.extend_from_slice("café".as_bytes());
    assert_eq!(s.encode(), expected);
}
