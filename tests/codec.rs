use fastlink::codec::{_chr_to_index, _index_to_chr, code_to_index, fits_in_codes, index_to_code};

#[test]
fn symbols_of_each_range() {
    assert_eq!(_index_to_chr(0), Ok('a'));
    assert_eq!(_index_to_chr(25), Ok('z'));
    assert_eq!(_index_to_chr(26), Ok('A'));
    assert_eq!(_index_to_chr(51), Ok('Z'));
    assert_eq!(_index_to_chr(52), Ok('0'));
    assert_eq!(_index_to_chr(61), Ok('9'));
    assert_eq!(_index_to_chr(62), Ok('+'));
    assert_eq!(_index_to_chr(63), Ok('-'));
    assert_eq!(_index_to_chr(64), Err(64));
}

#[test]
fn values_of_each_symbol() {
    assert_eq!(_chr_to_index('a'), Ok(0));
    assert_eq!(_chr_to_index('z'), Ok(25));
    assert_eq!(_chr_to_index('A'), Ok(26));
    assert_eq!(_chr_to_index('Z'), Ok(51));
    assert_eq!(_chr_to_index('0'), Ok(52));
    assert_eq!(_chr_to_index('9'), Ok(61));
    assert_eq!(_chr_to_index('+'), Ok(62));
    assert_eq!(_chr_to_index('-'), Ok(63));
    assert_eq!(_chr_to_index('/'), Err('/'));
    assert_eq!(_chr_to_index('é'), Err('é'));
}

#[test]
fn symbol_mapping_is_inverse() {
    for v in 0u8..64 {
        let c = _index_to_chr(v).unwrap();
        assert_eq!(_chr_to_index(c), Ok(v));
    }
}

#[test]
fn encode_small_index() {
    assert_eq!(index_to_code(2, 2), "ac");
    assert_eq!(index_to_code(0, 3), "aaa");
    assert_eq!(index_to_code(64, 2), "ba");
    assert_eq!(index_to_code(4095, 2), "--");
    assert_eq!(index_to_code(5, 0), "");
}

#[test]
fn encode_keeps_lowest_digits() {
    assert_eq!(index_to_code(4096 + 3, 2), "ad");
    assert_eq!(index_to_code(u64::MAX, 11), "p----------");
}

#[test]
fn decode_small_codes() {
    assert_eq!(code_to_index(&"ac".to_string()), Ok(2));
    assert_eq!(code_to_index(&"ba".to_string()), Ok(64));
    assert_eq!(code_to_index(&"".to_string()), Ok(0));
    assert_eq!(code_to_index(&"Z9".to_string()), Ok(51 * 64 + 61));
}

#[test]
fn decode_reports_first_bad_character() {
    assert_eq!(code_to_index(&"a!b?".to_string()), Err('!'));
    assert_eq!(code_to_index(&"ab ".to_string()), Err(' '));
}

#[test]
fn decode_wraps_past_64_bits() {
    assert_eq!(code_to_index(&"-----------".to_string()), Ok(u64::MAX));
    assert_eq!(code_to_index(&"qaaaaaaaaab".to_string()), Ok(1));
}

#[test]
fn round_trip_over_orders() {
    for order in 1usize..=4 {
        let limit: u64 = 1u64 << (6 * order);
        let mut i: u64 = 0;
        while i < limit {
            let code = index_to_code(i, order);
            assert_eq!(code.chars().count(), order);
            assert_eq!(code_to_index(&code), Ok(i));
            i += if order < 3 { 1 } else { 97 };
        }
    }
    for &i in [0u64, 1, 12345678901234, u64::MAX].iter() {
        assert_eq!(code_to_index(&index_to_code(i, 11)), Ok(i));
    }
}

#[test]
fn fits_in_codes_bounds() {
    assert!(fits_in_codes(4095, 2));
    assert!(!fits_in_codes(4096, 2));
    assert!(!fits_in_codes(1, 0));
    assert!(fits_in_codes(0, 0));
    assert!(fits_in_codes(u64::MAX, 11));
    assert!(!fits_in_codes(u64::MAX, 10));
}
