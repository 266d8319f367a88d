use crc_check::{extract_hash, find_surrounded, is_u32_hex};

#[test]
fn lib_extract_hash_works() {
    let cases = [
        ("[11111111]", "11111111"),
        ("[aabbccdd]", "AABBCCDD"),
        ("[11111111]aa[bbb].txt", "11111111"),
        ("[11111111][22222222]", "22222222"),
    ];

    for (input, expect) in &cases {
        let result = extract_hash(input);
        if let Some(i) = result {
            assert_eq!(expect, &format!("{:08X}", i));
        } else {
            panic!("Expected {} but got {:?}", expect, result);
        }
    }
}

#[test]
fn lib_extract_hash_fails() {
    let cases = ["[111]", "[1111111122]", "[aabbccdd", "aabbccdd]", "aabbccdd"];

    for input in &cases {
        let result = extract_hash(input);
        if let Some(i) = result {
            panic!("No valued expected but got {}", format!("{:08X}", i));
        }
    }
}

#[test]
fn main_extract_hash_works() {
    let cases = [
        ("[11111111]", "11111111"),
        ("[aabbccdd]", "AABBCCDD"),
        ("[11111111]aa[bbb].txt", "11111111"),
        ("[11111111][22222222]", "22222222"),
    ];

    for (input, expect) in &cases {
        let result = extract_hash(input);
        if let Some(i) = result {
            assert_eq!(expect, &format!("{:08X}", i));
        } else {
            panic!("Expected {} but got {:?}", expect, result);
        }
    }
}

#[test]
fn main_extract_hash_fails() {
    let cases = ["[111]", "[1111111122]", "[aabbccdd", "aabbccdd]", "aabbccdd"];

    for input in &cases {
        let result = extract_hash(input);
        if let Some(i) = result {
            panic!("No valued expected but got {}", format!("{:08X}", i));
        }
    }
}

#[test]
fn find_surrounded_picks_rightmost_pair() {
    assert_eq!(find_surrounded("a[b]c", '[', ']'), Some((1, 3)));
    assert_eq!(find_surrounded("[x][y]", '[', ']'), Some((3, 5)));
    assert_eq!(find_surrounded("no brackets", '[', ']'), None);
    assert_eq!(find_surrounded("only ] closing", '[', ']'), None);
    assert_eq!(find_surrounded("only [ opening", '[', ']'), None);
    // the nearest `[` before the last `]`
    assert_eq!(find_surrounded("[a[b]", '[', ']'), Some((2, 4)));
}

#[test]
fn is_u32_hex_accepts_exactly_eight_hex_digits() {
    assert!(is_u32_hex("00000000"));
    assert!(is_u32_hex("aAbBcCdD"));
    assert!(is_u32_hex("12345678"));
    assert!(!is_u32_hex("1234567"));
    assert!(!is_u32_hex("123456789"));
    assert!(!is_u32_hex("1234567g"));
    assert!(!is_u32_hex(""));
}
