use turn_games::codec::{decode_ids, encode_i32, encode_ids};

#[test]
fn test_encode_i32_values() {
    assert_eq!(encode_i32(0), "0");
    assert_eq!(encode_i32(7), "7");
    assert_eq!(encode_i32(10), "10");
    assert_eq!(encode_i32(-42), "-42");
    assert_eq!(encode_i32(i32::MAX), "2147483647");
    assert_eq!(encode_i32(i32::MIN), "-2147483648");
}

#[test]
fn test_encode_ids_layout() {
    assert_eq!(encode_ids(&vec![]), "");
    assert_eq!(encode_ids(&vec![5]), "5");
    assert_eq!(encode_ids(&vec![1, 2, 3]), "1,2,3");
    assert_eq!(encode_ids(&vec![-7, 0, 2147483647]), "-7,0,2147483647");
}

#[test]
fn test_decode_ids_round_trip() {
    let cases: Vec<Vec<i32>> = vec![
        vec![],
        vec![0],
        vec![1, 2, 3],
        vec![-1, -2, -3],
        vec![i32::MIN, i32::MAX, 0],
    ];
    for ids in cases {
        let blob = encode_ids(&ids);
        let back = decode_ids(&blob).expect("round trip must parse");
        assert_eq!(back, ids);
    }
}

#[test]
fn test_decode_ids_accepts_plain_lists() {
    assert_eq!(decode_ids("1,2,3"), Some(vec![1, 2, 3]));
    assert_eq!(decode_ids("-5"), Some(vec![-5]));
    assert_eq!(decode_ids(""), Some(vec![]));
}

#[test]
fn test_decode_ids_rejects_junk() {
    assert_eq!(decode_ids("abc"), None);
    assert_eq!(decode_ids(","), None);
    assert_eq!(decode_ids("1,,2"), None);
    assert_eq!(decode_ids("1,x"), None);
    assert_eq!(decode_ids("99999999999999999999"), None);
    assert_eq!(decode_ids("2147483648"), None);
    assert_eq!(decode_ids("-2147483649"), None);
    assert_eq!(decode_ids("12x"), None);
    assert_eq!(decode_ids("-"), None);
}

#[test]
fn test_decode_ids_boundary_values() {
    assert_eq!(decode_ids("2147483647"), Some(vec![i32::MAX]));
    assert_eq!(decode_ids("-2147483648"), Some(vec![i32::MIN]));
}
