use base131072::{decode, default_table, encode, B17};

#[test]
fn b17_encoding() {
    const B17_TEST_CASES: &[u32] = &[
        0,
        1,
        2,
        (1 << 17) - 1,
        (1 << 17) - 2,
        (1 << 17) / 2,
        (1 << 17) / 3,
        (1 << 17) / 4,
        (1 << 17) / 5,
        (1 << 17) / 6,
        (1 << 17) / 7,
        (1 << 17) / 8,
        (1 << 17) / 9,
    ];
    let table = default_table();
    for &test_case in B17_TEST_CASES {
        assert_eq!(
            B17::decode(B17(test_case).encode(&table), &table).unwrap(),
            B17(test_case)
        );
    }
}

#[test]
fn encoding() {
    let table = default_table();
    let empty: [u8; 0] = [];
    assert_eq!(decode(&table, &encode(&table, &empty)).unwrap(), &empty);
    assert_eq!(decode(&table, &encode(&table, &[1])).unwrap(), &[1]);
    assert_eq!(decode(&table, &encode(&table, &[1, 2])).unwrap(), &[1, 2]);
    assert_eq!(
        decode(&table, &encode(&table, &[1, 2, 3])).unwrap(),
        &[1, 2, 3]
    );
    assert_eq!(
        decode(&table, &encode(&table, &(0..17).collect::<Vec<_>>())).unwrap(),
        (0..17).collect::<Vec<_>>()
    );
    assert_eq!(
        decode(&table, &encode(&table, &(0..255).collect::<Vec<_>>())).unwrap(),
        (0..255).collect::<Vec<_>>()
    );
    assert_eq!(
        decode(&table, &encode(&table, &vec![100; 1024])).unwrap(),
        vec![100; 1024]
    );
}

#[test]
fn empty_input() {
    let table = default_table();
    let empty: [u8; 0] = [];
    assert_eq!(encode(&table, &empty), "");
    assert_eq!(decode(&table, "").unwrap(), Vec::<u8>::new());
}

#[test]
fn one_byte_gets_pad2_sentinel() {
    let table = default_table();
    let text = encode(&table, &[1]);
    let chars: Vec<char> = text.chars().collect();
    assert_eq!(chars.len(), 2);
    assert_eq!(chars[1], table.pad2);
    // the single symbol is 1 shifted into the top bits: 0b1_0000_0000_0
    assert_eq!(chars[0] as u32, 0xA000 + 0x200);
    assert_eq!(decode(&table, &text).unwrap(), &[1]);
}

#[test]
fn two_bytes_get_pad1_sentinel() {
    let table = default_table();
    let text = encode(&table, &[1, 2]);
    let chars: Vec<char> = text.chars().collect();
    assert_eq!(chars.len(), 2);
    assert_eq!(chars[1], table.pad1);
    assert_eq!(decode(&table, &text).unwrap(), &[1, 2]);
}

#[test]
fn seventeen_bytes_need_no_sentinel() {
    let table = default_table();
    let data: Vec<u8> = (0..17).collect();
    let text = encode(&table, &data);
    let chars: Vec<char> = text.chars().collect();
    assert_eq!(chars.len(), 8);
    assert!(chars[7] != table.pad1 && chars[7] != table.pad2);
    assert_eq!(decode(&table, &text).unwrap(), data);
}

#[test]
fn large_repeated_input_round_trips() {
    let table = default_table();
    let data = vec![100u8; 1024];
    assert_eq!(decode(&table, &encode(&table, &data)).unwrap(), data);
}

#[test]
fn invalid_character_is_reported_with_position() {
    let table = default_table();
    // 'A' sits below every range of the table
    let err = decode(&table, "AB").unwrap_err();
    assert_eq!(err.0, 0);
    assert_eq!(err.1, 'A');
    // a valid character first: the error position moves to 1
    let good = B17(0).encode(&table);
    let text = format!("{good}Z");
    let err = decode(&table, &text).unwrap_err();
    assert_eq!(err.0, 1);
    assert_eq!(err.1, 'Z');
    // an invalid character before a sentinel is still reported
    let text = format!("Z{}", table.pad1);
    let err = decode(&table, &text).unwrap_err();
    assert_eq!(err.0, 0);
    assert_eq!(err.1, 'Z');
}

#[test]
fn lone_sentinel_is_malformed() {
    let table = default_table();
    let text = table.pad1.to_string();
    let err = decode(&table, &text).unwrap_err();
    assert_eq!(err.0, 0);
    assert_eq!(err.1, table.pad1);
    let text = table.pad2.to_string();
    let err = decode(&table, &text).unwrap_err();
    assert_eq!(err.0, 0);
    assert_eq!(err.1, table.pad2);
}

#[test]
fn reencode_is_identity() {
    let table = default_table();
    for data in [vec![], vec![7u8], vec![1, 2, 3, 4, 5], (0u8..100).collect()] {
        let text = encode(&table, &data);
        let back = decode(&table, &text).unwrap();
        assert_eq!(encode(&table, &back), text);
    }
}
