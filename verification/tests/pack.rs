use base131072::{B17, B17ToB8Iter, B8ToB17Iter};

fn pack_all(data: &[u8]) -> Vec<B17> {
    let mut it = B8ToB17Iter::new(data);
    let mut out = Vec::new();
    while let Some(sym) = it.next() {
        out.push(sym);
    }
    out
}

fn unpack_all(data: &[B17]) -> Vec<u8> {
    let mut it = B17ToB8Iter::new(data);
    let mut out = Vec::new();
    while let Some(byte) = it.next() {
        out.push(byte);
    }
    out
}

#[test]
fn b8_to_b17_iter() {
    let empty: [u8; 0] = [];
    assert_eq!(pack_all(&empty), vec![]);
    assert_eq!(pack_all(&[1]), vec![B17(0b0000_0001_0000_0000_0)]);
    assert_eq!(pack_all(&[1, 2]), vec![B17(0b0000_0001_0000_0010_0)]);
    assert_eq!(
        pack_all(&[1, 2, 3]),
        vec![B17(0b0000_0001_0000_0010_0), B17(0b000_0011_0000_0000_00)]
    );
    assert_eq!(
        pack_all(&[
            0b0001_0001,
            0b0010_0010,
            0b0011_0011,
            0b0100_0100,
            0b0101_0101,
            0b0110_0110,
            0b0111_0111,
            0b1000_1000,
        ]),
        vec![
            B17(0b0001_0001_0010_0010_0),
            B17(0b011_0011_0100_0100_01),
            B17(0b01_0101_0110_0110_011),
            B17(0b1_0111_1000_1000_0000)
        ]
    );
    assert_eq!(
        pack_all(&[
            0b0000_0001,
            0b0000_0010,
            0b0000_0011,
            0b0000_0100,
            0b0000_0101,
            0b0000_0110,
            0b0000_0111,
            0b0000_1000,
            0b0000_1001,
            0b0000_1010,
            0b0000_1011,
            0b0000_1100,
            0b0000_1101,
            0b0000_1110,
            0b0000_1111,
            0b0001_0000,
            0b0001_0001,
        ]),
        vec![
            B17(0b0000_0001_0000_0010_0),
            B17(0b000_0011_0000_0100_00),
            B17(0b00_0101_0000_0110_000),
            B17(0b0_0111_0000_1000_0000),
            B17(0b1001_0000_1010_0000_1),
            B17(0b011_0000_1100_0000_11),
            B17(0b01_0000_1110_0000_111),
            B17(0b1_0001_0000_0001_0001),
        ]
    );
    assert_eq!(
        pack_all(&[
            0b0000_0001,
            0b0000_0010,
            0b0000_0011,
            0b0000_0100,
            0b0000_0101,
            0b0000_0110,
            0b0000_0111,
            0b0000_1000,
            0b0000_1001,
            0b0000_1010,
            0b0000_1011,
            0b0000_1100,
            0b0000_1101,
            0b0000_1110,
            0b0000_1111,
            0b0001_0000,
            0b0001_0001,
            0b0001_0010,
            0b0001_0011,
            0b0001_0100,
        ]),
        vec![
            B17(0b0000_0001_0000_0010_0),
            B17(0b000_0011_0000_0100_00),
            B17(0b00_0101_0000_0110_000),
            B17(0b0_0111_0000_1000_0000),
            B17(0b1001_0000_1010_0000_1),
            B17(0b011_0000_1100_0000_11),
            B17(0b01_0000_1110_0000_111),
            B17(0b1_0001_0000_0001_0001),
            B17(0b0001_0010_0001_0011_0),
            B17(0b001_0100_0000_0000_00),
        ]
    );
}

#[test]
fn b17_to_b8_iter() {
    let empty: [B17; 0] = [];
    assert_eq!(unpack_all(&empty), vec![]);
    assert_eq!(unpack_all(&[B17(0b0000_0001_0000_0000_0)]), vec![1, 0, 0]);
    assert_eq!(unpack_all(&[B17(0b0000_0001_0000_0010_0)]), vec![1, 2, 0]);
    assert_eq!(
        unpack_all(&[B17(0b0000_0001_0000_0010_0), B17(0b000_0011_0000_0000_00)]),
        vec![1, 2, 3, 0, 0]
    );
    assert_eq!(
        unpack_all(&[
            B17(0b0001_0001_0010_0010_0),
            B17(0b011_0011_0100_0100_01),
            B17(0b01_0101_0110_0110_011),
            B17(0b1_0111_1000_1000_0000)
        ]),
        vec![
            0b0001_0001,
            0b0010_0010,
            0b0011_0011,
            0b0100_0100,
            0b0101_0101,
            0b0110_0110,
            0b0111_0111,
            0b1000_1000,
            0
        ]
    );
    assert_eq!(
        unpack_all(&[
            B17(0b0000_0001_0000_0010_0),
            B17(0b000_0011_0000_0100_00),
            B17(0b00_0101_0000_0110_000),
            B17(0b0_0111_0000_1000_0000),
            B17(0b1001_0000_1010_0000_1),
            B17(0b011_0000_1100_0000_11),
            B17(0b01_0000_1110_0000_111),
            B17(0b1_0001_0000_0001_0001),
        ]),
        vec![
            0b0000_0001,
            0b0000_0010,
            0b0000_0011,
            0b0000_0100,
            0b0000_0101,
            0b0000_0110,
            0b0000_0111,
            0b0000_1000,
            0b0000_1001,
            0b0000_1010,
            0b0000_1011,
            0b0000_1100,
            0b0000_1101,
            0b0000_1110,
            0b0000_1111,
            0b0001_0000,
            0b0001_0001,
        ]
    );
    assert_eq!(
        unpack_all(&[
            B17(0b0000_0001_0000_0010_0),
            B17(0b000_0011_0000_0100_00),
            B17(0b00_0101_0000_0110_000),
            B17(0b0_0111_0000_1000_0000),
            B17(0b1001_0000_1010_0000_1),
            B17(0b011_0000_1100_0000_11),
            B17(0b01_0000_1110_0000_111),
            B17(0b1_0001_0000_0001_0001),
            B17(0b0001_0010_0001_0011_0),
            B17(0b001_0100_0000_0000_00),
        ]),
        vec![
            0b0000_0001,
            0b0000_0010,
            0b0000_0011,
            0b0000_0100,
            0b0000_0101,
            0b0000_0110,
            0b0000_0111,
            0b0000_1000,
            0b0000_1001,
            0b0000_1010,
            0b0000_1011,
            0b0000_1100,
            0b0000_1101,
            0b0000_1110,
            0b0000_1111,
            0b0001_0000,
            0b0001_0001,
            0b0001_0010,
            0b0001_0011,
            0b0001_0100,
            0,
            0
        ]
    );
}

#[test]
fn pack_then_unpack_prefix() {
    let data: Vec<u8> = (0u8..=255).collect();
    let syms = pack_all(&data);
    assert_eq!(syms.len(), (data.len() * 8 + 16) / 17);
    let raw = unpack_all(&syms);
    assert_eq!(raw.len(), (syms.len() * 17 + 7) / 8);
    assert_eq!(&raw[..data.len()], &data[..]);
}
