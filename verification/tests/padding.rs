use base131072::{calc_padding, Padding};

#[test]
fn test_padding() {
    assert_eq!(calc_padding(0), None);
    assert_eq!(calc_padding(1), Some(Padding::Pad2));
    assert_eq!(calc_padding(2), Some(Padding::Pad1));
    assert_eq!(calc_padding(3), Some(Padding::Pad2));
    assert_eq!(calc_padding(8), Some(Padding::Pad1));
    assert_eq!(calc_padding(17), None);
    assert_eq!(calc_padding(20), Some(Padding::Pad2));
}

#[test]
fn padding_cycles_every_seventeen_bytes() {
    for n in 0..100usize {
        assert_eq!(calc_padding(n), calc_padding(n + 17));
    }
}
