use base131072::{
    compress, default_table, hangul_line, insert_code_point, parse_code_point, unicode_data_line,
    unihan_line, ParsedLine, RangeTable, Ranges,
};

#[test]
fn compressor_splits_runs() {
    let values = [1u32, 2, 3, 5, 6, 10];
    let mut it = Ranges::new(&values);
    assert_eq!(it.next(), Some((0, 1, 3)));
    assert_eq!(it.next(), Some((3, 5, 6)));
    assert_eq!(it.next(), Some((5, 10, 10)));
    assert_eq!(it.next(), None);
    assert_eq!(
        compress(&values),
        vec![(0, 1, 3), (3, 5, 6), (5, 10, 10)]
    );
    let empty: [u32; 0] = [];
    assert_eq!(compress(&empty), vec![]);
    assert_eq!(compress(&[7]), vec![(0, 7, 7)]);
}

#[test]
fn table_from_list_reserves_top_two_as_sentinels() {
    let t = RangeTable::new(vec![0x100, 0x101, 0x102, 0x200, 0x201, 0x300, 0x301]);
    assert_eq!(t.pad1 as u32, 0x301);
    assert_eq!(t.pad2 as u32, 0x300);
    assert_eq!(t.ranges, vec![(0, 0x100, 0x102), (3, 0x200, 0x201)]);
}

#[test]
fn default_table_is_well_formed() {
    let t = default_table();
    assert!(t.pad1 != t.pad2);
    let mut total: u64 = 0;
    for i in 0..t.ranges.len() {
        let (off, start, end) = t.ranges[i];
        assert!(start <= end);
        assert_eq!(off as u64, total);
        total += (end - start + 1) as u64;
        if i > 0 {
            let prev = t.ranges[i - 1];
            assert!(off > prev.0);
            assert!(start > prev.2);
        }
        assert!(!(start <= t.pad1 as u32 && t.pad1 as u32 <= end));
        assert!(!(start <= t.pad2 as u32 && t.pad2 as u32 <= end));
    }
    assert_eq!(total, 1 << 17);
}

#[test]
fn parse_code_point_reads_hex() {
    assert_eq!(parse_code_point("0"), Some(0));
    assert_eq!(parse_code_point("41"), Some(0x41));
    assert_eq!(parse_code_point("abcd"), Some(0xABCD));
    assert_eq!(parse_code_point("ABCD"), Some(0xABCD));
    assert_eq!(parse_code_point("10FFFF"), Some(0x10FFFF));
    assert_eq!(parse_code_point("FFFFFFFF"), Some(0xFFFF_FFFF));
    assert_eq!(parse_code_point(""), None);
    assert_eq!(parse_code_point("12G4"), None);
    assert_eq!(parse_code_point("100000000"), None);
}

#[test]
fn unicode_data_lines_classify() {
    assert_eq!(
        unicode_data_line("0041;LATIN CAPITAL LETTER A;Lu;0;L;;;;;N;;;;0061;"),
        ParsedLine::Code(0x41)
    );
    assert_eq!(
        unicode_data_line("D800;<Non Private Use High Surrogate, First>;Cs;0;L;;;;;N;;;;;"),
        ParsedLine::Skip
    );
    assert_eq!(unicode_data_line("no separator"), ParsedLine::Bad);
    assert_eq!(unicode_data_line("XYZ;NAME;"), ParsedLine::Bad);
    assert_eq!(unicode_data_line("41;"), ParsedLine::Code(0x41));
}

#[test]
fn hangul_lines_classify() {
    assert_eq!(hangul_line(""), ParsedLine::Skip);
    assert_eq!(hangul_line("# HangulSyllableType-15.0.0.txt"), ParsedLine::Skip);
    assert_eq!(hangul_line("1100..1159 ; L"), ParsedLine::Span(0x1100, 0x1159));
    assert_eq!(hangul_line("AC00 ; LV"), ParsedLine::Code(0xAC00));
    assert_eq!(hangul_line("A960..A97C"), ParsedLine::Span(0xA960, 0xA97C));
    assert_eq!(hangul_line("ZZ..1159 ; L"), ParsedLine::Bad);
    assert_eq!(hangul_line("1100.. ; L"), ParsedLine::Bad);
}

#[test]
fn unihan_lines_classify() {
    assert_eq!(
        unihan_line("U+3400\tkIRG_GSource\tGKX-0078.01"),
        ParsedLine::Code(0x3400)
    );
    assert_eq!(unihan_line("# Unihan_Readings.txt"), ParsedLine::Skip);
    assert_eq!(unihan_line(""), ParsedLine::Skip);
    assert_eq!(unihan_line("U+XYZ\tkField\tvalue"), ParsedLine::Bad);
}

#[test]
fn insert_keeps_the_list_sorted_and_unique() {
    let mut points: Vec<u32> = Vec::new();
    for cp in [5u32, 1, 9, 5, 3, 1, 7, 9] {
        insert_code_point(&mut points, cp);
    }
    assert_eq!(points, vec![1, 3, 5, 7, 9]);
}
