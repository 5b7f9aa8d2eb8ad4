use arrow2::write::{get_bit_width, write_def_levels, ExactSizedIter, Version};

#[test]
fn bit_widths() {
    assert_eq!(get_bit_width(0), 0);
    assert_eq!(get_bit_width(1), 1);
    assert_eq!(get_bit_width(2), 2);
    assert_eq!(get_bit_width(255), 8);
    assert_eq!(get_bit_width(256), 9);
    assert_eq!(get_bit_width(u64::MAX), 64);
}

#[test]
fn required_column_writes_nothing() {
    let mut buffer = vec![9u8];
    write_def_levels(&mut buffer, false, None, 10, Version::V1).unwrap();
    assert_eq!(buffer, vec![9]);
}

#[test]
fn all_valid_v2() {
    let mut buffer = vec![];
    write_def_levels(&mut buffer, true, None, 8, Version::V2).unwrap();
    assert_eq!(buffer, vec![(1 << 1) | 1, 0b1111_1111]);
}

#[test]
fn validity_v1_has_length_prefix() {
    let mut buffer = vec![7u8];
    let validity = vec![true, false, true];
    write_def_levels(&mut buffer, true, Some(&validity), 3, Version::V1).unwrap();
    assert_eq!(buffer, vec![7, 2, 0, 0, 0, (1 << 1) | 1, 0b101]);
}

#[test]
fn exact_sized_iter_hint() {
    let it = ExactSizedIter::new(vec![1, 2, 3].into_iter(), 3);
    assert_eq!(it.size_hint(), (3, Some(3)));
    assert_eq!(it.remaining, 3);
}
