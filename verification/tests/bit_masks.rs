use hashjoin::bit_mask::{IterableBitMask, IterableBitMaskIntrinsics, IterableBitMaskIntrinsics16x4};
use hashjoin::bit_mask_8::{IterableBitMask8, IterableBitMaskIntrinsics8};
use hashjoin::intrinsics::{u8x16_compare_eq_aarch64, u8x16_compare_eq_aarch64_shrink, u8x16_compare_eq_fallback, u8x8_compare_eq_aarch64};

fn sample_values() -> (u8, [u8; 16]) {
    let search_tag = 0b1010_1010;
    let mut values = [0u8; 16];
    values[0] = 0b1111_0000;
    values[1] = search_tag;
    values[2] = search_tag;
    values[4] = 0b0000_1111;
    values[6] = 0b0011_1111;
    values[10] = 0b1111_1111;
    values[14] = 0b1000_1000;
    values[15] = search_tag;
    (search_tag, values)
}

#[test]
fn iterable_bit_mask_single_valued_bit_mask() {
    for i in 0..16 {
        let mut data = [0u8; 16];
        data[i] = 1;

        let mut mask = IterableBitMask::new(data);

        assert_eq!(mask.next_set_index(), Some(i), "Failed for index {}", i);
        assert_eq!(mask.next_set_index(), None);
        assert_eq!(mask.next_set_index(), None);
        assert_eq!(mask.next_set_index(), None);
    }
}

#[test]
fn iterable_bit_mask_multi_valued_bit_mask() {
    let mut data = [0u8; 16];
    data[0] = 1;
    data[3] = 1;
    data[8] = 1;
    data[15] = 1;

    let mut mask = IterableBitMask::new(data);
    assert_eq!(mask.next_set_index(), Some(0));
    assert_eq!(mask.next_set_index(), Some(3));
    assert_eq!(mask.next_set_index(), Some(8));
    assert_eq!(mask.next_set_index(), Some(15));
    assert_eq!(mask.next_set_index(), None);
    assert_eq!(mask.next_set_index(), None);
    assert_eq!(mask.next_set_index(), None);
}

#[test]
fn iterable_bit_mask_works_with_intrinsics() {
    // Byte lanes over sixteen tags.
    let (search_tag, values) = sample_values();
    let num = u8x16_compare_eq_aarch64(search_tag, &values);
    let mut mask = IterableBitMaskIntrinsics::new(num.clone());

    assert_eq!(mask.next_set_index(), Some(1), "Intrinsic output: {:032X?}", num);
    assert_eq!(mask.next_set_index(), Some(2), "Intrinsic output: {:032X?}", num);
    assert_eq!(mask.next_set_index(), Some(15), "Intrinsic output: {:032X?}", num);
    assert_eq!(mask.next_set_index(), None, "Intrinsic output: {:032X?}", num);
    assert_eq!(mask.next_set_index(), None, "Intrinsic output: {:032X?}", num);

    // Narrowed nibble lanes over sixteen tags.
    let num = u8x16_compare_eq_aarch64_shrink(search_tag, &values);
    let mut mask = IterableBitMaskIntrinsics16x4::new(num.clone());

    assert_eq!(mask.next_set_index(), Some(1), "Intrinsic output: {:032X?}", num);
    assert_eq!(mask.next_set_index(), Some(2), "Intrinsic output: {:032X?}", num);
    assert_eq!(mask.next_set_index(), Some(15), "Intrinsic output: {:032X?}", num);
    assert_eq!(mask.next_set_index(), None, "Intrinsic output: {:032X?}", num);
    assert_eq!(mask.next_set_index(), None, "Intrinsic output: {:032X?}", num);
}

#[test]
fn iterable_bit_mask_8_single_valued_bit_mask() {
    for i in 0..8 {
        let mut data = [0u8; 8];
        data[i] = 1;

        let mut mask = IterableBitMask8::new(data);

        assert_eq!(mask.next_set_index(), Some(i), "Failed for index {}", i);
        assert_eq!(mask.next_set_index(), None);
        assert_eq!(mask.next_set_index(), None);
        assert_eq!(mask.next_set_index(), None);
    }
}

#[test]
fn iterable_bit_mask_8_multi_valued_bit_mask() {
    let mut data = [0u8; 8];
    data[0] = 1;
    data[3] = 1;
    data[7] = 1;

    let mut mask = IterableBitMask8::new(data);
    assert_eq!(mask.next_set_index(), Some(0));
    assert_eq!(mask.next_set_index(), Some(3));
    assert_eq!(mask.next_set_index(), Some(7));
    assert_eq!(mask.next_set_index(), None);
    assert_eq!(mask.next_set_index(), None);
    assert_eq!(mask.next_set_index(), None);
}

#[test]
fn iterable_bit_mask_8_works_with_intrinsics() {
    let search_tag = 0b1010_1010;
    let mut values = [0u8; 8];
    values[0] = 0b1111_0000;
    values[1] = search_tag;
    values[2] = search_tag;
    values[4] = 0b0000_1111;
    values[6] = 0b0011_1111;
    values[7] = search_tag;

    let num = u8x8_compare_eq_aarch64(search_tag, &values);
    let mut mask = IterableBitMaskIntrinsics8::new(num.clone());

    assert_eq!(mask.next_set_index(), Some(1), "Intrinsic output: {:032X?}", num);
    assert_eq!(mask.next_set_index(), Some(2), "Intrinsic output: {:032X?}", num);
    assert_eq!(mask.next_set_index(), Some(7), "Intrinsic output: {:032X?}", num);
    assert_eq!(mask.next_set_index(), None, "Intrinsic output: {:032X?}", num);
    assert_eq!(mask.next_set_index(), None, "Intrinsic output: {:032X?}", num);
}

#[test]
fn test_u8x16_compare_eq() {
    let (search_tag, values) = sample_values();
    let output = u8x16_compare_eq_aarch64(search_tag, &values);

    // Lane i holds the comparison of values[i], so index 0 is in the least
    // significant bits.
    let expected = 0xFF00_0000_0000_0000_0000_0000_00FF_FF00u128;
    assert_eq!(output, expected, "Output {:032X?}, expected {:032X?}", output, expected);
}

#[test]
fn test_u8x16_shrink_compare_eq() {
    let (search_tag, values) = sample_values();
    let output = u8x16_compare_eq_aarch64_shrink(search_tag, &values);

    let expected = 0xF000_0000_0000_0FF0u64;
    assert_eq!(output, expected, "Output {:016X?}, expected {:016X?}", output, expected);
}

#[test]
fn fallback_comparison_marks_equal_bytes() {
    let (search_tag, values) = sample_values();
    let output = u8x16_compare_eq_fallback(search_tag, &values);
    let mut expected = [0u8; 16];
    expected[1] = 255;
    expected[2] = 255;
    expected[15] = 255;
    assert_eq!(output, expected);
}
