use lib::stdops::{and_16, and_32, mingle, or_16, or_32, select, xor_16, xor_32};

#[test]
fn mingle_interleaves_left_operand_into_odd_bits() {
    assert_eq!(mingle(0xffff, 0), 0xaaaa_aaaa);
    assert_eq!(mingle(1, 0), 2);
    assert_eq!(mingle(3, 0), 0xa);
}

#[test]
fn mingle_interleaves_right_operand_into_even_bits() {
    assert_eq!(mingle(0, 0xffff), 0x5555_5555);
    assert_eq!(mingle(0, 1), 1);
}

#[test]
fn mingle_mixed_values() {
    assert_eq!(mingle(0x1234, 0x5678), 0x131c_1f60);
    assert_eq!(mingle(0xffff, 0xffff), 0xffff_ffff);
    assert_eq!(mingle(0, 0), 0);
}

#[test]
fn select_packs_selected_bits_low() {
    assert_eq!(select(0xb3, 0xc9), 0x9);
    assert_eq!(select(0x33, 0x18), 0x2);
    assert_eq!(select(0xaaaa_aaaa, 0xffff_ffff), 0xaaaa_aaaa);
}

#[test]
fn select_with_empty_mask_is_zero() {
    assert_eq!(select(5, 0), 0);
    assert_eq!(select(0xffff, 0xffff_0000), 0);
}

#[test]
fn select_undoes_mingle() {
    let m = mingle(0x1234, 0x5678);
    assert_eq!(select(m, 0xaaaa_aaaa), 0x1234);
    assert_eq!(select(m, 0x5555_5555), 0x5678);
    assert_eq!(select(0x1234_5678, 0xaaaa_aaaa), 0x1416);
    assert_eq!(select(0x1234_5678, 0x5555_5555), 0x46ec);
}

#[test]
fn unary_operators_16_bit() {
    assert_eq!(and_16(0x1234), 0x10);
    assert_eq!(or_16(0x1234), 0x1b3e);
    assert_eq!(xor_16(0x1234), 0x1b2e);
    assert_eq!(and_16(77), 0x4);
    assert_eq!(or_16(77), 0x806f);
    assert_eq!(xor_16(77), 0x806b);
}

#[test]
fn unary_operators_16_bit_rotate_low_bit_to_top() {
    assert_eq!(and_16(1), 0);
    assert_eq!(or_16(1), 0x8001);
    assert_eq!(xor_16(1), 0x8001);
    assert_eq!(and_16(0xffff), 0xffff);
    assert_eq!(or_16(0xffff), 0xffff);
    assert_eq!(xor_16(0xffff), 0);
    assert_eq!(and_16(0), 0);
}

#[test]
fn unary_operators_32_bit() {
    assert_eq!(and_32(0x1234_5678), 0x0010_0238);
    assert_eq!(or_32(0x1234_5678), 0x1b3e_7f7c);
    assert_eq!(xor_32(0x1234_5678), 0x1b2e_7d44);
    assert_eq!(and_32(1), 0);
    assert_eq!(or_32(1), 0x8000_0001);
    assert_eq!(xor_32(1), 0x8000_0001);
    assert_eq!(xor_32(0xffff_ffff), 0);
}
