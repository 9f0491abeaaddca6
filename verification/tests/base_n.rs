use frontend::base_n::{ToBaseN, CASE_INSENSITIVE};

#[test]
fn fixed_length_encoding_pads_with_zeros() {
    assert_eq!(0u32.to_base_fixed_len(CASE_INSENSITIVE).as_str(), "0000000");
    assert_eq!(u32::MAX.to_base_fixed_len(CASE_INSENSITIVE).as_str(), "1z141z3");
}
