use keccak::bit_string::BitString;
use keccak::KeccakError;

#[test]
fn test_left_shift() {
    let mut a = BitString::from_bitstring(vec![0x9_u64; 1], 4);
    a.left_shift(65);
    assert_eq!(a.array, [0x0_u64, 0x12_u64]);
    let mut b = BitString::from_bitstring(vec![0x9_u64; 1], 4);
    b.left_shift(130);
    assert_eq!(b.array, [0x0_u64, 0x0_u64, 0x24_u64]);
    let mut c = BitString::from_bitstring(vec![0x123_u64], 12);
    c.left_shift(79);
    assert_eq!(c.array, [0x0_u64, 0x918000_u64]);
    let mut d = BitString::from_bitstring(
        vec![
            0x0123456789ABCDEF_u64,
            0xFEDCBA9876543210_u64,
            0x0123456789ABCDEF_u64,
            0xFEDCBA9876543210_u64,
        ],
        256,
    );

    d.left_shift(129);
    assert_eq!(
        d.array,
        [
            0x0000000000000000_u64,
            0x0000000000000000_u64,
            0x02468ACF13579BDE_u64,
            0xFDB97530ECA86420_u64,
            0x02468ACF13579BDF_u64,
            0xFDB97530ECA86420_u64,
            0x1_u64
        ]
    );
}

#[test]
fn test_right_shift() {
    let mut a = BitString::from_bitstring(vec![0x9_u64; 1], 4);
    a.right_shift(2);
    assert_eq!(a.array, [0x2_u64]);
    let mut b = BitString::from_bitstring(vec![0x9_u64, 0xF_u64], 85);
    b.right_shift(4);
    assert_eq!(b.array, [0xF000000000000000_u64, 0_u64]);
    let mut c = BitString::from_bitstring(vec![0x456_u64, 0x123_u64], 76);
    c.right_shift(4);
    assert_eq!(c.array, [0x3000000000000045_u64, 0x12_u64]);
    let mut d = BitString::from_bitstring(
        vec![
            0x0123456789ABCDEF_u64,
            0xFEDCBA9876543210_u64,
            0x0123456789ABCDEF_u64,
            0xFEDCBA9876543210_u64,
        ],
        256,
    );
    d.right_shift(129);
    assert_eq!(d.array, [0x0091A2B3C4D5E6F7_u64, 0x7F6E5D4C3B2A1908_u64]);
}

fn is_canonical(v: &BitString) -> bool {
    let expected_words = if v.length == 0 { 0 } else { (v.length - 1) / 64 + 1 };
    if v.array.len() != expected_words {
        return false;
    }
    for i in v.length..v.array.len() * 64 {
        if (v.array[i / 64] >> (i % 64)) & 1 == 1 {
            return false;
        }
    }
    true
}

#[test]
fn test_canonical_form_after_operations() {
    let mut v = BitString::from_bitstring(vec![u64::MAX, u64::MAX], 100);
    assert!(is_canonical(&v));
    assert_eq!(v.array[1], (1u64 << 36) - 1);
    v.change_length(50);
    assert!(is_canonical(&v));
    assert_eq!(v.array, [(1u64 << 50) - 1]);
    v.change_length(130);
    assert!(is_canonical(&v));
    assert_eq!(v.array, [(1u64 << 50) - 1, 0, 0]);
    v.left_shift(3);
    assert!(is_canonical(&v));
    v.right_shift(70);
    assert!(is_canonical(&v));
    v.right_shift(10_000);
    assert!(is_canonical(&v));
    assert_eq!(v.length, 0);
    assert!(v.array.is_empty());
}

#[test]
fn test_shift_inverse_round_trip() {
    let v = BitString::from_bitstring(vec![0xDEADBEEFCAFE1234_u64, 0x5A5A_u64], 80);
    for n in [0usize, 1, 37, 63, 64, 65, 80] {
        let mut w = v.copy();
        w.left_shift(n);
        w.right_shift(n);
        assert_eq!(w.array, v.array);
        assert_eq!(w.length, v.length);
    }
}

#[test]
fn test_extract_identity() {
    let v = BitString::from_bitstring(vec![0x0123456789ABCDEF_u64, 0xFFFF_u64], 77);
    let e = v.extract(1, v.length).unwrap();
    let c = v.copy();
    assert_eq!(e.array, c.array);
    assert_eq!(e.length, c.length);
}

#[test]
fn test_extract_split_reconstruction() {
    let v = BitString::from_bitstring(vec![0x0123456789ABCDEF_u64, 0x1234_u64], 75);
    for k in [1usize, 13, 64, 74] {
        let mut head = v.extract(1, k).unwrap();
        let tail = v.extract(k + 1, v.length).unwrap();
        head.append(&tail);
        assert_eq!(head.array, v.array);
        assert_eq!(head.length, v.length);
    }
}

#[test]
fn test_extract_range_errors() {
    let v = BitString::from_bitstring(vec![0xFF_u64], 8);
    assert_eq!(v.extract(0, 4).unwrap_err(), KeccakError::RangeError);
    assert_eq!(v.extract(5, 4).unwrap_err(), KeccakError::RangeError);
    assert_eq!(v.extract(1, 9).unwrap_err(), KeccakError::RangeError);
    assert_eq!(v.extract(9, 9).unwrap_err(), KeccakError::RangeError);
    let e = v.extract(2, 5).unwrap();
    assert_eq!(e.length, 4);
    assert_eq!(e.array, [0xF_u64]);
}

#[test]
fn test_append_across_word_boundary() {
    let mut a = BitString::from_bitstring(vec![0x7_u64], 3);
    let b = BitString::from_bitstring(vec![0xFFFFFFFFFFFFFFFF_u64], 64);
    a.append(&b);
    assert_eq!(a.length, 67);
    assert_eq!(a.array, [u64::MAX, 0x7_u64]);
    let mut empty = BitString::new();
    empty.append(&a);
    assert_eq!(empty.array, a.array);
    assert_eq!(empty.length, a.length);
}

#[test]
fn test_from_byte_array() {
    let v = BitString::from_byte_array(vec![0xEF, 0xCD, 0xAB, 0x89, 0x67, 0x45, 0x23, 0x01, 0xFF]);
    assert_eq!(v.length, 72);
    assert_eq!(v.array, [0x0123456789ABCDEF_u64, 0xFF_u64]);
    let empty = BitString::from_byte_array(vec![]);
    assert_eq!(empty.length, 0);
    assert!(empty.array.is_empty());
}

#[test]
fn test_from_string_uses_utf8_bytes() {
    let v = BitString::from_string("a");
    assert_eq!(v.length, 8);
    assert_eq!(v.array, [0x61_u64]);
    let w = BitString::from_string("ab");
    assert_eq!(w.length, 16);
    assert_eq!(w.array, [0x6261_u64]);
}

#[test]
fn test_from_binary_string() {
    let v = BitString::from_binary_string("0110").unwrap();
    assert_eq!(v.length, 4);
    assert_eq!(v.array, [0x6_u64]);
    assert_eq!(
        BitString::from_binary_string("01x0").unwrap_err(),
        KeccakError::InvalidParameter
    );
    assert_eq!(
        BitString::from_binary_string("012").unwrap_err(),
        KeccakError::InvalidParameter
    );
    let empty = BitString::from_binary_string("").unwrap();
    assert_eq!(empty.length, 0);
}

#[test]
fn test_zeroes_and_new() {
    let z = BitString::zeroes(65);
    assert_eq!(z.length, 65);
    assert_eq!(z.array, [0_u64, 0_u64]);
    let z0 = BitString::zeroes(0);
    assert_eq!(z0.length, 0);
    assert!(z0.array.is_empty());
    let n = BitString::new();
    assert_eq!(n.length, 0);
    assert!(n.array.is_empty());
}

#[test]
fn test_to_string_rendering() {
    let v = BitString::from_bitstring(vec![0x0123456789ABCDEF_u64], 64);
    assert_eq!(v.to_string(), "EFCDAB8967452301");
    let w = BitString::from_bitstring(vec![0x0123456789ABCDEF_u64, 0x61_u64], 72);
    assert_eq!(w.to_string(), "EFCDAB8967452301 61");
    assert_eq!(BitString::new().to_string(), "");
}

#[test]
fn test_to_swapped_string_rendering() {
    let v = BitString::from_byte_array(vec![0x01]);
    assert_eq!(v.to_swapped_string(), " 00 00 00 00 00 00 00 80");
}

#[test]
fn test_get_and_set_bit() {
    let mut v = BitString::zeroes(70);
    v.set_bit(0, true);
    v.set_bit(69, true);
    assert!(v.get_bit(0));
    assert!(!v.get_bit(1));
    assert!(v.get_bit(69));
    assert_eq!(v.array, [1_u64, 0x20_u64]);
    v.set_bit(69, false);
    assert_eq!(v.array, [1_u64, 0_u64]);
}
