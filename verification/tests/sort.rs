use rdxsort::floats::{F32Bits, F64Bits};
use rdxsort::sort::RdxSort;

#[test]
fn test_sort_u32_example() {
    let mut data = vec![2u32, 10, 0, 1];
    data.rdxsort();
    assert_eq!(data, vec![0, 1, 2, 10]);
}

#[test]
fn test_sort_u8() {
    let mut data = vec![255u8, 0, 17, 16, 1, 128, 127];
    data.rdxsort();
    assert_eq!(data, vec![0, 1, 16, 17, 127, 128, 255]);
}

#[test]
fn test_sort_u16() {
    let mut data = vec![4097u16, 256, 65535, 0, 513];
    data.rdxsort();
    assert_eq!(data, vec![0, 256, 513, 4097, 65535]);
}

#[test]
fn test_sort_u64() {
    let mut data = vec![u64::MAX, 0, 1u64 << 40, 77, 1u64 << 63];
    data.rdxsort();
    assert_eq!(data, vec![0, 77, 1u64 << 40, 1u64 << 63, u64::MAX]);
}

#[test]
fn test_sort_usize() {
    let mut data = vec![10usize, usize::MAX, 0, 3];
    data.rdxsort();
    assert_eq!(data, vec![0, 3, 10, usize::MAX]);
}

#[test]
fn test_sort_i8_boundary() {
    let mut data = vec![1i8, i8::MAX, i8::MIN, 0, -1];
    data.rdxsort();
    assert_eq!(data, vec![i8::MIN, -1, 0, 1, i8::MAX]);
}

#[test]
fn test_sort_i16() {
    let mut data = vec![-300i16, 300, i16::MIN, i16::MAX, 0, -1, 1];
    data.rdxsort();
    assert_eq!(data, vec![i16::MIN, -300, -1, 0, 1, 300, i16::MAX]);
}

#[test]
fn test_sort_i32() {
    let mut data = vec![5i32, -5, i32::MIN, i32::MAX, 0];
    data.rdxsort();
    assert_eq!(data, vec![i32::MIN, -5, 0, 5, i32::MAX]);
}

#[test]
fn test_sort_i64() {
    let mut data = vec![-1i64, i64::MIN, i64::MAX, 1, 0];
    data.rdxsort();
    assert_eq!(data, vec![i64::MIN, -1, 0, 1, i64::MAX]);
}

#[test]
fn test_sort_isize() {
    let mut data = vec![9isize, -9, isize::MIN, isize::MAX, 0];
    data.rdxsort();
    assert_eq!(data, vec![isize::MIN, -9, 0, 9, isize::MAX]);
}

#[test]
fn test_sort_bool() {
    let mut data = vec![true, false, true, false, false];
    data.rdxsort();
    assert_eq!(data, vec![false, false, false, true, true]);
}

#[test]
fn test_sort_char() {
    let mut data = vec!['z', 'a', '\0', char::MAX, 'M'];
    data.rdxsort();
    assert_eq!(data, vec!['\0', 'M', 'a', 'z', char::MAX]);
}

#[test]
fn test_sort_float_categories() {
    let raw = vec![f32::INFINITY, -0.0f32, 0.0f32, f32::NEG_INFINITY];
    let mut data: Vec<F32Bits> = raw.iter().map(|v| F32Bits { bits: v.to_bits() }).collect();
    data.rdxsort();
    let bits: Vec<u32> = data.iter().map(|v| v.bits).collect();
    let should: Vec<u32> = vec![
        f32::NEG_INFINITY.to_bits(),
        (-0.0f32).to_bits(),
        0.0f32.to_bits(),
        f32::INFINITY.to_bits(),
    ];
    assert_eq!(bits, should);
}

#[test]
fn test_sort_f32_values() {
    let raw = vec![3.5f32, -1.25, 0.0, -0.0, 100.0, -100.0, 0.015625];
    let mut data: Vec<F32Bits> = raw.iter().map(|v| F32Bits { bits: v.to_bits() }).collect();
    data.rdxsort();
    let out: Vec<u32> = data.iter().map(|v| v.bits).collect();
    let should: Vec<u32> = vec![
        (-100.0f32).to_bits(),
        (-1.25f32).to_bits(),
        (-0.0f32).to_bits(),
        0.0f32.to_bits(),
        0.015625f32.to_bits(),
        3.5f32.to_bits(),
        100.0f32.to_bits(),
    ];
    assert_eq!(out, should);
}

#[test]
fn test_sort_f64_values() {
    let raw = vec![2.5f64, -2.5, f64::INFINITY, f64::NEG_INFINITY, -0.0, 0.0, 1e300, -1e300];
    let mut data: Vec<F64Bits> = raw.iter().map(|v| F64Bits { bits: v.to_bits() }).collect();
    data.rdxsort();
    let out: Vec<u64> = data.iter().map(|v| v.bits).collect();
    let should: Vec<u64> = vec![
        f64::NEG_INFINITY.to_bits(),
        (-1e300f64).to_bits(),
        (-2.5f64).to_bits(),
        (-0.0f64).to_bits(),
        0.0f64.to_bits(),
        2.5f64.to_bits(),
        1e300f64.to_bits(),
        f64::INFINITY.to_bits(),
    ];
    assert_eq!(out, should);
}

#[test]
fn test_sort_idempotent() {
    let mut once = vec![9u32, 4, 4, 0, 3000000000, 77];
    once.rdxsort();
    let mut twice = once.clone();
    twice.rdxsort();
    assert_eq!(once, twice);
}

#[test]
fn test_sort_empty_and_single() {
    let mut empty: Vec<u32> = vec![];
    empty.rdxsort();
    assert!(empty.is_empty());

    let mut single = vec![42u16];
    single.rdxsort();
    assert_eq!(single, vec![42]);

    let mut empty_unit: Vec<()> = vec![];
    empty_unit.rdxsort();
    assert!(empty_unit.is_empty());

    let mut units = vec![(), ()];
    units.rdxsort();
    assert_eq!(units, vec![(), ()]);
}

#[test]
fn test_sort_large_u32() {
    let mut data: Vec<u32> = (0..1000u32).map(|i| i.wrapping_mul(2654435761).rotate_left(7) ^ i).collect();
    let mut should = data.clone();
    should.sort();
    data.rdxsort();
    assert_eq!(data, should);
}

#[test]
fn test_sort_large_i32() {
    let mut data: Vec<i32> = (0..1000i64).map(|i| ((i * 2654435761) % 100000 - 50000) as i32).collect();
    let mut should = data.clone();
    should.sort();
    data.rdxsort();
    assert_eq!(data, should);
}

#[test]
fn test_sort_tuple1() {
    let mut data = vec![(3u8,), (1u8,), (2u8,)];
    data.rdxsort();
    assert_eq!(data, vec![(1u8,), (2u8,), (3u8,)]);
}

#[test]
fn test_sort_tuple2_lexicographic() {
    let mut data = vec![(1u8, 5i32), (0u8, 9i32), (1u8, -7i32), (0u8, -2i32)];
    data.rdxsort();
    assert_eq!(data, vec![(0u8, -2i32), (0u8, 9i32), (1u8, -7i32), (1u8, 5i32)]);
}

#[test]
fn test_sort_tuple3_lexicographic() {
    let mut data = vec![
        (1u8, 1337i32, 'x'),
        (1u8, 1337i32, 'a'),
        (0u8, 2000i32, 'z'),
        (1u8, -1i32, 'q'),
    ];
    data.rdxsort();
    assert_eq!(
        data,
        vec![
            (0u8, 2000i32, 'z'),
            (1u8, -1i32, 'q'),
            (1u8, 1337i32, 'a'),
            (1u8, 1337i32, 'x'),
        ]
    );
}

#[test]
fn test_sort_array0() {
    let mut data: Vec<[u8; 0]> = vec![[], []];
    data.rdxsort();
    assert_eq!(data, vec![[], []]);
}

#[test]
fn test_sort_array4() {
    let mut data = vec![
        [1u8, 2, 3, 4],
        [0, 255, 0, 0],
        [1, 2, 3, 3],
        [9, 9, 9, 9],
        [0, 0, 0, 1],
    ];
    data.rdxsort();
    assert_eq!(
        data,
        vec![
            [0u8, 0, 0, 1],
            [0, 255, 0, 0],
            [1, 2, 3, 3],
            [1, 2, 3, 4],
            [9, 9, 9, 9],
        ]
    );
}

#[test]
fn test_sort_array_u16() {
    let mut data = vec![[300u16, 1], [299, 65535], [300, 0]];
    data.rdxsort();
    assert_eq!(data, vec![[299u16, 65535], [300, 0], [300, 1]]);
}
