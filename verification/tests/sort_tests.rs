use radix_sort::impls::F32Bits;
use radix_sort::impls::F64Bits;
use radix_sort::make_buf;
use radix_sort::radix_sort;
use radix_sort::should_use_small_algo;
use radix_sort::RadixSortable;
use rand::Rng;

fn test_with_generator<T>(cb: impl FnMut(usize) -> T, len: usize)
where
    T: RadixSortable + PartialOrd + core::fmt::Debug,
{
    let mut numbers: Vec<T> = (0..len).map(cb).collect();
    let mut buf = make_buf(numbers.len());
    radix_sort(&mut numbers, &mut buf);
    assert!(numbers.is_sorted(), "{numbers:?}");
}

fn sort_f32_vec(values: &[f32]) -> Vec<f32> {
    let mut enc: Vec<F32Bits> = values.iter().map(|f| F32Bits { raw: f.to_bits() }).collect();
    let mut buf = make_buf(enc.len());
    radix_sort(&mut enc, &mut buf);
    enc.iter().map(|b| f32::from_bits(b.raw)).collect()
}

fn sort_f64_vec(values: &[f64]) -> Vec<f64> {
    let mut enc: Vec<F64Bits> = values.iter().map(|f| F64Bits { raw: f.to_bits() }).collect();
    let mut buf = make_buf(enc.len());
    radix_sort(&mut enc, &mut buf);
    enc.iter().map(|b| f64::from_bits(b.raw)).collect()
}

fn test_f32_with_generator(cb: impl FnMut(usize) -> f32, len: usize) {
    let numbers: Vec<f32> = (0..len).map(cb).collect();
    let sorted = sort_f32_vec(&numbers);
    assert!(sorted.is_sorted(), "{sorted:?}");
}

#[test]
fn ordered() {
    test_with_generator(|idx| idx as u32, 1024);
    test_f32_with_generator(|idx| idx as f32, 1024);
    test_with_generator(|idx| idx as u8, 1024);
}

#[test]
fn reversed() {
    test_with_generator(|idx| (1024 - idx - 1) as u32, 1024);
    test_f32_with_generator(|idx| (1024 - idx - 1) as f32, 1024);
    test_with_generator(|idx| (1024 - idx - 1) as u8, 1024);
}

#[test]
fn reversed_half_neg() {
    test_with_generator(
        |idx| {
            if idx % 2 == 0 {
                (1024 - idx - 1) as i32 / 2
            } else {
                -((1024 - idx - 1) as i32) / 2
            }
        },
        1024,
    );
    test_f32_with_generator(
        |idx| {
            if idx % 2 == 0 {
                (1024 - idx - 1) as f32 / 2.
            } else {
                -((1024 - idx - 1) as f32) / 2.
            }
        },
        1024,
    );
}

#[test]
fn uniformly_random() {
    let mut rng = rand::rng();
    test_with_generator(|_| rng.next_u32(), 1024);
}

#[test]
fn small_u8_values() {
    let mut values: Vec<u8> = vec![3, 1, 2];
    let mut buf = make_buf(values.len());
    radix_sort(&mut values, &mut buf);
    assert_eq!(values, vec![1, 2, 3]);
}

#[test]
fn signed_i32_values() {
    let mut values: Vec<i32> = vec![-5, 3, -1, 0];
    let mut buf = make_buf(values.len());
    radix_sort(&mut values, &mut buf);
    assert_eq!(values, vec![-5, -1, 0, 3]);
}

#[test]
fn float_f32_values() {
    let sorted = sort_f32_vec(&[-1.5, 2.5, -0.5, 0.0]);
    assert_eq!(sorted, vec![-1.5, -0.5, 0.0, 2.5]);
}

#[test]
fn empty_u32_values() {
    let mut values: Vec<u32> = vec![];
    let mut buf = make_buf(values.len());
    radix_sort(&mut values, &mut buf);
    assert_eq!(values, Vec::<u32>::new());
}

#[test]
fn all_equal_u16_values() {
    let mut values: Vec<u16> = vec![5, 5, 5];
    let mut buf = make_buf(values.len());
    radix_sort(&mut values, &mut buf);
    assert_eq!(values, vec![5, 5, 5]);
}

#[test]
fn duplicates_keep_their_counts() {
    let mut values: Vec<u32> = vec![2, 1, 2, 1, 1, 7, 7];
    let mut buf = make_buf(values.len());
    radix_sort(&mut values, &mut buf);
    assert_eq!(values, vec![1, 1, 1, 2, 2, 7, 7]);
}

#[test]
fn sorting_twice_changes_nothing() {
    let mut values: Vec<i16> = vec![300, -300, 0, 17, -1, 32767, -32768];
    let mut buf = make_buf(values.len());
    radix_sort(&mut values, &mut buf);
    let once = values.clone();
    radix_sort(&mut values, &mut buf);
    assert_eq!(values, once);
}

#[test]
fn extreme_i64_values() {
    let mut values: Vec<i64> = vec![i64::MAX, i64::MIN, 0, -1, 1];
    let mut buf = make_buf(values.len());
    radix_sort(&mut values, &mut buf);
    assert_eq!(values, vec![i64::MIN, -1, 0, 1, i64::MAX]);
}

#[test]
fn extreme_u64_values() {
    let mut values: Vec<u64> = vec![u64::MAX, 0, 1, u64::MAX - 1, 1 << 63];
    let mut buf = make_buf(values.len());
    radix_sort(&mut values, &mut buf);
    assert_eq!(values, vec![0, 1, 1 << 63, u64::MAX - 1, u64::MAX]);
}

#[test]
fn extreme_i8_values() {
    let mut values: Vec<i8> = vec![127, -128, 0, -1, 1, 64, -64];
    let mut buf = make_buf(values.len());
    radix_sort(&mut values, &mut buf);
    assert_eq!(values, vec![-128, -64, -1, 0, 1, 64, 127]);
}

#[test]
fn float_f64_values() {
    let sorted = sort_f64_vec(&[-2.5, 3.5, -0.5, 0.25, 1e300, -1e300]);
    assert_eq!(sorted, vec![-1e300, -2.5, -0.5, 0.25, 3.5, 1e300]);
}

#[test]
fn negative_zero_sorts_before_positive_zero() {
    let sorted = sort_f64_vec(&[0.0, -0.0]);
    assert_eq!(sorted[0].to_bits(), (-0.0f64).to_bits());
    assert_eq!(sorted[1].to_bits(), 0.0f64.to_bits());
}

#[test]
fn float_magnitudes_near_zero() {
    let sorted = sort_f32_vec(&[1e-40, -1e-40, f32::MIN_POSITIVE, -f32::MIN_POSITIVE, 0.0]);
    assert_eq!(
        sorted,
        vec![-f32::MIN_POSITIVE, -1e-40, 0.0, 1e-40, f32::MIN_POSITIVE]
    );
}

#[test]
fn wide_digit_path_agrees_with_comparison_sort() {
    let mut rng = rand::rng();
    let input: Vec<u32> = (0..4096).map(|_| rng.next_u32()).collect();
    let mut values = input.clone();
    let mut buf = make_buf(values.len());
    radix_sort(&mut values, &mut buf);
    let mut expected = input;
    expected.sort_unstable();
    assert_eq!(values, expected);
}

#[test]
fn narrow_digit_path_agrees_with_comparison_sort() {
    let mut rng = rand::rng();
    let input: Vec<u32> = (0..100).map(|_| rng.next_u32()).collect();
    let mut values = input.clone();
    let mut buf = make_buf(values.len());
    radix_sort(&mut values, &mut buf);
    let mut expected = input;
    expected.sort_unstable();
    assert_eq!(values, expected);
}

#[test]
fn random_i64_agrees_with_comparison_sort() {
    let mut rng = rand::rng();
    let input: Vec<i64> = (0..2000).map(|_| rng.next_u64() as i64).collect();
    let mut values = input.clone();
    let mut buf = make_buf(values.len());
    radix_sort(&mut values, &mut buf);
    let mut expected = input;
    expected.sort_unstable();
    assert_eq!(values, expected);
}

#[test]
fn width_policy_thresholds() {
    assert!(should_use_small_algo::<u8>(1_000_000));
    assert!(should_use_small_algo::<u32>(2023));
    assert!(!should_use_small_algo::<u32>(2024));
    assert!(!should_use_small_algo::<u64>(1012));
    assert!(should_use_small_algo::<u64>(1011));
    assert!(should_use_small_algo::<u16>(4047));
    assert!(!should_use_small_algo::<u16>(4048));
}

#[test]
fn make_buf_has_requested_length() {
    let buf: Vec<u32> = make_buf(17);
    assert_eq!(buf.len(), 17);
    let empty: Vec<i8> = make_buf(0);
    assert_eq!(empty.len(), 0);
}

#[test]
fn wide_digit_path_u16_copies_back() {
    let mut values: Vec<u16> = (0..5000).map(|i| (4999 - i) as u16).collect();
    let mut buf = make_buf(values.len());
    radix_sort(&mut values, &mut buf);
    let expected: Vec<u16> = (0..5000).map(|i| i as u16).collect();
    assert_eq!(values, expected);
}

#[test]
fn wide_digit_path_i16_fixes_signs() {
    let mut values: Vec<i16> = (0..5000).map(|i| (i as i16).wrapping_mul(7)).collect();
    let mut buf = make_buf(values.len());
    radix_sort(&mut values, &mut buf);
    let mut expected: Vec<i16> = (0..5000).map(|i| (i as i16).wrapping_mul(7)).collect();
    expected.sort_unstable();
    assert_eq!(values, expected);
}
