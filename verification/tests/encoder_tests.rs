use long_converter::ConverterError;
use long_converter::LongConverter;

#[test]
fn fixed_only_encodes_zero() {
    let dims = vec![vec![900u32], vec![7u32], vec![3u32]];
    let c = LongConverter::new(&dims).unwrap();
    assert_eq!(c.to_x(&vec![900u32, 7, 3]), Ok(0u64));
    // fixed dimensions contribute nothing and are not bounds-checked
    assert_eq!(c.to_x(&vec![1u32, 2, 3]), Ok(0u64));
}

#[test]
fn empty_dimension_list_encodes_zero() {
    let dims: Vec<Vec<u32>> = vec![];
    let c = LongConverter::new(&dims).unwrap();
    assert_eq!(c.to_x(&vec![]), Ok(0u64));
}

#[test]
fn single_ranged_dimension_examples() {
    let dims = vec![vec![900u32], vec![0u32, 1, 9, 5], vec![900u32]];
    let c = LongConverter::new(&dims).unwrap();
    assert_eq!(c.to_x(&vec![900u32, 9, 900]), Ok(9u64));
    assert_eq!(c.to_x(&vec![900u32, 0, 900]), Ok(0u64));
    assert_eq!(c.to_x(&vec![900u32, 5, 900]), Ok(5u64));
    // a value in a gap of the declared set still encodes by its offset
    assert_eq!(c.to_x(&vec![900u32, 3, 900]), Ok(3u64));
}

#[test]
fn two_ranged_dimensions_strides() {
    // dimension 1 has range [0, 9] (size 10, stride 1); dimension 2 has
    // range [832, 900] (size 69, stride 10)
    let dims = vec![vec![900u32], vec![0u32, 1, 9, 5], vec![900u32, 832]];
    let c = LongConverter::new(&dims).unwrap();
    assert_eq!(c.to_x(&vec![900u32, 9, 832]), Ok(9u64));
    assert_eq!(c.to_x(&vec![900u32, 0, 832]), Ok(0u64));
    assert_eq!(c.to_x(&vec![900u32, 9, 900]), Ok(9u64 + 10 * 68));
    assert_eq!(c.to_x(&vec![900u32, 3, 833]), Ok(13u64));
}

#[test]
fn empty_dimension_fails() {
    let dims: Vec<Vec<u32>> = vec![vec![]];
    assert_eq!(LongConverter::new(&dims).unwrap_err(), ConverterError::EmptyDimension);
    let dims = vec![vec![900u32], vec![], vec![1u32, 2]];
    assert_eq!(LongConverter::new(&dims).unwrap_err(), ConverterError::EmptyDimension);
}

#[test]
fn encode_is_deterministic() {
    let dims = vec![vec![0u32, 1, 9, 5], vec![900u32, 832]];
    let c = LongConverter::new(&dims).unwrap();
    let key = vec![7u32, 850];
    assert_eq!(c.to_x(&key), c.to_x(&key));
    assert_eq!(c.to_x(&vec![77u32, 850]), c.to_x(&vec![77u32, 850]));
}

#[test]
fn injective_over_full_product() {
    // ranges of sizes 2, 3 and 4: the 24 in-range tuples must map
    // one-to-one onto 0..24
    let dims = vec![vec![0u32, 1], vec![0u32, 2], vec![0u32, 3]];
    let c = LongConverter::new(&dims).unwrap();
    let mut seen = vec![false; 24];
    for a in 0u32..2 {
        for b in 0u32..3 {
            for d in 0u32..4 {
                let x = c.to_x(&vec![a, b, d]).unwrap();
                assert!(x < 24);
                assert!(!seen[x as usize]);
                seen[x as usize] = true;
            }
        }
    }
    assert!(seen.iter().all(|&s| s));
}

#[test]
fn boundary_min_and_max() {
    // range [5, 9]: the minimum contributes 0, the maximum contributes
    // stride * (range size - 1)
    let dims = vec![vec![5u32, 9]];
    let c = LongConverter::new(&dims).unwrap();
    assert_eq!(c.to_x(&vec![5u32]), Ok(0u64));
    assert_eq!(c.to_x(&vec![9u32]), Ok(4u64));
}

#[test]
fn max_index_is_product_minus_one() {
    let dims = vec![vec![0u32, 1], vec![0u32, 2], vec![0u32, 3]];
    let c = LongConverter::new(&dims).unwrap();
    assert_eq!(c.to_x(&vec![1u32, 2, 3]), Ok(23u64));
}

#[test]
fn out_of_range_reports_position_and_value() {
    let dims = vec![vec![900u32], vec![0u32, 1, 9, 5]];
    let c = LongConverter::new(&dims).unwrap();
    assert_eq!(c.to_x(&vec![900u32, 77]), Err(ConverterError::OutOfRange(1, 77)));
    let dims = vec![vec![5u32, 9]];
    let c = LongConverter::new(&dims).unwrap();
    assert_eq!(c.to_x(&vec![3u32]), Err(ConverterError::OutOfRange(0, 3)));
}

#[test]
fn out_of_range_reports_first_violation() {
    let dims = vec![vec![0u32, 1], vec![10u32, 20]];
    let c = LongConverter::new(&dims).unwrap();
    assert_eq!(c.to_x(&vec![5u32, 5]), Err(ConverterError::OutOfRange(0, 5)));
    assert_eq!(c.to_x(&vec![1u32, 5]), Err(ConverterError::OutOfRange(1, 5)));
}

#[test]
fn equal_values_still_ranged() {
    // two declared values that happen to be equal: range size 1
    let dims = vec![vec![4u32, 4]];
    let c = LongConverter::new(&dims).unwrap();
    assert_eq!(c.to_x(&vec![4u32]), Ok(0u64));
    assert_eq!(c.to_x(&vec![5u32]), Err(ConverterError::OutOfRange(0, 5)));
}

#[test]
fn benchmark_table_encoding() {
    // strides: dim 1 -> 1, dim 3 -> 10, dim 4 -> 690, dim 7 -> 84180,
    // dim 9 -> 252540, dim 10 -> 1767780
    let dims = vec![
        vec![900u32],
        vec![0u32, 1, 9, 5],
        vec![900u32],
        vec![900u32, 832],
        vec![3u32, 6, 8, 4, 2, 2, 44, 56, 67, 32, 123],
        vec![900u32],
        vec![900u32],
        vec![10_000_000u32, 10_000_002, 10_000_001],
        vec![900u32],
        vec![4u32, 9, 10],
        vec![9u32, 4],
    ];
    let c = LongConverter::new(&dims).unwrap();
    let key = vec![9u32, 5, 900, 832, 67, 800, 1_000_000, 10_000_001, 3, 4, 9];
    // 5 + 0 + 690 * 65 + 84180 * 1 + 0 + 1767780 * 5
    assert_eq!(c.to_x(&key), Ok(8_967_935u64));
}

#[test]
fn wide_range_boundaries() {
    let dims = vec![vec![0u32, 4_294_967_295], vec![0u32, 1]];
    let c = LongConverter::new(&dims).unwrap();
    assert_eq!(c.to_x(&vec![0u32, 0]), Ok(0u64));
    assert_eq!(c.to_x(&vec![4_294_967_295u32, 1]), Ok(8_589_934_591u64));
}
