use slow_align::utils::{cartesian_product, pack, transpose};

#[test]
fn cartesian_product_of_nothing_is_empty() {
    let lists: Vec<Vec<u32>> = vec![];
    assert!(cartesian_product(&lists).is_empty());
}

#[test]
fn cartesian_product_single_list_wraps_each_element() {
    assert_eq!(cartesian_product(&[vec![1, 2, 3]]), vec![vec![1], vec![2], vec![3]]);
}

#[test]
fn cartesian_product_last_list_varies_fastest() {
    let r = cartesian_product(&[vec![1, 2], vec![10, 20, 30]]);
    assert_eq!(
        r,
        vec![vec![1, 10], vec![1, 20], vec![1, 30], vec![2, 10], vec![2, 20], vec![2, 30]]
    );
}

#[test]
fn cartesian_product_size_is_the_product_of_sizes() {
    let r = cartesian_product(&[vec!['a', 'b'], vec!['c'], vec!['d', 'e', 'f']]);
    assert_eq!(r.len(), 6);
    assert!(r.iter().all(|t| t.len() == 3));
    let r = cartesian_product(&[vec![1, 2], vec![], vec![3]]);
    assert!(r.is_empty());
}

#[test]
fn cartesian_product_of_floats() {
    let r = cartesian_product(&[vec![0.1f32, 0.2], vec![0.0f32]]);
    assert_eq!(r, vec![vec![0.1f32, 0.0], vec![0.2, 0.0]]);
}

#[test]
fn transpose_swaps_rows_and_columns() {
    let m = vec![vec![1, 2, 3], vec![4, 5, 6]];
    assert_eq!(transpose(m.clone()), vec![vec![1, 4], vec![2, 5], vec![3, 6]]);
    assert_eq!(transpose(transpose(m.clone())), m);
}

#[test]
fn transpose_uses_the_width_of_the_first_row() {
    let m = vec![vec![1, 2], vec![3, 4, 5]];
    assert_eq!(transpose(m), vec![vec![1, 3], vec![2, 4]]);
    let m: Vec<Vec<u8>> = vec![vec![], vec![1]];
    assert!(transpose(m).is_empty());
}

#[test]
fn pack_wraps_each_element() {
    assert_eq!(pack(&[0.5f32, 1.0]), vec![vec![0.5f32], vec![1.0]]);
    let empty: [u8; 0] = [];
    assert!(pack(&empty).is_empty());
}
