use splat_render::order::argsort;
use splat_render::radix::{radix_argsort, radix_order};

#[test]
fn argsort_lists_indices_in_ascending_order_of_items() {
    let data = [30u64, 10, 20];
    assert_eq!(argsort(&data), vec![1, 2, 0]);
}

#[test]
fn argsort_keeps_equal_items_in_place_order() {
    let data = [5u64, 1, 5, 1, 5];
    assert_eq!(argsort(&data), vec![1, 3, 0, 2, 4]);
}

#[test]
fn argsort_of_nothing_is_empty() {
    let data: [u64; 0] = [];
    assert_eq!(argsort(&data), Vec::<usize>::new());
}

#[test]
fn radix_order_uses_every_digit() {
    let keys = vec![
        0x0100_0000_0000_0000u64,
        0x0000_0000_0000_0001,
        0x0000_0001_0000_0000,
        0x0000_0000_0001_0000,
        0xffff_ffff_ffff_ffff,
        0,
    ];
    assert_eq!(radix_order(&keys), vec![5, 1, 3, 2, 0, 4]);
}

#[test]
fn radix_argsort_sorts_keys_and_carries_values() {
    let keys = vec![7u64, 3, 9, 3, 0];
    let values = vec![10u32, 11, 12, 13, 14];
    let (k, v) = radix_argsort(&keys, &values);
    assert_eq!(k, vec![0, 3, 3, 7, 9]);
    assert_eq!(v, vec![14, 11, 13, 10, 12]);
}

#[test]
fn radix_argsort_is_stable_on_duplicate_keys() {
    let keys = vec![1u64; 600];
    let values: Vec<u32> = (0..600).collect();
    let (k, v) = radix_argsort(&keys, &values);
    assert_eq!(k, keys);
    assert_eq!(v, values);
}

#[test]
fn radix_argsort_matches_a_stable_comparison_sort() {
    let mut state: u64 = 0x9e37_79b9_7f4a_7c15;
    let mut keys = Vec::new();
    for _ in 0..2000 {
        state ^= state << 13;
        state ^= state >> 7;
        state ^= state << 17;
        keys.push(state % 50 << 32 | (state >> 40) % 4);
    }
    let values: Vec<u32> = (0..2000).collect();
    let (k, v) = radix_argsort(&keys, &values);
    let mut expected: Vec<(u64, u32)> = keys.iter().copied().zip(values.iter().copied()).collect();
    expected.sort_by_key(|r| r.0);
    let got: Vec<(u64, u32)> = k.into_iter().zip(v).collect();
    assert_eq!(got, expected);
}

#[test]
fn argsort_orders_items_of_any_ordered_type() {
    let words = ["pear", "apple", "fig", "apple"];
    assert_eq!(argsort(&words), vec![1, 3, 2, 0]);
    let pairs = [(2u32, 1u32), (1, 9), (2, 0), (1, 9)];
    assert_eq!(argsort(&pairs), vec![1, 3, 2, 0]);
    let one = [String::from("only")];
    assert_eq!(argsort(&one), vec![0]);
}

#[test]
fn argsort_matches_a_stable_sort_by_key() {
    let mut state: u32 = 7;
    let mut data = Vec::new();
    for _ in 0..1000 {
        state = state.wrapping_mul(1103515245).wrapping_add(12345);
        data.push((state >> 16) % 37);
    }
    let mut expected: Vec<usize> = (0..data.len()).collect();
    expected.sort_by_key(|&i| &data[i]);
    assert_eq!(argsort(&data), expected);
}

#[test]
fn argsort_and_radix_order_agree_on_integers() {
    let keys: Vec<u64> = (0..500u64).map(|i| (i * 7919) % 101).collect();
    assert_eq!(argsort(&keys), radix_order(&keys));
}
