use cnfgen::combinations::{
    combinations_sequential, combinations_with_threshold, generate_combinations_optimized,
};

fn binomial(n: u64, k: u64) -> u64 {
    if k == 0 {
        1
    } else if n == 0 {
        0
    } else {
        binomial(n - 1, k - 1) + binomial(n - 1, k)
    }
}

#[test]
fn sequential_and_parallel_paths_agree() {
    let items: Vec<i32> = (1..=12).collect();
    for k in 0..=12usize {
        let mut seq_out = combinations_sequential(&items, k);
        let mut par_out = combinations_with_threshold(&items, k, 1);
        let mut def_out = generate_combinations_optimized(&items, k);
        seq_out.sort();
        par_out.sort();
        def_out.sort();
        assert_eq!(seq_out, par_out, "k={}", k);
        assert_eq!(seq_out, def_out, "k={}", k);
    }
}

#[test]
fn combination_count_is_binomial() {
    let items: Vec<i32> = (1..=11).collect();
    for k in 0..=11usize {
        let out = combinations_with_threshold(&items, k, 2);
        assert_eq!(out.len() as u64, binomial(11, k as u64), "k={}", k);
    }
}

#[test]
fn each_combination_has_k_distinct_elements_of_input() {
    let items: Vec<i32> = vec![3, 1, 4, 15, 9, 2, 6, 5, 35, 8, 97, 93];
    let k = 4usize;
    let out = combinations_with_threshold(&items, k, 1);
    for combo in &out {
        assert_eq!(combo.len(), k);
        for (pos, x) in combo.iter().enumerate() {
            assert!(items.contains(x));
            assert!(!combo[pos + 1..].contains(x));
        }
    }
    let mut sorted = out.clone();
    sorted.sort();
    sorted.dedup();
    assert_eq!(sorted.len(), out.len());
}

#[test]
fn combination_edge_cases() {
    let items: Vec<i32> = vec![7, 8, 9];
    assert_eq!(generate_combinations_optimized(&items, 0), vec![Vec::<i32>::new()]);
    let empty: Vec<i32> = Vec::new();
    assert_eq!(generate_combinations_optimized(&empty, 2), Vec::<Vec<i32>>::new());
    assert_eq!(generate_combinations_optimized(&items, 4), Vec::<Vec<i32>>::new());
    assert_eq!(
        generate_combinations_optimized(&items, 1),
        vec![vec![7], vec![8], vec![9]]
    );
}

#[test]
fn subsets_preserve_relative_order() {
    let items: Vec<i32> = (1..=10).collect();
    let out = combinations_with_threshold(&items, 3, 1);
    for combo in &out {
        assert!(combo[0] < combo[1] && combo[1] < combo[2]);
    }
}
