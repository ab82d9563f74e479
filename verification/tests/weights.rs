use dock_workspace::weights::{normalize, sum_of, WEIGHT_TOTAL};

fn sum(weights: &Vec<u32>) -> u64 {
    weights.iter().map(|w| *w as u64).sum()
}

#[test]
fn equal_ratios_give_equal_weights() {
    assert_eq!(normalize(&vec![1, 1]), vec![500_000, 500_000]);
    assert_eq!(normalize(&vec![u32::MAX, u32::MAX]), vec![500_000, 500_000]);
}

#[test]
fn ratios_are_rounded_cumulatively() {
    assert_eq!(normalize(&vec![1, 2]), vec![333_333, 666_667]);
    assert_eq!(normalize(&vec![1, 1, 1]), vec![333_333, 333_333, 333_334]);
    assert_eq!(normalize(&vec![3, 1]), vec![750_000, 250_000]);
}

#[test]
fn zero_ratios_give_equal_shares() {
    assert_eq!(normalize(&vec![0, 0, 0]), vec![333_333, 333_333, 333_334]);
    assert_eq!(normalize(&vec![0]), vec![1_000_000]);
}

#[test]
fn a_zero_ratio_among_others_gets_nothing() {
    assert_eq!(normalize(&vec![0, 5]), vec![0, 1_000_000]);
}

#[test]
fn no_ratios_give_no_weights() {
    assert_eq!(normalize(&vec![]), Vec::<u32>::new());
}

#[test]
fn a_single_ratio_gets_everything() {
    assert_eq!(normalize(&vec![7]), vec![WEIGHT_TOTAL]);
}

#[test]
fn normalized_weights_add_up_to_the_total() {
    for ratios in [
        vec![1, 2, 3, 4, 5],
        vec![7, 11, 13],
        vec![u32::MAX, 1, 0, 17],
        vec![0, 0],
        vec![1; 7],
    ] {
        let weights = normalize(&ratios);
        assert_eq!(weights.len(), ratios.len());
        assert_eq!(sum(&weights), WEIGHT_TOTAL as u64);
    }
}

#[test]
fn weights_that_add_up_to_the_total_stay_as_they_are() {
    for weights in [vec![250_000, 750_000], vec![1, 999_999], vec![333_333, 333_333, 333_334]] {
        assert_eq!(normalize(&weights), weights);
    }
}

#[test]
fn sum_of_adds_without_overflow() {
    assert_eq!(sum_of(&vec![]), 0);
    assert_eq!(sum_of(&vec![1, 2, 3]), 6);
    assert_eq!(sum_of(&vec![u32::MAX, u32::MAX, 2]), 2 * (u32::MAX as u128) + 2);
}
