use kr2r::utils::{check_contiguous, expand_spaced_seed_mask, get_file_limit, set_fd_limit};

#[test]
fn expands_each_bit_to_a_block() {
    // Expanding 0b1010 with a factor of 2 gives 0b11001100.
    assert_eq!(expand_spaced_seed_mask(0b1010, 2), 204);
    // A factor of 1 leaves the mask as it is.
    assert_eq!(expand_spaced_seed_mask(0b0101, 1), 5);
}

#[test]
fn out_of_range_factor_expands_nothing() {
    assert_eq!(expand_spaced_seed_mask(0b1010, 0), 0b1010);
    assert_eq!(expand_spaced_seed_mask(0b1010, 65), 0b1010);
}

#[test]
fn file_budget_fallbacks() {
    assert_eq!(get_file_limit(), 8192);
    assert!(set_fd_limit(1024));
}

#[test]
fn contiguity_of_part_numbers() {
    assert!(check_contiguous(&vec![1, 2, 3]));
    assert!(check_contiguous(&Vec::new()));
    assert!(!check_contiguous(&vec![2, 3]));
    assert!(!check_contiguous(&vec![1, 3]));
    assert!(!check_contiguous(&vec![1, 2, 2]));
}
