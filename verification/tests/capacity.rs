use compactors::capacity::capacity;

#[test]
fn capacities_of_the_lowest_level_for_k_ten() {
    let got: Vec<usize> = (1..12).map(|levels| capacity(10, levels, 0)).collect();
    assert_eq!(got, vec![11, 8, 6, 5, 4, 3, 3, 2, 2, 2, 2]);
}

#[test]
fn the_highest_level_has_capacity_k_plus_one() {
    for k in [1usize, 2, 3, 10, 999, 4294967294] {
        for levels in [1usize, 2, 5, 40] {
            assert_eq!(capacity(k, levels, levels - 1), k + 1);
        }
    }
}

#[test]
fn capacity_does_not_decrease_with_the_level() {
    for k in [1usize, 2, 3, 10, 999, 123456789] {
        for levels in [1usize, 2, 5, 40, 90] {
            for level in 1..levels {
                assert!(capacity(k, levels, level - 1) <= capacity(k, levels, level));
            }
        }
    }
}

#[test]
fn exact_products_are_not_rounded_up() {
    // 0.7 * 10 is 7 and 0.49 * 100 is 49, exactly.
    assert_eq!(capacity(10, 2, 0), 8);
    assert_eq!(capacity(100, 3, 0), 50);
    assert_eq!(capacity(1_000_000, 4, 0), 343_001);
}

#[test]
fn inexact_products_are_rounded_up() {
    // 0.7 * 3 is 2.1, 0.7 * 7 is 4.9.
    assert_eq!(capacity(3, 2, 0), 4);
    assert_eq!(capacity(7, 3, 1), 6);
}

#[test]
fn small_parameters_bottom_out_at_two() {
    assert_eq!(capacity(1, 5, 0), 2);
    assert_eq!(capacity(1, 1, 0), 2);
    assert_eq!(capacity(0, 3, 0), 1);
}

#[test]
fn large_parameters_and_deep_sketches() {
    assert_eq!(capacity(4294967294, 1, 0), 4294967295);
    assert_eq!(capacity(4294967294, 51, 0), 79);
    assert_eq!(capacity(4294967294, 200, 0), 2);
    assert_eq!(capacity(18446744073709551614, 3, 0), 9038904596117680292);
    assert_eq!(capacity(18446744073709551614, 124, 0), 3);
    assert_eq!(capacity(18446744073709551614, 125, 0), 3);
    assert_eq!(capacity(18446744073709551614, 130, 0), 2);
    assert_eq!(capacity(10, usize::MAX, 0), 2);
}
