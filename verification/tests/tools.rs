use coinage::{enumerate, gcd, is_nontrivial, show_coin, show_coins, Spec};

#[test]
fn test_is_nontrivial() {
    assert!(is_nontrivial(1, &vec![1, 2, 3]));
    // For prime numbers, iff there are >= two fractional.
    assert!(is_nontrivial(2, &vec![1, 2, 3]));
    assert!(!is_nontrivial(2, &vec![1, 2, 4]));
    assert!(!is_nontrivial(2, &vec![2, 5, 8]));
    assert!(is_nontrivial(3, &vec![3, 4, 9, 11]));
    assert!(is_nontrivial(3, &vec![3, 5, 9, 11]));
    assert!(!is_nontrivial(3, &vec![3, 5, 9, 12]));
    // For composite, can be okay if none have full fraction.
    assert!(is_nontrivial(6, &vec![2, 12, 18, 21, 27, 32]));
    // But if there is only one of a kind, no.
    assert!(!is_nontrivial(6, &vec![2, 12, 18, 21, 27]));
    assert!(!is_nontrivial(6, &vec![2, 12, 18, 21, 32]));
    // No good if only one fourth (only useful if doubled).
    assert!(!is_nontrivial(4, &vec![4, 9, 18, 22]));
    // But okay if a second one.
    assert!(is_nontrivial(4, &vec![4, 9, 18, 21]));
}

fn binomial(n: usize, k: usize) -> usize {
    if k > n {
        0
    } else {
        (n - k + 1..=n).product::<usize>() / (1..=k).product::<usize>()
    }
}

#[test]
fn test_enumerate_count() {
    for top in 0..=50 {
        for num in 0..7 {
            assert_eq!(
                enumerate(&Spec { top, num, frac: 1 }).count(),
                if top <= 1 {
                    0
                } else {
                    // Below 0 the number to pick wraps to more than there is
                    // to pick from.
                    binomial(top - 2, num.wrapping_sub(1))
                }
            );
        }
    }
}

#[test]
fn test_show_coins() {
    assert_eq!(show_coins(1, &[5, 12, 20]), "5¢ 12¢ 20¢");
    assert_eq!(show_coins(2, &[5, 12, 20]), "2¢1ᵼ 6¢ 10¢");
    assert_eq!(show_coins(2, &[10, 24, 40]), "5¢ 12¢ 20¢");
}

#[test]
fn gcd_of_small_numbers() {
    assert_eq!(gcd(12, 18), 6);
    assert_eq!(gcd(18, 12), 6);
    assert_eq!(gcd(7, 13), 1);
    assert_eq!(gcd(21, 7), 7);
    assert_eq!(gcd(1, 1), 1);
}

#[test]
fn gcd_with_zero_is_the_other_number() {
    assert_eq!(gcd(0, 5), 5);
    assert_eq!(gcd(5, 0), 5);
    assert_eq!(gcd(0, 0), 0);
}

#[test]
fn gcd_of_large_numbers() {
    assert_eq!(gcd(usize::MAX, usize::MAX), usize::MAX);
    assert_eq!(gcd(usize::MAX, 1), 1);
    assert_eq!(gcd(1_000_000_007, 998_244_353), 1);
}

#[test]
fn whole_units_accept_every_set() {
    assert!(is_nontrivial(1, &vec![]));
    assert!(is_nontrivial(1, &vec![7]));
    assert!(is_nontrivial(1, &vec![2, 4, 6]));
    assert!(is_nontrivial(1, &vec![5, 5, 5]));
}

#[test]
fn fewer_than_two_fractions_are_rejected() {
    assert!(!is_nontrivial(2, &vec![]));
    assert!(!is_nontrivial(2, &vec![1]));
    assert!(!is_nontrivial(2, &vec![2, 4, 6]));
    assert!(!is_nontrivial(5, &vec![3, 5, 10, 15]));
}

#[test]
fn fractions_that_share_a_divisor_with_the_unit_are_rejected() {
    // 2 and 4 are both fractional under 6, but all are even.
    assert!(!is_nontrivial(6, &vec![2, 4, 6]));
    // Thirds only.
    assert!(!is_nontrivial(6, &vec![2, 4, 8, 12]));
}

#[test]
fn a_fraction_that_the_others_do_not_reach_is_rejected() {
    // Without 21 the others are all even under 6, and 21 is odd.
    assert!(!is_nontrivial(6, &vec![2, 4, 21]));
    // With two odd ones and two that are no multiples of 3 all is well.
    assert!(is_nontrivial(6, &vec![2, 4, 21, 27]));
}

#[test]
fn equal_fractions_count_as_one() {
    // Beside a 3 the other 3 is no other denomination: what is left to
    // divide it is the main unit alone.
    assert!(!is_nontrivial(2, &vec![3, 3]));
    assert!(!is_nontrivial(6, &vec![3, 3]));
    assert!(is_nontrivial(2, &vec![3, 3, 5]));
}

#[test]
fn show_coin_with_main_units_and_fraction() {
    assert_eq!(show_coin(2, 5), "2¢1ᵼ");
    assert_eq!(show_coin(2, 5), format!("{}{}{}{}", 2, '¢', 1, 'ᵼ'));
}

#[test]
fn show_coin_of_nothing_shows_main_units() {
    assert_eq!(show_coin(1, 0), "0¢");
    assert_eq!(show_coin(2, 0), "0¢");
    assert_eq!(show_coin(100, 0), "0¢");
}

#[test]
fn show_coin_below_one_main_unit() {
    assert_eq!(show_coin(4, 3), "3ᵼ");
    assert_eq!(show_coin(100, 99), "99ᵼ");
    assert_eq!(show_coin(3, 2), "2ᵼ");
}

#[test]
fn show_coin_of_whole_main_units() {
    assert_eq!(show_coin(1, 7), "7¢");
    assert_eq!(show_coin(4, 4), "1¢");
    assert_eq!(show_coin(4, 40), "10¢");
}

#[test]
fn show_coin_of_many_digits() {
    assert_eq!(show_coin(1, 1234567890), "1234567890¢");
    assert_eq!(show_coin(1000, 1234567), "1234¢567ᵼ");
    assert_eq!(show_coin(1, 10), "10¢");
    assert_eq!(show_coin(1, 9), "9¢");
    assert_eq!(show_coin(1, 100), "100¢");
    assert_eq!(show_coin(1, usize::MAX), format!("{}¢", usize::MAX));
}

#[test]
fn show_coin_as_the_main_unit_is_announced() {
    // The line that tells how many subunits make a main unit.
    assert_eq!(show_coin(3, 2), "2ᵼ");
    assert_eq!(show_coin(5 + 1, 5), "5ᵼ");
}

#[test]
fn show_coins_of_none_and_of_one() {
    assert_eq!(show_coins(3, &[]), "");
    assert_eq!(show_coins(3, &[4]), "1¢1ᵼ");
    assert_eq!(show_coins(3, &[0, 1]), "0¢ 1ᵼ");
}
