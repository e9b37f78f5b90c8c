use dice_roll::{Dice, Distribution};

fn dice(count: u8, sides: u8, modifier: i32) -> Dice {
    Dice { sides, count, modifier }
}

fn distribution(count: u8, sides: u8, modifier: i32) -> Distribution {
    dice(count, sides, modifier).roll_distribution().unwrap()
}

fn percentages(distribution: &Distribution) -> Vec<f64> {
    distribution
        .frequencies
        .iter()
        .map(|&frequency| (frequency as f64 / distribution.outcomes as f64) * 100.0)
        .collect()
}

/// Counts the outcomes one by one.
fn enumerate(count: u8, sides: u8, sum: i64, frequencies: &mut std::collections::BTreeMap<i64, u64>) {
    if count == 0 {
        *frequencies.entry(sum).or_insert(0) += 1;
        return;
    }
    for face in 1..=sides {
        enumerate(count - 1, sides, sum + face as i64, frequencies);
    }
}

#[test]
fn two_six_sided_dice() {
    let d = distribution(2, 6, 0);
    assert_eq!(d.totals, vec![2, 3, 4, 5, 6, 7, 8, 9, 10, 11, 12]);
    assert_eq!(d.frequencies, vec![1, 2, 3, 4, 5, 6, 5, 4, 3, 2, 1]);
    assert_eq!(d.outcomes, 36);
}

#[test]
fn seven_is_the_likeliest_total_of_two_dice() {
    let d = distribution(2, 6, 0);
    let p = percentages(&d);
    let highest = p.iter().cloned().fold(f64::MIN, f64::max);
    let lowest = p.iter().cloned().fold(f64::MAX, f64::min);
    let at = |total: i64| p[d.totals.iter().position(|&t| t == total).unwrap()];
    assert_eq!(at(7), highest);
    assert!((at(7) - 100.0 * 6.0 / 36.0).abs() < 1e-9);
    assert!((at(7) - 16.667).abs() < 1e-3);
    assert_eq!(at(2), lowest);
    assert_eq!(at(12), lowest);
    assert!((at(2) - 2.778).abs() < 1e-3);
    assert_eq!(p.iter().filter(|&&x| x == highest).count(), 1);
}

#[test]
fn percentages_sum_to_one_hundred() {
    for (count, sides) in [(1, 6), (2, 6), (3, 6), (4, 10), (5, 4), (6, 20), (1, 255), (10, 3), (63, 2), (8, 255)] {
        let d = distribution(count, sides, 3);
        let sum: f64 = percentages(&d).iter().sum();
        assert!((sum - 100.0).abs() <= 1e-9 * 100.0, "{}d{}: {}", count, sides, sum);
    }
}

#[test]
fn frequencies_sum_to_the_number_of_outcomes() {
    for (count, sides) in [(1, 1), (1, 6), (2, 6), (3, 6), (4, 10), (6, 20), (7, 255), (20, 9), (63, 2)] {
        let d = distribution(count, sides, -1);
        let sum: u128 = d.frequencies.iter().map(|&f| f as u128).sum();
        assert_eq!(sum, d.outcomes as u128);
        assert_eq!(sum, (sides as u128).pow(count as u32));
    }
}

#[test]
fn the_distribution_is_the_same_each_time() {
    let one = dice(4, 6, 2);
    let first = one.roll_distribution();
    let second = one.roll_distribution();
    assert_eq!(first, second);
    let first: Vec<u64> = percentages(&first.unwrap()).iter().map(|p| p.to_bits()).collect();
    let second: Vec<u64> = percentages(&second.unwrap()).iter().map(|p| p.to_bits()).collect();
    assert_eq!(first, second);
}

#[test]
fn three_dice_with_a_modifier() {
    let d = distribution(3, 6, 2);
    assert_eq!(d.totals, (5..=20).collect::<Vec<i64>>());
    assert_eq!(d.frequencies, vec![1, 3, 6, 10, 15, 21, 25, 27, 27, 25, 21, 15, 10, 6, 3, 1]);
    assert_eq!(d.outcomes, 216);
}

#[test]
fn the_modifier_shifts_every_total_once() {
    let plain = distribution(3, 4, 0);
    let shifted = distribution(3, 4, -10);
    assert_eq!(shifted.frequencies, plain.frequencies);
    assert_eq!(shifted.outcomes, plain.outcomes);
    let moved: Vec<i64> = plain.totals.iter().map(|t| t - 10).collect();
    assert_eq!(shifted.totals, moved);
    assert_eq!(shifted.totals[0], -7);
}

#[test]
fn one_die_is_uniform() {
    let d = distribution(1, 20, 0);
    assert_eq!(d.totals, (1..=20).collect::<Vec<i64>>());
    assert_eq!(d.frequencies, vec![1; 20]);
    assert_eq!(d.outcomes, 20);
    assert!(percentages(&d).iter().all(|&p| p == 5.0));
}

#[test]
fn dice_with_one_side_have_one_total() {
    let d = distribution(255, 1, 7);
    assert_eq!(d.totals, vec![262]);
    assert_eq!(d.frequencies, vec![1]);
    assert_eq!(d.outcomes, 1);
    assert_eq!(percentages(&d), vec![100.0]);
}

#[test]
fn totals_ascend_without_gaps_and_reach_the_extremes() {
    let d = distribution(5, 12, i32::MAX);
    assert_eq!(d.totals.len(), 5 * 11 + 1);
    assert_eq!(d.totals[0], 5 + i32::MAX as i64);
    assert_eq!(*d.totals.last().unwrap(), 60 + i32::MAX as i64);
    assert!(d.totals.windows(2).all(|w| w[1] == w[0] + 1));
    assert!(d.frequencies.iter().all(|&f| f > 0));
    let d = distribution(2, 2, i32::MIN);
    assert_eq!(d.totals, vec![-2147483646, -2147483645, -2147483644]);
    assert_eq!(d.frequencies, vec![1, 2, 1]);
}

#[test]
fn frequencies_agree_with_counting_every_outcome() {
    for (count, sides, modifier) in [(1, 1, 0), (1, 6, 0), (2, 6, 3), (3, 5, -4), (4, 4, 0), (5, 3, 9), (2, 20, 0), (6, 2, -1)] {
        let mut counted = std::collections::BTreeMap::new();
        enumerate(count, sides, modifier as i64, &mut counted);
        let d = distribution(count, sides, modifier);
        assert_eq!(d.totals, counted.keys().cloned().collect::<Vec<i64>>());
        assert_eq!(d.frequencies, counted.values().cloned().collect::<Vec<u64>>());
        assert_eq!(d.outcomes, counted.values().sum::<u64>());
    }
}

#[test]
fn frequencies_are_symmetric() {
    for (count, sides) in [(2, 6), (3, 6), (5, 7), (10, 10)] {
        let d = distribution(count, sides, 0);
        let mut mirrored = d.frequencies.clone();
        mirrored.reverse();
        assert_eq!(d.frequencies, mirrored);
    }
}

#[test]
fn outcomes_are_counted_where_they_fit() {
    assert_eq!(dice(2, 6, 0).outcome_count(), Some(36));
    assert_eq!(dice(3, 6, 100).outcome_count(), Some(216));
    assert_eq!(dice(255, 1, 0).outcome_count(), Some(1));
    assert_eq!(dice(1, 255, 0).outcome_count(), Some(255));
    assert_eq!(dice(63, 2, 0).outcome_count(), Some(1 << 63));
    assert_eq!(dice(64, 2, 0).outcome_count(), None);
    assert_eq!(dice(8, 255, 0).outcome_count(), Some(17878103347812890625));
    assert_eq!(dice(9, 255, 0).outcome_count(), None);
    assert_eq!(dice(255, 255, 0).outcome_count(), None);
    assert_eq!(dice(40, 3, 0).outcome_count(), Some(12157665459056928801));
    assert_eq!(dice(41, 3, 0).outcome_count(), None);
}

#[test]
fn no_distribution_where_the_outcomes_do_not_fit() {
    assert_eq!(dice(64, 2, 0).roll_distribution(), None);
    assert_eq!(dice(9, 255, 0).roll_distribution(), None);
    assert_eq!(dice(255, 255, 5).roll_distribution(), None);
    assert!(dice(63, 2, 0).roll_distribution().is_some());
    assert!(dice(8, 255, 0).roll_distribution().is_some());
}

#[test]
fn many_coins() {
    let d = distribution(63, 2, 0);
    assert_eq!(d.totals.len(), 64);
    assert_eq!(d.frequencies[0], 1);
    assert_eq!(d.frequencies[1], 63);
    assert_eq!(d.frequencies[2], 1953);
    assert_eq!(d.frequencies[63], 1);
    assert_eq!(d.outcomes, 1 << 63);
}

#[test]
fn a_parsed_notation_rolls_and_distributes() {
    let one = Dice::parse("2d4+1").unwrap();
    let d = one.roll_distribution().unwrap();
    assert_eq!(d.totals, vec![3, 4, 5, 6, 7, 8, 9]);
    assert_eq!(d.frequencies, vec![1, 2, 3, 4, 3, 2, 1]);
    let total = one.roll();
    assert!(d.totals.contains(&total));
}
