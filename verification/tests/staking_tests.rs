use doughnut::staking::{current_total_payout_for_duration, ExtBuilder, RewardCurve};

fn curve() -> RewardCurve {
    RewardCurve {
        points: vec![
            (0, 25_000_000),
            (500_000_000, 100_000_000),
            (1_000_000_000, 5_000_000),
        ],
    }
}

#[test]
fn ext_builder_default_wants_two_validators() {
    let b = ExtBuilder::default();
    assert_eq!(b.validator_count, 2);
    assert_eq!(b.minimum_validator_count, 0);
    assert_eq!(b.num_validators, None);
}

#[test]
fn validator_ids_step_by_ten_from_eleven() {
    assert_eq!(ExtBuilder::default().validator_ids(), vec![11, 21]);
    let mut b = ExtBuilder::default();
    b.num_validators = Some(4);
    assert_eq!(b.validator_ids(), vec![11, 21, 31, 41]);
    b.num_validators = None;
    b.validator_count = 1;
    assert_eq!(b.validator_ids(), vec![11]);
}

#[test]
fn curve_interpolates_between_its_points() {
    let c = curve();
    assert_eq!(c.eval_ppb(0), 25_000_000);
    assert_eq!(c.eval_ppb(250_000_000), 62_500_000);
    assert_eq!(c.eval_ppb(500_000_000), 100_000_000);
    assert_eq!(c.eval_ppb(750_000_000), 52_500_000);
    assert_eq!(c.eval_ppb(1_000_000_000), 5_000_000);
}

#[test]
fn yearly_reward_scales_with_the_issuance() {
    let c = curve();
    assert_eq!(
        c.calculate_for_fraction_times_denominator(250_000_000, 1_000_000_000),
        62_500_000
    );
    // a stake beyond the issuance caps the ratio at one
    assert_eq!(
        c.calculate_for_fraction_times_denominator(2_000_000_000, 1_000_000_000),
        5_000_000
    );
    assert_eq!(
        c.calculate_for_fraction_times_denominator(1_000_000_000, 4_000_000_000),
        250_000_000
    );
}

#[test]
fn era_payout_takes_the_eras_share_of_the_year() {
    // slot stake doubled gives a staked ratio of one half: yearly reward
    // 100_000_000; one millionth of a year of it is 100_000.
    assert_eq!(
        current_total_payout_for_duration(&curve(), 250_000_000, 1_000_000_000, 31_557_600),
        100_000
    );
    // zero duration earns nothing
    assert_eq!(
        current_total_payout_for_duration(&curve(), 250_000_000, 1_000_000_000, 0),
        0
    );
    // a duration beyond a year is capped at the whole yearly reward
    assert_eq!(
        current_total_payout_for_duration(&curve(), 250_000_000, 1_000_000_000, u64::MAX / 2),
        100_000_000
    );
}
