use markov_sched::parse::{
    parse_fixed, parse_probability, parse_rewards, parse_values, validate_probability,
    validate_rewards, ParseError,
};

#[test]
fn parse_fixed_reads_scaled_decimals() {
    assert_eq!(parse_fixed(b"0.9"), Some(900_000_000));
    assert_eq!(parse_fixed(b"5"), Some(5_000_000_000));
    assert_eq!(parse_fixed(b"2.5"), Some(2_500_000_000));
    assert_eq!(parse_fixed(b"0.123456789"), Some(123_456_789));
    assert_eq!(parse_fixed(b"0.000000001"), Some(1));
    assert_eq!(parse_fixed(b"1000000"), Some(1_000_000_000_000_000));
    assert_eq!(parse_fixed(b"0"), Some(0));
    assert_eq!(parse_fixed(b"007.250"), Some(7_250_000_000));
}

#[test]
fn parse_fixed_rejects_malformed_or_oversized() {
    assert_eq!(parse_fixed(b""), None);
    assert_eq!(parse_fixed(b"."), None);
    assert_eq!(parse_fixed(b".5"), None);
    assert_eq!(parse_fixed(b"5."), None);
    assert_eq!(parse_fixed(b"1.2.3"), None);
    assert_eq!(parse_fixed(b"-1"), None);
    assert_eq!(parse_fixed(b"1e3"), None);
    assert_eq!(parse_fixed(b"0.0000000001"), None); // ten fraction digits
    assert_eq!(parse_fixed(b"1000001"), None); // beyond the cap
    assert_eq!(parse_fixed(b"1000000.000000001"), None); // just beyond
}

#[test]
fn parse_values_splits_on_commas() {
    assert_eq!(
        parse_values(b"0.1,0.5,0.4"),
        Ok(vec![100_000_000, 500_000_000, 400_000_000])
    );
    assert_eq!(parse_values(b"0.9"), Ok(vec![900_000_000]));
    assert_eq!(parse_values(b"1,2"), Ok(vec![1_000_000_000, 2_000_000_000]));
    assert_eq!(parse_values(b"1,,2"), Err(ParseError::BadNumber));
    assert_eq!(parse_values(b"1,x"), Err(ParseError::BadNumber));
    assert_eq!(parse_values(b""), Err(ParseError::BadNumber));
}

#[test]
fn parse_rewards_wants_exactly_three() {
    assert_eq!(
        parse_rewards(b"5.0,2.5,2.5"),
        Ok(vec![5_000_000_000, 2_500_000_000, 2_500_000_000])
    );
    assert_eq!(parse_rewards(b"1,2"), Err(ParseError::RewardCount(2)));
    assert_eq!(parse_rewards(b"1,2,3,4"), Err(ParseError::RewardCount(4)));
    assert_eq!(parse_rewards(b"1,oops,3"), Err(ParseError::BadNumber));
}

#[test]
fn parse_probability_wants_three_rows_of_three() {
    assert_eq!(
        parse_probability(b"0.1,0.5,0.4;0.2,0.4,0.4;0.2,0.4,0.4"),
        Ok(vec![
            100_000_000,
            500_000_000,
            400_000_000,
            200_000_000,
            400_000_000,
            400_000_000,
            200_000_000,
            400_000_000,
            400_000_000,
        ])
    );
    assert_eq!(
        parse_probability(b"0.1,0.5;0.2,0.4,0.4;0.2,0.4,0.4"),
        Err(ParseError::RowLength(2))
    );
    assert_eq!(
        parse_probability(b"0.1,0.5,0.4;0.2,0.4,0.4"),
        Err(ParseError::ProbabilityCount(6))
    );
    assert_eq!(
        parse_probability(b"0.1,0.5,0.4;0.2,bad,0.4;0.2,0.4,0.4"),
        Err(ParseError::BadNumber)
    );
}

#[test]
fn validation_checks_counts_and_row_sums() {
    let rewards = vec![5_000_000_000u64, 2_500_000_000, 2_500_000_000];
    assert_eq!(
        validate_rewards(&rewards),
        Some([5_000_000_000, 2_500_000_000, 2_500_000_000])
    );
    assert_eq!(validate_rewards(&vec![1, 2]), None);

    let good = vec![
        100_000_000u64,
        500_000_000,
        400_000_000,
        200_000_000,
        400_000_000,
        400_000_000,
        200_000_000,
        400_000_000,
        400_000_000,
    ];
    let packed = validate_probability(&good).expect("rows sum to one");
    assert_eq!(packed[0], 100_000_000);
    assert_eq!(packed[8], 400_000_000);

    // A row off by one scaled unit is rejected.
    let mut bad = good.clone();
    bad[4] += 1;
    assert_eq!(validate_probability(&bad), None);
    assert_eq!(validate_probability(&vec![1_000_000_000; 6]), None);
}
