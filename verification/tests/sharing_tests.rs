use shamir_algorithm::{ShamirError, ShamirSS};
use std::collections::BTreeMap;

fn pick(shares: &BTreeMap<i32, Vec<u8>>, indices: &[i32]) -> BTreeMap<i32, Vec<u8>> {
    let mut parts: BTreeMap<i32, Vec<u8>> = BTreeMap::new();
    for index in indices {
        parts.insert(*index, shares[index].clone());
    }
    parts
}

#[test]
fn it_works() {
    let secret = b"Hello Shamir Shared Secret!!!!!";
    let numparts = 5;
    let miniumparts = 3;

    let keys = ShamirSS::split(numparts, miniumparts, secret.to_vec());
    assert!(keys.is_ok());
    let keys = keys.unwrap();
    let mut parts: BTreeMap<i32, Vec<u8>> = BTreeMap::new();
    for (key, value) in &keys {
        // Copy only entries with keys less than or equal to 3
        if *key <= miniumparts {
            parts.insert(*key, value.clone());
        }
    }
    let nshared = ShamirSS::join(parts);
    assert!(nshared.is_ok());
    let shared = nshared.unwrap();
    assert_eq!(shared, secret.to_vec());
}

#[test]
fn split_rejects_threshold_of_one() {
    assert_eq!(ShamirSS::split(5, 1, b"x".to_vec()), Err(ShamirError::InvalidThreshold));
    assert_eq!(ShamirSS::split(5, 0, b"x".to_vec()), Err(ShamirError::InvalidThreshold));
    assert_eq!(ShamirSS::split(5, -3, b"x".to_vec()), Err(ShamirError::InvalidThreshold));
}

#[test]
fn split_rejects_fewer_shares_than_threshold() {
    assert_eq!(ShamirSS::split(2, 3, b"x".to_vec()), Err(ShamirError::InsufficientTotalShares));
}

#[test]
fn split_rejects_more_than_255_shares() {
    let secret = b"secret".to_vec();
    assert_eq!(ShamirSS::split(300, 3, secret.clone()), Err(ShamirError::TooManyShares));
    assert_eq!(ShamirSS::split(256, 3, secret), Err(ShamirError::TooManyShares));
}

#[test]
fn split_rejects_empty_secret() {
    assert_eq!(ShamirSS::split(5, 3, Vec::new()), Err(ShamirError::EmptySecret));
}

#[test]
fn split_reports_the_first_broken_rule() {
    // threshold before share count, share count before the limit, the limit before the secret
    assert_eq!(ShamirSS::split(0, 1, Vec::new()), Err(ShamirError::InvalidThreshold));
    assert_eq!(ShamirSS::split(300, 400, Vec::new()), Err(ShamirError::InsufficientTotalShares));
    assert_eq!(ShamirSS::split(300, 3, Vec::new()), Err(ShamirError::TooManyShares));
}

#[test]
fn split_gives_one_share_per_index() {
    let secret = vec![72u8, 101, 108, 108, 111];
    let shares = ShamirSS::split(5, 3, secret.clone()).unwrap();
    assert_eq!(shares.len(), 5);
    let indices: Vec<i32> = shares.keys().copied().collect();
    assert_eq!(indices, vec![1, 2, 3, 4, 5]);
    for share in shares.values() {
        assert_eq!(share.len(), secret.len());
    }
}

#[test]
fn split_at_the_limits() {
    let secret = vec![0u8, 255, 1];
    let shares = ShamirSS::split(255, 255, secret.clone()).unwrap();
    assert_eq!(shares.len(), 255);
    assert_eq!(ShamirSS::join(shares), Ok(secret.clone()));
    let shares = ShamirSS::split(2, 2, secret.clone()).unwrap();
    assert_eq!(shares.len(), 2);
    assert_eq!(ShamirSS::join(shares), Ok(secret));
}

#[test]
fn join_rejects_no_parts() {
    assert_eq!(ShamirSS::join(BTreeMap::new()), Err(ShamirError::NoPartsProvided));
}

#[test]
fn join_rejects_shares_of_different_lengths() {
    let mut parts: BTreeMap<i32, Vec<u8>> = BTreeMap::new();
    parts.insert(1, vec![0x01, 0x02]);
    parts.insert(2, vec![0x01]);
    assert_eq!(ShamirSS::join(parts), Err(ShamirError::InconsistentShareLength));
}

#[test]
fn join_rejects_two_shares_at_one_point() {
    // 1 and 257 have the same low eight bits
    let mut parts: BTreeMap<i32, Vec<u8>> = BTreeMap::new();
    parts.insert(1, vec![10, 20]);
    parts.insert(257, vec![30, 40]);
    assert_eq!(ShamirSS::join(parts), Err(ShamirError::DuplicateShareIndex));
    let mut parts: BTreeMap<i32, Vec<u8>> = BTreeMap::new();
    parts.insert(-255, vec![10]);
    parts.insert(1, vec![30]);
    parts.insert(2, vec![30]);
    assert_eq!(ShamirSS::join(parts), Err(ShamirError::DuplicateShareIndex));
}

#[test]
fn join_checks_lengths_before_points() {
    let mut parts: BTreeMap<i32, Vec<u8>> = BTreeMap::new();
    parts.insert(1, vec![10, 20]);
    parts.insert(257, vec![30]);
    assert_eq!(ShamirSS::join(parts), Err(ShamirError::InconsistentShareLength));
}

#[test]
fn join_of_empty_shares_is_empty() {
    let mut parts: BTreeMap<i32, Vec<u8>> = BTreeMap::new();
    parts.insert(1, Vec::new());
    parts.insert(2, Vec::new());
    assert_eq!(ShamirSS::join(parts), Ok(Vec::new()));
    let mut parts: BTreeMap<i32, Vec<u8>> = BTreeMap::new();
    parts.insert(1, Vec::new());
    parts.insert(257, Vec::new());
    assert_eq!(ShamirSS::join(parts), Ok(Vec::new()));
}

#[test]
fn join_of_one_share_is_that_share() {
    let mut parts: BTreeMap<i32, Vec<u8>> = BTreeMap::new();
    parts.insert(7, vec![99, 0, 255]);
    assert_eq!(ShamirSS::join(parts), Ok(vec![99, 0, 255]));
}

#[test]
fn join_interpolates_each_byte() {
    // the values of 72 + 3x + 5x^2 and of 101 + 7x + 9x^2 at 1, 2 and 3
    let mut parts: BTreeMap<i32, Vec<u8>> = BTreeMap::new();
    parts.insert(1, vec![78, 107]);
    parts.insert(2, vec![90, 79]);
    parts.insert(3, vec![92, 65]);
    assert_eq!(ShamirSS::join(parts.clone()), Ok(vec![72, 101]));
    // two points determine the line through them, not the parabola
    parts.remove(&3);
    assert_eq!(ShamirSS::join(parts), Ok(vec![66, 119]));
}

#[test]
fn join_takes_the_low_byte_of_an_index() {
    // 256 stands at the point zero, where a polynomial takes its constant term
    let mut parts: BTreeMap<i32, Vec<u8>> = BTreeMap::new();
    parts.insert(256, vec![42]);
    parts.insert(1, vec![17]);
    assert_eq!(ShamirSS::join(parts), Ok(vec![42]));
}

#[test]
fn shares_from_polynomials_evaluates_at_each_index() {
    let polys: Vec<Vec<u8>> = vec![vec![72, 3, 5], vec![101, 7, 9], vec![108, 0, 1]];
    let shares = ShamirSS::shares_from_polynomials(5, &polys);
    let mut expected: BTreeMap<i32, Vec<u8>> = BTreeMap::new();
    expected.insert(1, vec![78, 107, 109]);
    expected.insert(2, vec![90, 79, 104]);
    expected.insert(3, vec![92, 65, 105]);
    expected.insert(4, vec![20, 233, 124]);
    expected.insert(5, vec![18, 231, 125]);
    assert_eq!(shares, expected);
    assert_eq!(ShamirSS::join(pick(&shares, &[2, 4, 5])), Ok(vec![72, 101, 108]));
}

#[test]
fn shares_from_polynomials_without_shares_or_polynomials() {
    let polys: Vec<Vec<u8>> = vec![vec![72, 3, 5]];
    assert!(ShamirSS::shares_from_polynomials(0, &polys).is_empty());
    assert!(ShamirSS::shares_from_polynomials(-4, &polys).is_empty());
    let shares = ShamirSS::shares_from_polynomials(2, &Vec::new());
    assert_eq!(shares.len(), 2);
    assert_eq!(shares[&1], Vec::<u8>::new());
    assert_eq!(shares[&2], Vec::<u8>::new());
}

#[test]
fn hello_round_trips_through_every_three_shares() {
    let secret = vec![72u8, 101, 108, 108, 111];
    let shares = ShamirSS::split(5, 3, secret.clone()).unwrap();
    assert_eq!(shares.len(), 5);
    for share in shares.values() {
        assert_eq!(share.len(), 5);
    }
    assert_eq!(ShamirSS::join(pick(&shares, &[1, 2, 3])), Ok(secret.clone()));
    for a in 1..=5 {
        for b in (a + 1)..=5 {
            for c in (b + 1)..=5 {
                assert_eq!(ShamirSS::join(pick(&shares, &[a, b, c])), Ok(secret.clone()));
            }
        }
    }
}

#[test]
fn round_trip_with_more_shares_than_the_threshold() {
    let secret = b"any k or more".to_vec();
    let shares = ShamirSS::split(7, 4, secret.clone()).unwrap();
    assert_eq!(ShamirSS::join(pick(&shares, &[1, 3, 5, 7])), Ok(secret.clone()));
    assert_eq!(ShamirSS::join(pick(&shares, &[2, 3, 4, 6, 7])), Ok(secret.clone()));
    assert_eq!(ShamirSS::join(shares), Ok(secret));
}

#[test]
fn two_subsets_of_threshold_size_join_alike() {
    let secret = b"subset invariance".to_vec();
    let shares = ShamirSS::split(6, 3, secret).unwrap();
    let first = ShamirSS::join(pick(&shares, &[1, 2, 3]));
    let second = ShamirSS::join(pick(&shares, &[4, 5, 6]));
    let third = ShamirSS::join(pick(&shares, &[2, 4, 6]));
    assert!(first.is_ok());
    assert_eq!(first, second);
    assert_eq!(first, third);
}

#[test]
fn too_few_shares_join_to_something_else() {
    let secret = b"Hello Shamir Shared Secret!!!!!".to_vec();
    let shares = ShamirSS::split(5, 3, secret.clone()).unwrap();
    // One share short of the threshold: the join succeeds, and the leading
    // coefficient, which is never zero, keeps every byte away from the secret.
    let joined = ShamirSS::join(pick(&shares, &[1, 2])).unwrap();
    assert_eq!(joined.len(), secret.len());
    assert_ne!(joined, secret);
    // A single share joins to itself.
    let joined = ShamirSS::join(pick(&shares, &[4])).unwrap();
    assert_eq!(joined, shares[&4]);
}

#[test]
fn two_splits_of_one_secret_differ() {
    let secret = b"Hello Shamir Shared Secret!!!!!".to_vec();
    let first = ShamirSS::split(5, 3, secret.clone()).unwrap();
    let second = ShamirSS::split(5, 3, secret.clone()).unwrap();
    assert_ne!(first, second);
    assert_eq!(ShamirSS::join(pick(&first, &[1, 2, 3])), Ok(secret.clone()));
    assert_eq!(ShamirSS::join(pick(&second, &[1, 2, 3])), Ok(secret));
}

#[test]
fn error_messages() {
    assert_eq!(ShamirError::InvalidThreshold.message(), "Threshold k must be greater than 1");
    assert_eq!(
        ShamirError::InsufficientTotalShares.message(),
        "Total shares n must be greater than or equal to k"
    );
    assert_eq!(ShamirError::TooManyShares.message(), "Total shares n cannot exceed 255");
    assert_eq!(ShamirError::EmptySecret.message(), "Secret cannot be empty");
    assert_eq!(ShamirError::NoPartsProvided.message(), "No parts provided");
    assert_eq!(ShamirError::InconsistentShareLength.message(), "Varying lengths of part values");
    assert_eq!(ShamirError::DuplicateShareIndex.message(), "Two parts share one index");
    assert_eq!(ShamirError::DivisionByZero.message(), "Division by zero in GF(256)");
}
