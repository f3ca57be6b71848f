use merkle_spine::engine::{Error, validate_epochs};

fn corrupted(alg_id: u64, reason: &str) -> Result<(), Error<()>> {
    Err(Error::Corrupted { alg_id, reason: reason.to_string() })
}

#[test]
fn validate_epochs_reports_an_empty_sequence() {
    assert_eq!(validate_epochs::<()>(7, &[], 10), corrupted(7, "epoch sequence is empty"));
}

#[test]
fn validate_epochs_reports_the_numbers_of_a_bad_interval() {
    assert_eq!(validate_epochs::<()>(2, &[(3, 2)], 10), corrupted(2, "epoch start 3 exceeds end 2"));
    assert_eq!(
        validate_epochs::<()>(2, &[(0, 4), (3, 6)], 10),
        corrupted(2, "epoch start 3 is less than prior end 4")
    );
    assert_eq!(
        validate_epochs::<()>(2, &[(0, u64::MAX), (5, 8)], 10),
        corrupted(2, "open epoch (end = u64::MAX) is not the final entry")
    );
}

#[test]
fn validate_epochs_reports_sizes_past_the_log() {
    assert_eq!(validate_epochs::<()>(2, &[(0, 11)], 10), corrupted(2, "epoch end 11 exceeds global size 10"));
    assert_eq!(
        validate_epochs::<()>(2, &[(12, u64::MAX)], 10),
        corrupted(2, "active epoch start 12 exceeds global size 10")
    );
    assert_eq!(validate_epochs::<()>(2, &[(10, u64::MAX)], 10), Ok(()));
}
