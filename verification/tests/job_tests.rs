use wyd::job::{elapsed_seconds, retro_begin_date, Job};

fn job(label: &str, begin: u64, timebox: Option<u64>) -> Job {
    Job { label: label.to_string(), begin_date: begin, timebox, last_notification: None }
}

#[test]
fn no_timebox_never_expires() {
    let j = job("free", 100, None);
    for now in [0u64, 100, 1_000_000, u64::MAX] {
        assert!(!j.timebox_expired(now));
    }
    assert_eq!(j.timebox_remaining(50), None);
}

#[test]
fn timebox_expires_exactly_at_threshold_and_stays() {
    let j = job("boxed", 100, Some(50));
    assert!(!j.timebox_expired(149));
    assert!(j.timebox_expired(150));
    assert!(j.timebox_expired(151));
    assert!(j.timebox_expired(u64::MAX));
}

#[test]
fn timebox_remaining_exact_values() {
    let j = job("boxed", 100, Some(50));
    assert_eq!(j.timebox_remaining(100), Some(50));
    assert_eq!(j.timebox_remaining(120), Some(30));
    assert_eq!(j.timebox_remaining(150), Some(0));
    assert_eq!(j.timebox_remaining(500), Some(0));
}

#[test]
fn remaining_zero_iff_expired() {
    let j = job("boxed", 7, Some(3));
    for now in 0u64..20 {
        let zero = j.timebox_remaining(now) == Some(0);
        assert_eq!(zero, j.timebox_expired(now));
    }
}

#[test]
fn elapsed_seconds_clamps_at_zero() {
    assert_eq!(elapsed_seconds(100, 150), 50);
    assert_eq!(elapsed_seconds(100, 100), 0);
    assert_eq!(elapsed_seconds(150, 100), 0);
}

#[test]
fn retro_begin_date_subtracts() {
    assert_eq!(retro_begin_date(1000, 300), 700);
    assert_eq!(retro_begin_date(1000, 0), 1000);
    assert_eq!(retro_begin_date(1000, 1000), 0);
}
