use rafty::timer::{
    elapsed_since, election_timeout, heartbeat_deadline, heartbeat_remaining,
    random_election_timeout,
};

const MS: u64 = 1_000_000;

#[test]
fn timeout_is_base_plus_jitter() {
    assert_eq!(election_timeout(0), 150 * MS);
    assert_eq!(election_timeout(149), 299 * MS);
}

#[test]
fn random_timeouts_stay_in_range_and_vary() {
    let mut seen = Vec::new();
    for _ in 0..400 {
        let t = random_election_timeout();
        assert!(t >= 150 * MS && t < 300 * MS);
        assert_eq!(t % MS, 0);
        if !seen.contains(&t) {
            seen.push(t);
        }
    }
    assert!(seen.len() > 10);
}

#[test]
fn elapsed_never_goes_below_zero() {
    assert_eq!(elapsed_since(10, 25), 15);
    assert_eq!(elapsed_since(25, 10), 0);
}

#[test]
fn heartbeat_round_lasts_fifty_milliseconds() {
    let deadline = heartbeat_deadline(7);
    assert_eq!(deadline, 50 * MS + 7);
    assert_eq!(heartbeat_remaining(deadline, 7), Some(50 * MS));
    assert_eq!(heartbeat_remaining(deadline, deadline - 1), Some(1));
    assert_eq!(heartbeat_remaining(deadline, deadline), None);
    assert_eq!(heartbeat_remaining(deadline, deadline + 1), None);
}
