//! Election timing. Instants and durations are counted in nanoseconds.
use rand::Rng;
use vstd::prelude::*;

verus! {

/// The shortest election timeout, in milliseconds.
pub const ELECTION_TIMEOUT_MIN_MS: u64 = 150;

/// The election timeout exceeds the shortest one by less than this many milliseconds.
pub const ELECTION_TIMEOUT_JITTER_MS: u64 = 150;

/// The time between two heartbeats of a leader, in nanoseconds.
pub const HEARTBEAT_INTERVAL: u64 = 50_000_000;

/// The nanoseconds of a millisecond.
pub const NANOS_PER_MS: u64 = 1_000_000;

/// The time from `since` to `now`, zero where `now` is the earlier one.
pub open spec fn elapsed(since: u64, now: u64) -> int {
    if since <= now {
        now - since
    } else {
        0
    }
}

/// The election timeout, in nanoseconds, that a jitter in milliseconds gives.
pub open spec fn timeout_with(jitter: u64) -> int {
    (ELECTION_TIMEOUT_MIN_MS + jitter) * NANOS_PER_MS
}

/// Whether some jitter gives this election timeout.
pub open spec fn is_election_timeout(timeout: u64) -> bool {
    exists|jitter: u64|
        jitter < ELECTION_TIMEOUT_JITTER_MS && timeout == #[trigger] timeout_with(jitter)
}

/// Calls `rand::Rng::random_range` on the generator that `rand::rng` gives. It panics on an
/// empty range; otherwise the result lies in the range, its lower end included and its
/// upper end excluded. Which of these numbers comes out is chance. The generator is seeded by
/// the operating system; where that gives no randomness, `rand` panics whatever the range.
#[verifier::external_body]
fn random_range(low: u64, high: u64) -> (res: u64)
    requires
        low < high,
    ensures
        low <= res < high,
{
    rand::rng().random_range(low..high)
}

/// The time from `since` to `now`, zero where `now` is the earlier one.
pub fn elapsed_since(since: u64, now: u64) -> (res: u64)
    ensures
        res == elapsed(since, now),
{
    if since <= now {
        now - since
    } else {
        0
    }
}

/// The election timeout, in nanoseconds, that a jitter in milliseconds gives.
pub fn election_timeout(jitter: u64) -> (res: u64)
    requires
        jitter < ELECTION_TIMEOUT_JITTER_MS,
    ensures
        res == timeout_with(jitter),
        is_election_timeout(res),
{
    let res: u64 = (ELECTION_TIMEOUT_MIN_MS + jitter) * NANOS_PER_MS;
    assert(res == timeout_with(jitter));
    res
}

/// An election timeout with a random jitter.
pub fn random_election_timeout() -> (res: u64)
    ensures
        is_election_timeout(res),
{
    election_timeout(random_range(0, ELECTION_TIMEOUT_JITTER_MS))
}

/// When a heartbeat round that starts at `now` ends.
pub fn heartbeat_deadline(now: u64) -> (res: u64)
    requires
        now + HEARTBEAT_INTERVAL <= u64::MAX,
    ensures
        res == now + HEARTBEAT_INTERVAL,
{
    now + HEARTBEAT_INTERVAL
}

/// How long to wait at `now` for a round that ends at `deadline`; nothing where the
/// round is over.
pub fn heartbeat_remaining(deadline: u64, now: u64) -> (res: Option<u64>)
    ensures
        res == if now < deadline {
            Some((deadline - now) as u64)
        } else {
            None
        },
{
    if now < deadline {
        Some(deadline - now)
    } else {
        None
    }
}

/// An election timeout is a whole number of milliseconds, from 150 up to, but not
/// including, 300.
pub proof fn law_timeout_range(timeout: u64)
    ensures
        is_election_timeout(timeout) <==> 150_000_000 <= timeout < 300_000_000 && timeout % 1_000_000
            == 0,
{
    if 150_000_000 <= timeout < 300_000_000 && timeout % 1_000_000 == 0 {
        let jitter = (timeout / 1_000_000 - 150) as u64;
        assert(timeout == timeout_with(jitter));
    }
}

/// A leader's heartbeats come more often than any follower's election timeout.
pub proof fn law_heartbeat_before_timeout(timeout: u64)
    requires
        is_election_timeout(timeout),
    ensures
        2 * HEARTBEAT_INTERVAL < timeout,
{
}

/// A jitter of some milliseconds adds these to the shortest election timeout of 150 ms, and every
/// jitter below 150 ms gives an election timeout.
pub proof fn law_jitter_adds_to_shortest_timeout(jitter: u64)
    ensures
        timeout_with(jitter) == 150_000_000 + jitter * 1_000_000,
        ELECTION_TIMEOUT_JITTER_MS == 150,
        jitter < 150 ==> is_election_timeout((150_000_000 + jitter * 1_000_000) as u64),
{
    if jitter < 150 {
        assert(timeout_with(jitter) == (150_000_000 + jitter * 1_000_000) as u64);
    }
}

/// A leader's round lasts 50 ms.
pub proof fn law_heartbeat_interval()
    ensures
        HEARTBEAT_INTERVAL == 50_000_000,
{
}

/// Time that has passed adds up, and a clock that runs backwards has measured none.
pub proof fn law_elapsed_time(since: u64, now: u64)
    ensures
        elapsed(since, now) >= 0,
        since <= now ==> since + elapsed(since, now) == now,
        since > now ==> elapsed(since, now) == 0,
{
}

} // verus!
