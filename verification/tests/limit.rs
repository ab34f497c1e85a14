use lpframe::enrich::limit::{Bucket, SingleFlight, MINUTE, SECOND};

const MS: u64 = 1_000_000;

/// Take a token, waiting as long as the bucket asks; how long that was.
fn acquire(b: &mut Bucket, now: &mut u64) -> u64 {
    let mut waited = 0;
    while let Some(wait) = b.take(*now) {
        *now += wait;
        waited += wait;
    }
    waited
}

#[test]
fn a_full_bucket_does_not_delay_the_first_requests() {
    let mut now = 0;
    let mut b = Bucket::per_minute(15, now);
    for i in 0..15 {
        assert_eq!(acquire(&mut b, &mut now), 0, "request {i} waited");
    }
}

#[test]
fn an_empty_bucket_paces_requests_at_the_configured_rate() {
    // 60/min is one per second, which makes the arithmetic checkable.
    let mut now = 0;
    let mut b = Bucket::per_minute(60, now);
    for _ in 0..60 {
        acquire(&mut b, &mut now);
    }
    let waited = acquire(&mut b, &mut now);
    assert!(
        ((waited / MS) as i64 - 1_000).abs() < 50,
        "waited {waited:?}, expected about a second"
    );
}

#[test]
fn a_429_pauses_the_whole_bucket_for_retry_after() {
    let mut now = 0;
    let mut b = Bucket::per_minute(15, now);
    acquire(&mut b, &mut now);
    b.pause(now, 30 * SECOND);
    assert!(b.is_paused(now));

    let waited = acquire(&mut b, &mut now);
    assert!(
        waited >= 29 * SECOND,
        "the pause was not honoured: waited {waited:?}"
    );
    assert!(!b.is_paused(now));
}

#[test]
fn a_longer_pause_is_never_shortened_by_a_later_one() {
    let mut now = 0;
    let mut b = Bucket::per_minute(15, now);
    b.pause(now, 120 * SECOND);
    b.pause(now, 5 * SECOND);
    let waited = acquire(&mut b, &mut now);
    assert!(waited >= 119 * SECOND, "waited {waited:?}");
}

#[test]
fn tokens_come_back_over_time() {
    let mut now = 0;
    let mut b = Bucket::per_second(1, now);
    acquire(&mut b, &mut now);
    now += 5 * SECOND;
    // Capacity equals the rate, so at most one token is ever banked.
    assert_eq!(acquire(&mut b, &mut now), 0);
    assert!(acquire(&mut b, &mut now) >= 900 * MS);
}

#[test]
fn a_minute_has_sixty_seconds() {
    assert_eq!(MINUTE, 60 * SECOND);
}

#[test]
fn a_key_can_only_be_claimed_once_at_a_time() {
    let mut sf = SingleFlight::default();
    let first = sf.enter("mezzanine").expect("first claim");
    assert!(sf.enter("mezzanine").is_none(), "claimed twice");
    let other = sf.enter("kid a").expect("a different key was blocked");
    assert_eq!(sf.in_flight(), 2);
    sf.release(other);

    sf.release(first);
    assert!(
        sf.enter("mezzanine").is_some(),
        "the key was never released"
    );
}
