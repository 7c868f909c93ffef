use insolence::sampler::{accepts, select, Criteria, Descriptor};
use insolence::stream::DrawStream;

fn candidate(key: u64, discovered: bool) -> Descriptor {
    Descriptor { key, discovered }
}

fn strict(threshold: u32) -> Criteria {
    Criteria {
        threshold,
        banned_key: None,
        require_discovered: true,
    }
}

fn lenient(threshold: u32) -> Criteria {
    Criteria {
        threshold,
        banned_key: None,
        require_discovered: false,
    }
}

#[test]
fn exits_on_first_accepted_draw() {
    // Pool [X(discovered = false), Y(discovered = true)], strict mode,
    // threshold 1, draws alternating X, Y, X, Y, ...: the loop exits on the
    // first draw of Y with one pass against the threshold, returning Y.
    let pool = vec![candidate(0, false), candidate(1, true)];
    let mut src = DrawStream::new(vec![0, 1]);
    let r = select(&pool, &strict(1), &mut src, 500, 999);
    assert_eq!(r, 1);
    assert_eq!(src.position(), 0);
}

#[test]
fn repeated_runs_return_the_same_candidate() {
    let pool = vec![
        candidate(10, true),
        candidate(11, false),
        candidate(12, true),
    ];
    let criteria = strict(1);
    let mut a = DrawStream::from_seed(17, 64);
    let mut b = DrawStream::from_seed(17, 64);
    let ra = select(&pool, &criteria, &mut a, 500, 999);
    let rb = select(&pool, &criteria, &mut b, 500, 999);
    assert_eq!(ra, rb);
}

#[test]
fn exhaustion_under_strict_mode_returns_fallback() {
    // Every candidate fails the acceptance test, discovery is required: the
    // budget runs out and the designated fallback comes back, never a pool
    // candidate.
    let pool = vec![candidate(10, false), candidate(11, false)];
    let mut src = DrawStream::from_seed(1, 32);
    let r = select(&pool, &strict(1), &mut src, 50, 999);
    assert_eq!(r, 999);
}

#[test]
fn performs_at_most_max_tries_draws() {
    // All candidates fail, so the loop runs its whole budget: exactly
    // max_tries draws are consumed, no more.
    let pool = vec![candidate(10, false)];
    let mut src = DrawStream::new(vec![0, 0, 0, 0, 0, 0, 0, 0, 0, 0]);
    let r = select(&pool, &strict(1), &mut src, 3, 999);
    assert_eq!(r, 999);
    assert_eq!(src.position(), 3);
}

#[test]
fn accepted_draw_stops_consuming_budget() {
    let pool = vec![candidate(10, true)];
    let mut src = DrawStream::new(vec![0, 0, 0, 0, 0, 0, 0, 0, 0, 0]);
    let r = select(&pool, &strict(1), &mut src, 500, 999);
    assert_eq!(r, 10);
    assert_eq!(src.position(), 1);
}

#[test]
fn banned_key_is_skipped() {
    let pool = vec![candidate(5, true), candidate(6, true)];
    let criteria = Criteria {
        threshold: 1,
        banned_key: Some(5),
        require_discovered: false,
    };
    let mut src = DrawStream::new(vec![0, 1]);
    let r = select(&pool, &criteria, &mut src, 500, 999);
    assert_eq!(r, 6);
}

#[test]
fn zero_threshold_accepts_any_draw() {
    // With threshold 0 the exit test passes on the very first draw whatever
    // the acceptance test said: even an undiscovered candidate under strict
    // mode comes back, since the budget is not exhausted.
    let pool = vec![candidate(10, false)];
    let mut src = DrawStream::new(vec![0]);
    let r = select(&pool, &strict(0), &mut src, 500, 999);
    assert_eq!(r, 10);
    assert_eq!(src.position(), 0);
}

#[test]
fn threshold_above_one_only_exits_by_exhaustion() {
    // The per-iteration pass count is 0 or 1, so a threshold of 2 is never
    // reached: the loop runs its budget out even over discovered candidates.
    // Without strict mode the last drawn candidate comes back; with it, the
    // fallback.
    let pool = vec![candidate(10, true), candidate(11, true)];
    let mut src = DrawStream::new(vec![0, 1]);
    let r = select(&pool, &lenient(2), &mut src, 4, 999);
    assert_eq!(r, 11);
    assert_eq!(src.position(), 0);

    let mut src2 = DrawStream::new(vec![0, 1]);
    let r2 = select(&pool, &strict(2), &mut src2, 4, 999);
    assert_eq!(r2, 999);
}

#[test]
fn exhaustion_without_strict_mode_returns_last_draw() {
    // Every draw fails on the ban and discovery is not required: exhaustion
    // returns the last candidate examined, even though it never passed.
    let pool = vec![candidate(21, true)];
    let criteria = Criteria {
        threshold: 1,
        banned_key: Some(21),
        require_discovered: false,
    };
    let mut src = DrawStream::new(vec![0, 0, 0]);
    let r = select(&pool, &criteria, &mut src, 3, 999);
    assert_eq!(r, 21);
}

#[test]
fn acceptance_test_reads_discovery_and_ban() {
    let c = Criteria {
        threshold: 1,
        banned_key: Some(7),
        require_discovered: true,
    };
    assert!(accepts(&candidate(1, true), &c));
    assert!(!accepts(&candidate(1, false), &c));
    assert!(!accepts(&candidate(7, true), &c));
    let no_ban = strict(1);
    assert!(accepts(&candidate(7, true), &no_ban));
    let relaxed = lenient(1);
    assert!(accepts(&candidate(1, false), &relaxed));
}
