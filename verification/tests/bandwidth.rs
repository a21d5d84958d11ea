use screen_streamer::bandwidth::{
    BandwidthController, BACKOFF_STEP, FULL_SCALE, HIGH_WATERMARK, LOW_WATERMARK, MIN_SCALE,
    RECOVER_AFTER, RECOVER_STEP,
};

fn fraction(hundredths: u32) -> f32 {
    hundredths as f32 / 100.0
}

#[test]
fn starts_at_full_quality() {
    assert_eq!(fraction(BandwidthController::new().scale()), 1.0);
}

#[test]
fn congestion_backs_off_immediately() {
    let mut c = BandwidthController::new();
    assert_eq!(fraction(c.sample(HIGH_WATERMARK + 1)), 1.0 - fraction(BACKOFF_STEP));
}

#[test]
fn repeated_congestion_stops_at_the_floor() {
    let mut c = BandwidthController::new();
    for _ in 0..50 {
        c.sample(HIGH_WATERMARK + 1);
    }
    assert_eq!(c.scale(), MIN_SCALE);
    assert_eq!(fraction(c.scale()), 0.3);
}

#[test]
fn a_single_clear_sample_does_not_recover_alone() {
    let mut c = BandwidthController::new();
    c.sample(HIGH_WATERMARK + 1); // knock it down first
    let after_backoff = c.scale();
    c.sample(LOW_WATERMARK - 1);
    assert_eq!(
        c.scale(),
        after_backoff,
        "one clear sample shouldn't move it yet"
    );
}

#[test]
fn recovery_needs_a_sustained_clear_streak() {
    let mut c = BandwidthController::new();
    c.sample(HIGH_WATERMARK + 1);
    let after_backoff = c.scale();
    for _ in 0..RECOVER_AFTER - 1 {
        c.sample(LOW_WATERMARK - 1);
    }
    assert_eq!(c.scale(), after_backoff, "not enough clear samples yet");
    c.sample(LOW_WATERMARK - 1);
    assert!(
        c.scale() > after_backoff,
        "streak completed, should recover one step"
    );
}

#[test]
fn recovery_never_exceeds_full_quality() {
    let mut c = BandwidthController::new();
    for _ in 0..100 {
        c.sample(0);
    }
    assert_eq!(fraction(c.scale()), 1.0);
}

#[test]
fn mid_range_samples_hold_steady_and_reset_the_recovery_streak() {
    let mut c = BandwidthController::new();
    c.sample(HIGH_WATERMARK + 1);
    let after_backoff = c.scale();
    c.sample(LOW_WATERMARK - 1); // 1 of RECOVER_AFTER clear samples
    c.sample((LOW_WATERMARK + HIGH_WATERMARK) / 2); // resets the streak
    for _ in 0..RECOVER_AFTER - 1 {
        c.sample(LOW_WATERMARK - 1);
    }
    assert_eq!(
        c.scale(),
        after_backoff,
        "streak was reset by the mid-range sample"
    );
}

#[test]
fn oscillating_congestion_trends_down_not_sideways() {
    // Backoff is one big step; recovery needs several small ones, so a
    // link that keeps tipping over the high watermark should net lose
    // quality even if it also dips clear sometimes.
    let mut c = BandwidthController::new();
    for _ in 0..10 {
        c.sample(HIGH_WATERMARK + 1);
        c.sample(LOW_WATERMARK - 1);
    }
    assert!(fraction(c.scale()) < 1.0);
}

#[test]
fn steps_and_watermarks_are_exact() {
    let mut c = BandwidthController::default();
    assert_eq!(c.sample(HIGH_WATERMARK), FULL_SCALE, "the watermark itself is not congested");
    assert_eq!(c.sample(256 * 1024 + 1), 85);
    assert_eq!(c.sample(usize::MAX), 70);
    assert_eq!(c.sample(LOW_WATERMARK), 70, "the watermark itself is not clear");
    for _ in 0..RECOVER_AFTER {
        c.sample(32 * 1024 - 1);
    }
    assert_eq!(c.scale(), 70 + RECOVER_STEP);
    for _ in 0..RECOVER_AFTER {
        c.sample(0);
    }
    assert_eq!(c.scale(), 80);
}

#[test]
fn the_last_backoff_is_cut_short_by_the_floor() {
    let mut c = BandwidthController::new();
    let scales: Vec<u32> = (0..6).map(|_| c.sample(HIGH_WATERMARK + 1)).collect();
    assert_eq!(scales, [85, 70, 55, 40, 30, 30]);
}
