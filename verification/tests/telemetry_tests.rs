use callandor::telemetry::durations_from_marks;
use callandor::telemetry::FrameDurations;
use callandor::telemetry::SlotRing;
use callandor::telemetry::TimingStats;
use callandor::telemetry::MAX_HISTORY;
use callandor::telemetry::SAMPLE_INTERVAL;
use callandor::telemetry::SLOT_COUNT;

fn ms(total: u64) -> FrameDurations {
    FrameDurations::new(total * 600, total * 300, total * 1000)
}

#[test]
fn pending_slots_are_never_reissued() {
    let mut ring = SlotRing::new();
    for expected in 0..SLOT_COUNT {
        assert_eq!(ring.begin_frame(), Some(expected));
        assert!(ring.is_pending(expected));
    }
    // all four in flight: the measurement for this frame is dropped
    assert_eq!(ring.begin_frame(), None);
    // freeing a slot other than the next write target is not enough
    ring.free(1);
    assert_eq!(ring.begin_frame(), None);
    // once the collector has freed slot 0, recording resumes there
    ring.free(0);
    assert_eq!(ring.begin_frame(), Some(0));
    assert_eq!(ring.begin_frame(), Some(1));
    assert_eq!(ring.begin_frame(), None);
}

#[test]
fn marks_convert_to_scaled_stage_durations() {
    let s = durations_from_marks(0, 1000, 1500, 2500, 1, 1);
    assert_eq!(s.render_us, 1000);
    assert_eq!(s.denoise_us, 1000);
    assert_eq!(s.total_us, 2500);

    // a fractional tick period: 3/2 microseconds per tick
    let s = durations_from_marks(100, 300, 400, 700, 3, 2);
    assert_eq!(s.render_us, 300);
    assert_eq!(s.denoise_us, 450);
    assert_eq!(s.total_us, 900);
}

#[test]
fn percentiles_and_average_over_ten_frames() {
    // ring contents 1..=10 ms: p95 picks the value at rank ceil(9 * 0.95) = 9
    let mut stats = TimingStats::new(1, MAX_HISTORY);
    let mut last = None;
    for total_ms in 1..=10u64 {
        last = stats.record(ms(total_ms));
    }
    let summary = last.expect("interval 1 publishes every frame");
    assert_eq!(summary.sample_count, 10);
    assert_eq!(summary.avg_total_us, 5500);
    assert_eq!(summary.avg_render_us, 3300);
    assert_eq!(summary.avg_denoise_us, 1650);
    assert_eq!(summary.p95_total_us, 10_000);
    assert_eq!(summary.p99_total_us, 10_000);
    assert_eq!(summary.last, ms(10));
}

#[test]
fn percentile_ranks_separate_on_larger_histories() {
    // 100 samples 1..=100 ms: rank ceil(99 * 0.95) = 95 -> 96 ms,
    // rank ceil(99 * 0.99) = 99 -> 100 ms
    let mut stats = TimingStats::new(1, MAX_HISTORY);
    let mut last = None;
    for total_ms in 1..=100u64 {
        last = stats.record(ms(total_ms));
    }
    let summary = last.unwrap();
    assert_eq!(summary.p95_total_us, 96_000);
    assert_eq!(summary.p99_total_us, 100_000);
}

#[test]
fn summaries_are_throttled_to_the_sample_interval() {
    let mut stats = TimingStats::new(SAMPLE_INTERVAL, MAX_HISTORY);
    // the very first sample publishes immediately
    assert!(stats.record(ms(5)).is_some());
    // then nothing for the next interval - 1 frames
    for _ in 0..SAMPLE_INTERVAL - 1 {
        assert!(stats.record(ms(5)).is_none());
    }
    // and the interval-th frame publishes again
    assert!(stats.record(ms(7)).is_some());
}

#[test]
fn ring_evicts_the_oldest_sample() {
    let mut stats = TimingStats::new(1, 3);
    for total_ms in [10u64, 20, 30, 40] {
        stats.record(ms(total_ms));
    }
    let summary = stats.record(ms(50)).unwrap();
    // history now holds 30, 40, 50 ms
    assert_eq!(summary.sample_count, 3);
    assert_eq!(summary.avg_total_us, 40_000);
    assert_eq!(summary.p95_total_us, 50_000);
    assert_eq!(summary.last, ms(50));
}

#[test]
fn zero_interval_is_raised_to_one() {
    let mut stats = TimingStats::new(0, 4);
    assert!(stats.record(ms(1)).is_some());
    assert!(stats.record(ms(2)).is_some());
}
