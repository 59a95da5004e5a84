use distortion_pedal::spectrum_view::{bar_bins, DISPLAY_BARS};
use distortion_pedal::stats::{rate_per_second, MonitorState, MONITOR_INTERVAL_SECS};

#[test]
fn bar_bins_inside_the_spectrum() {
    assert_eq!(bar_bins(2, 5, 1024), Some((2, 5)));
}

#[test]
fn bar_bins_clamped_to_the_spectrum() {
    assert_eq!(bar_bins(1000, 2000, 1024), Some((1000, 1024)));
}

#[test]
fn bar_bins_empty_range_is_skipped() {
    assert_eq!(bar_bins(3, 3, 1024), None);
    assert_eq!(bar_bins(2000, 3000, 1024), None);
    assert_eq!(bar_bins(5, 4, 1024), None);
}

#[test]
fn display_has_128_bars() {
    assert_eq!(DISPLAY_BARS, 128);
}

#[test]
fn rate_over_the_monitor_interval() {
    assert_eq!(MONITOR_INTERVAL_SECS, 2);
    assert_eq!(rate_per_second(88_200, 0, MONITOR_INTERVAL_SECS), 44_100);
    assert_eq!(rate_per_second(100_001, 100_000, 2), 0);
    assert_eq!(rate_per_second(7, 7, 2), 0);
}

#[test]
fn monitor_reports_rates_and_remembers_counters() {
    let mut m = MonitorState::new();
    let r = m.observe(88_200, 88_000);
    assert_eq!((r.input, r.output), (44_100, 44_000));
    assert_eq!((m.last_input, m.last_output), (88_200, 88_000));
    let r = m.observe(88_201, 88_000);
    assert_eq!((r.input, r.output), (0, 0));
    assert_eq!(m.last_input, 88_201);
}
