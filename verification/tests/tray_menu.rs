use bwlimit::icon::icon_rgba;
use bwlimit::tray::{
    limit_tooltip, poll_delay_ms, preset_checks, preset_label, preset_limits, preset_request,
    startup_request, usage_row, LimitRequest, UsageRow, POLL_INTERVAL_MS, USAGE_ROWS,
};

#[test]
fn tooltips() {
    assert_eq!(limit_tooltip(0), "Bandwidth Limiter – Unlimited");
    assert_eq!(limit_tooltip(5), "Bandwidth Limiter – 5 Mbit/s");
    assert_eq!(limit_tooltip(100), "Bandwidth Limiter – 100 Mbit/s");
}

#[test]
fn preset_labels() {
    let labels: Vec<String> = preset_limits().iter().map(|m| preset_label(*m)).collect();
    assert_eq!(
        labels,
        vec![
            "1 Mbit/s", "2 Mbit/s", "3 Mbit/s", "4 Mbit/s", "5 Mbit/s", "10 Mbit/s", "25 Mbit/s",
            "50 Mbit/s", "100 Mbit/s", "Unlimited"
        ]
    );
}

#[test]
fn choosing_a_preset_checks_only_it() {
    let presets = preset_limits();
    for chosen in &presets {
        let checks = preset_checks(&presets, *chosen);
        assert_eq!(checks.iter().filter(|c| **c).count(), 1);
    }
    assert!(preset_checks(&presets, 7).iter().all(|c| !*c));
}

#[test]
fn requests() {
    assert_eq!(preset_request(0), LimitRequest::Lift);
    assert_eq!(preset_request(25), LimitRequest::Apply(25));
    assert_eq!(startup_request(0), None);
    assert_eq!(startup_request(3), Some(LimitRequest::Apply(3)));
}

#[test]
fn usage_rows() {
    assert_eq!(usage_row(0, 0), UsageRow::NoActivity);
    assert_eq!(usage_row(1, 0), UsageRow::Blank);
    assert_eq!(usage_row(1, 2), UsageRow::App(1));
    assert_eq!(usage_row(2, 2), UsageRow::Blank);
    assert_eq!(USAGE_ROWS, 5);
}

#[test]
fn arrow_icon() {
    let rgba = icon_rgba();
    assert_eq!(rgba.len(), 18 * 18 * 4);
    let opaque = |x: usize, y: usize| rgba[(y * 18 + x) * 4 + 3] == 255;
    assert!(opaque(9, 3));
    assert!(!opaque(8, 3));
    assert!(opaque(4, 8) && opaque(14, 8));
    assert!(opaque(8, 15) && opaque(10, 15) && !opaque(11, 15));
    assert!(!opaque(9, 16));
    assert_eq!(rgba.iter().enumerate().filter(|(i, b)| i % 4 != 3 && **b != 0).count(), 0);
    // head: rows 3..=8 with 1,3,5,7,9,11 pixels; shaft rows 9..=15 add 3 each
    assert_eq!((0..324).filter(|p| rgba[p * 4 + 3] == 255).count(), 36 + 21);
}

#[test]
fn poll_delays() {
    assert_eq!(POLL_INTERVAL_MS, 3000);
    assert_eq!(poll_delay_ms(2100, POLL_INTERVAL_MS), 900);
    assert_eq!(poll_delay_ms(0, POLL_INTERVAL_MS), 3000);
    assert_eq!(poll_delay_ms(3000, POLL_INTERVAL_MS), 0);
    assert_eq!(poll_delay_ms(5000, POLL_INTERVAL_MS), 0);
}
