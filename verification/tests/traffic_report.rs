use bwlimit::traffic::{get_top_uploaders, parse_timestamp, AppTraffic};
use bwlimit::text::chars_of;

fn ts(s: &str) -> Option<i128> {
    parse_timestamp(&chars_of(s))
}

/// One second, in attoseconds.
const SEC: i128 = 1_000_000_000_000_000_000;

#[test]
fn timestamps() {
    assert_eq!(ts("10:00:01.5"), Some(36_001 * SEC + SEC / 2));
    assert_eq!(ts("00:00:00.000001"), Some(1_000_000_000_000));
    assert_eq!(ts("12.25"), Some(12 * SEC + SEC / 4));
    assert_eq!(ts("-1.5"), Some(-(SEC + SEC / 2)));
    assert_eq!(ts("+.5"), Some(SEC / 2));
    assert_eq!(ts("3."), Some(3 * SEC));
    assert_eq!(ts("1.1234567"), Some(1_123_456_700_000_000_000));
    assert_eq!(ts("0.0010005"), Some(1_000_500_000_000_000));
    assert_eq!(ts("1.0000000000000000019"), Some(SEC + 1));
    assert_eq!(ts(""), None);
    assert_eq!(ts("."), None);
    assert_eq!(ts("1:2"), None);
    assert_eq!(ts("1.2.3"), None);
}

#[test]
fn timestamps_with_exponents() {
    assert_eq!(ts("1e3"), Some(1000 * SEC));
    assert_eq!(ts("1E-2"), Some(SEC / 100));
    assert_eq!(ts("1e+2"), Some(100 * SEC));
    assert_eq!(ts("-1.5e1"), Some(-15 * SEC));
    assert_eq!(ts("2.5e-7"), Some(250_000_000_000));
    assert_eq!(ts("125e-20"), Some(1));
    assert_eq!(ts("3e-19"), Some(0));
    assert_eq!(ts("1:1e1:0"), Some(4200 * SEC));
    assert_eq!(ts("0e99999999999999999999999999999999999999"), Some(0));
    assert_eq!(ts("7e-99999999999999999999999999999999999999"), Some(0));
    assert_eq!(ts("1e"), None);
    assert_eq!(ts("1e+"), None);
    assert_eq!(ts("e5"), None);
    assert_eq!(ts("1e2e3"), None);
}

#[test]
fn timestamps_at_the_machine_limit() {
    assert_eq!(ts("123456789012345678901"), None);
    assert_eq!(ts("1234567890123456.5"), Some(1_234_567_890_123_456 * SEC + SEC / 2));
    assert_eq!(ts("12345678901234567"), None);
    assert_eq!(ts("1e16"), Some(10_000_000_000_000_000 * SEC));
    assert_eq!(ts("1e17"), None);
    assert_eq!(ts("1e400"), None);
}

#[test]
fn timestamps_no_integer_holds() {
    for s in ["inf", "-inf", "infinity", "NaN", "nan"] {
        assert_eq!(ts(s), None, "{}", s);
        assert!(s.parse::<f64>().map(|v| !v.is_finite()).unwrap_or(false));
    }
}

#[test]
fn exponent_timestamp_starts_a_sample() {
    let r = get_top_uploaders("1e3,a.1,,,0,0,\n1.001e3,a.1,,,0,2000,\n");
    assert_eq!(r.interval_attos, SEC as u128);
    assert_eq!(r.total_up, 2000);
}

const TWO_SAMPLES: &str = "time,,interface,state,bytes_in,bytes_out,\n\
10:00:00.000000,Dropbox.101,,,1000,2000,\n\
10:00:00.000000,Chrome.202,,,500,100,\n\
10:00:00.000000,quiet.9,,,7,7,\n\
time,,interface,state,bytes_in,bytes_out,\n\
10:00:01.000000,Dropbox.101,,,1000,127000,\n\
10:00:01.000000,Chrome.202,,,400500,150,\n\
10:00:01.000000,quiet.9,,,17,7,\n";

fn app(a: &AppTraffic) -> (&str, u128, u128) {
    (a.name.as_str(), a.bytes_up, a.bytes_down)
}

#[test]
fn busiest_first_with_totals() {
    let r = get_top_uploaders(TWO_SAMPLES);
    assert_eq!(r.interval_attos, SEC as u128);
    assert_eq!(r.total_up, 125_050);
    // `quiet` grew by 10 bytes (80 bit/s): counted, not listed.
    assert_eq!(r.total_down, 400_010);
    let apps: Vec<_> = r.apps.iter().map(app).collect();
    assert_eq!(apps, vec![("Chrome", 50, 400_000), ("Dropbox", 125_000, 0)]);
}

#[test]
fn listed_traffic_within_totals() {
    let r = get_top_uploaders(TWO_SAMPLES);
    for a in &r.apps {
        assert!(a.bytes_up <= r.total_up && a.bytes_down <= r.total_down);
        assert!(a.bytes_up > 0 || a.bytes_down > 0);
    }
}

#[test]
fn at_most_five_listed() {
    let mut text = String::new();
    for (t, base) in [("1.0", 0u64), ("2.0", 1)] {
        for p in 0..8u64 {
            text.push_str(&format!("{},proc{}.{},,,0,{},\n", t, p, p, base * 1000 * (p + 1)));
        }
    }
    let r = get_top_uploaders(&text);
    let names: Vec<_> = r.apps.iter().map(|a| a.name.clone()).collect();
    assert_eq!(names, vec!["proc7", "proc6", "proc5", "proc4", "proc3"]);
    assert_eq!(r.total_up, 36_000);
}

#[test]
fn one_sample_reports_nothing() {
    let r = get_top_uploaders("10:00:00,a.1,,,5,5,\n10:00:00.0005,a.1,,,5,5,\n");
    assert!(r.apps.is_empty());
    assert_eq!((r.total_up, r.total_down, r.interval_attos), (0, 0, 0));
    let r = get_top_uploaders("");
    assert!(r.apps.is_empty());
}

#[test]
fn time_going_back_reports_nothing() {
    let r = get_top_uploaders("5.0,a.1,,,5,5,\n4.0,a.1,,,50,50,\n");
    assert!(r.apps.is_empty());
    assert_eq!(r.interval_attos, 0);
}

#[test]
fn short_and_unreadable_rows() {
    // Too few columns: ignored. Unreadable timestamp: counted in the current sample.
    let text = "1.0,a.1,,,0,0,\n1.0,a.1,,,\nbad,a.1,,,0,1000,\n2.0,a.1,,,0,5000,\n";
    let r = get_top_uploaders(text);
    assert_eq!(r.interval_attos, SEC as u128);
    assert_eq!(r.total_up, 4000);
    assert_eq!(r.apps.len(), 1);
    assert_eq!(app(&r.apps[0]), ("a", 4000, 0));
}

#[test]
fn earlier_text_changes_nothing() {
    let earlier = "time,,interface,state,bytes_in,bytes_out,\n09:59:00.000000,old.1,,,5,999999,\n09:59:30.000000,old.1,,,5,1,\n";
    let alone = get_top_uploaders(TWO_SAMPLES);
    let after = get_top_uploaders(&format!("{}{}", earlier, TWO_SAMPLES));
    assert_eq!(alone.interval_attos, after.interval_attos);
    assert_eq!((alone.total_up, alone.total_down), (after.total_up, after.total_down));
    let a: Vec<_> = alone.apps.iter().map(app).collect();
    let b: Vec<_> = after.apps.iter().map(app).collect();
    assert_eq!(a, b);
}

#[test]
fn gap_just_over_a_millisecond_starts_a_sample() {
    // 0.0010005 s from time 0: more than a millisecond, so a sample of its own.
    let r = get_top_uploaders("0.0010005,a.1,,,0,0,\n0.0020011,a.1,,,0,100000,\n");
    assert_eq!(r.interval_attos, 1_000_600_000_000_000);
    assert_eq!(r.total_up, 100_000);
}

#[test]
fn rows_of_one_process_are_summed() {
    let text = "1.0,p.1,,,0,100,\n1.0,p.2,,,0,100,\n2.0,p.1,,,0,5000,\n2.0,p.2,,,0,5000,\n";
    let r = get_top_uploaders(text);
    assert_eq!(r.apps.len(), 1);
    assert_eq!(app(&r.apps[0]), ("p", 9800, 0));
    assert_eq!(r.total_up, 9800);
}
