use bwlimit::schedule::{prompt_schedule, schedule_contains_hour, schedule_is_active};
use bwlimit::state::{AppState, Schedule};

fn sched(start_hour: u8, end_hour: u8) -> Schedule {
    Schedule { start_hour, end_hour }
}

#[test]
fn daytime_window() {
    let s = sched(9, 18);
    assert!(!schedule_is_active(&s, "08\n"));
    assert!(schedule_is_active(&s, "09\n"));
    assert!(schedule_is_active(&s, "17\n"));
    assert!(!schedule_is_active(&s, "18\n"));
}

#[test]
fn overnight_window() {
    let s = sched(22, 6);
    assert!(schedule_is_active(&s, "23\n"));
    assert!(schedule_is_active(&s, "00\n"));
    assert!(schedule_is_active(&s, "05"));
    assert!(!schedule_is_active(&s, "06"));
    assert!(!schedule_is_active(&s, "12"));
}

#[test]
fn unreadable_hour_is_never_active() {
    let s = sched(0, 23);
    assert!(!schedule_is_active(&s, ""));
    assert!(!schedule_is_active(&s, "noon"));
    assert!(!schedule_is_active(&s, "300"));
}

#[test]
fn empty_window_holds_no_hour() {
    for h in 0..24u8 {
        assert!(!schedule_contains_hour(&sched(7, 7), h));
    }
}

#[test]
fn swapped_window_is_complement() {
    for (a, b) in [(9u8, 18u8), (22, 6), (0, 23), (5, 6)] {
        for h in 0..24u8 {
            assert_ne!(schedule_contains_hour(&sched(a, b), h), schedule_contains_hour(&sched(b, a), h));
        }
    }
}

#[test]
fn schedule_replies() {
    assert_eq!(prompt_schedule("9,18\n"), Some(sched(9, 18)));
    assert_eq!(prompt_schedule(" 22 , 6 "), Some(sched(22, 6)));
    assert_eq!(prompt_schedule("1,2,3"), Some(sched(1, 2)));
    assert_eq!(prompt_schedule("9"), None);
    assert_eq!(prompt_schedule("24,5"), None);
    assert_eq!(prompt_schedule("5,24"), None);
    assert_eq!(prompt_schedule("a,5"), None);
    assert_eq!(prompt_schedule(""), None);
}

#[test]
fn default_state_is_unlimited() {
    let st = AppState::default();
    assert_eq!(st.limit_up, 0);
    assert_eq!(st.limit_down, 0);
    assert_eq!(st.interface, "");
    assert!(!st.launch_at_login);
    assert!(!st.show_latency);
    assert!(st.schedule.is_none());
}
