use bwlimit::shell::{limit_script, login_item_script, login_items_query, remove_limit_script};
use bwlimit::state::AppState;

const REMOVE: &str = "do shell script \"pfctl -d; dnctl pipe 1 delete 2>/dev/null; dnctl pipe 2 delete 2>/dev/null; pfctl -f /etc/pf.conf\" with administrator privileges";

fn state(up: u32, down: u32, iface: &str) -> AppState {
    AppState { limit_up: up, limit_down: down, interface: iface.to_string(), ..AppState::default() }
}

#[test]
fn unlimited_lifts_every_limit() {
    assert_eq!(remove_limit_script(), REMOVE);
    assert_eq!(limit_script(&state(0, 0, "")), REMOVE);
    assert_eq!(limit_script(&state(0, 0, "en0")), REMOVE);
}

#[test]
fn upload_limit_on_all_interfaces() {
    assert_eq!(
        limit_script(&state(5, 0, "")),
        "do shell script \"dnctl pipe 1 config bw 5Mbit/s && echo 'dummynet out from any to any pipe 1' | pfctl -f - && pfctl -E\" with administrator privileges"
    );
}

#[test]
fn download_limit_on_one_interface() {
    assert_eq!(
        limit_script(&state(0, 100, "en1")),
        "do shell script \"dnctl pipe 2 config bw 100Mbit/s && echo 'dummynet in on en1 from any to any pipe 2' | pfctl -f - && pfctl -E\" with administrator privileges"
    );
}

#[test]
fn both_limits() {
    assert_eq!(
        limit_script(&state(10, 25, "en0")),
        "do shell script \"dnctl pipe 1 config bw 10Mbit/s && dnctl pipe 2 config bw 25Mbit/s && { echo 'dummynet out on en0 from any to any pipe 1'; echo 'dummynet in on en0 from any to any pipe 2'; } | pfctl -f - && pfctl -E\" with administrator privileges"
    );
}

#[test]
fn large_limit_is_written_in_full() {
    let s = limit_script(&state(4294967295, 0, ""));
    assert!(s.contains("config bw 4294967295Mbit/s"));
}

#[test]
fn login_item_scripts() {
    assert_eq!(
        login_item_script(true),
        r#"tell application "System Events" to make login item at end with properties {path:"/Applications/BwLimit.app", hidden:false, name:"BwLimit"}"#
    );
    assert_eq!(
        login_item_script(false),
        r#"tell application "System Events" to delete login item "BwLimit""#
    );
    assert_eq!(
        login_items_query(),
        r#"tell application "System Events" to get name of every login item"#
    );
}
