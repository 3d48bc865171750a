use bwlimit::probe::{check_launch_at_login, list_interfaces, ping_average_field};

#[test]
fn hardware_ports() {
    let out = "\nHardware Port: Wi-Fi\nDevice: en0\nEthernet Address: aa:bb\n\nHardware Port: Thunderbolt Bridge \nDevice:  bridge0\n\nVLAN Configurations\n===================\n";
    let found = list_interfaces(out);
    assert_eq!(found.len(), 2);
    assert_eq!(found[0].id, "en0");
    assert_eq!(found[0].name, "Wi-Fi");
    assert_eq!(found[1].id, "bridge0");
    assert_eq!(found[1].name, "Thunderbolt Bridge");
}

#[test]
fn device_without_port_is_ignored() {
    let out = "Device: en5\nHardware Port: A\nHardware Port: B\nDevice: en6\nDevice: en7\n";
    let found = list_interfaces(out);
    assert_eq!(found.len(), 1);
    assert_eq!(found[0].id, "en6");
    assert_eq!(found[0].name, "B");
    assert!(list_interfaces("").is_empty());
}

#[test]
fn login_items() {
    assert!(check_launch_at_login("Dropbox, BwLimit, Slack\n"));
    assert!(!check_launch_at_login("Dropbox, Slack\n"));
    assert!(!check_launch_at_login(""));
}

#[test]
fn ping_macos_summary() {
    let out = "PING 1.1.1.1 (1.1.1.1): 56 data bytes\n64 bytes from 1.1.1.1: icmp_seq=0 ttl=57 time=12.345 ms\n\n--- 1.1.1.1 ping statistics ---\n1 packets transmitted, 1 packets received, 0.0% packet loss\nround-trip min/avg/max/stddev = 12.345/12.346/12.347/0.000 ms\n";
    assert_eq!(ping_average_field(out), Some("12.346".to_string()));
}

#[test]
fn ping_linux_summary() {
    let out = "rtt min/avg/max/mdev = 9.1/9.2/9.3/0.0 ms\n";
    assert_eq!(ping_average_field(out), Some("9.2".to_string()));
}

#[test]
fn ping_without_summary() {
    assert_eq!(ping_average_field("Request timeout for icmp_seq 0\n"), None);
    assert_eq!(ping_average_field(""), None);
    // The first summary line decides, even when it lacks the field.
    assert_eq!(ping_average_field("round-trip unavailable\nrtt a = 1/2/3\n"), None);
    assert_eq!(ping_average_field("rtt x = 5\n"), None);
}
