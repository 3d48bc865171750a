# bwlimit

A macOS menu-bar bandwidth limiter. Its core is a Verus-verified library:

- `src/shell.rs` – the AppleScript/shell scripts that configure dummynet
  pipes and pf rules, lift the limits, and manage the login item;
- `src/traffic.rs` – reading `nettop` output into samples and reporting the
  busiest processes between the last two samples;
- `src/probe.rs` – reading `networksetup`, login-item and `ping` output;
- `src/schedule.rs` – daily limit windows and the schedule dialog's reply;
- `src/tray.rs`, `src/icon.rs` – the menu's presets, labels, check marks and
  rows, and the tray icon's pixels;
- `src/text.rs` – the std text operations these rely on, with their specs;
- `src/state.rs` – the persisted settings.

`app/` runs the commands, stores the settings as JSON, converts byte counts to
bit/s and drives the tray event loop.
