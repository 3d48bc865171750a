//! Verified core of a menu-bar bandwidth limiter: the shell scripts that
//! configure the packet filter, the parsers for the outputs of the system
//! tools it consults, the schedule and the tray-menu decisions.

pub mod icon;
pub mod probe;
pub mod schedule;
pub mod shell;
pub mod state;
pub mod text;
pub mod traffic;
pub mod tray;
