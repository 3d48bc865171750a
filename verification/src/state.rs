use vstd::prelude::*;

verus! {

/// What the user chose: the limits, the interface they apply to, and the
/// preferences around them.
#[derive(Debug, Clone)]
pub struct AppState {
    /// Upload limit in Mbit/s; 0 means unlimited.
    pub limit_up: u32,
    /// Download limit in Mbit/s; 0 means unlimited.
    pub limit_down: u32,
    /// Interface the limits apply to; empty means all interfaces.
    pub interface: String,
    pub launch_at_login: bool,
    pub show_latency: bool,
    pub schedule: Option<Schedule>,
}

impl Default for AppState {
    /// No limit, on all interfaces, with every preference off and no schedule.
    fn default() -> (s: Self)
        ensures
            s.limit_up == 0,
            s.limit_down == 0,
            s.interface@ == Seq::<char>::empty(),
            !s.launch_at_login,
            !s.show_latency,
            s.schedule is None,
    {
        AppState {
            limit_up: 0,
            limit_down: 0,
            interface: String::new(),
            launch_at_login: false,
            show_latency: false,
            schedule: None,
        }
    }
}

/// Daily window of hours in which a limit applies: from `start_hour`
/// (inclusive) to `end_hour` (exclusive), wrapping past midnight when the end
/// comes before the start.
#[derive(Debug, Clone, Copy, PartialEq, Eq, Structural)]
pub struct Schedule {
    /// 0-23
    pub start_hour: u8,
    /// 0-23, exclusive
    pub end_hour: u8,
}

/// A hardware network port: its device name (such as `en0`) and its label.
#[derive(Debug, Clone)]
pub struct NetInterface {
    pub id: String,
    pub name: String,
}

impl View for NetInterface {
    type V = (Seq<char>, Seq<char>);

    open spec fn view(&self) -> (Seq<char>, Seq<char>) {
        (self.id@, self.name@)
    }
}

} // verus!
