use vstd::prelude::*;
use crate::state::NetInterface;
use crate::text::{
    chars_of, contains, has_infix, has_prefix, lemma_split_on_nonempty, lines, lines_of, split,
    split_on, starts_with, string_from_chars, tail_from, trim, trimmed, views,
};

verus! {

broadcast use vstd::string::group_string_axioms;

// ── Hardware ports (`networksetup -listallhardwareports`) ───────────────────

/// What reading the port list has gathered: the interfaces found, as
/// (device, port name), and the port name waiting for its device line.
pub type PortScan = (Seq<(Seq<char>, Seq<char>)>, Option<Seq<char>>);

/// Reading one line: `Hardware Port: <name>` remembers the trimmed name,
/// replacing any earlier one; `Device: <id>` records the trimmed id with the
/// remembered name, when there is one, and forgets it; other lines change
/// nothing.
pub open spec fn port_line(st: PortScan, line: Seq<char>) -> PortScan {
    let port = "Hardware Port: "@;
    let device = "Device: "@;
    if has_prefix(line, port) {
        (st.0, Some(trim(line.skip(port.len() as int))))
    } else if has_prefix(line, device) {
        match st.1 {
            Some(name) => (st.0.push((trim(line.skip(device.len() as int)), name)), None),
            None => st,
        }
    } else {
        st
    }
}

pub open spec fn port_lines(ls: Seq<Seq<char>>) -> PortScan
    decreases ls.len(),
{
    if ls.len() == 0 {
        (Seq::empty(), None)
    } else {
        port_line(port_lines(ls.drop_last()), ls.last())
    }
}

/// The interfaces that the output of `networksetup -listallhardwareports` lists.
pub open spec fn interfaces_of(output: Seq<char>) -> Seq<(Seq<char>, Seq<char>)> {
    port_lines(lines_of(output)).0
}

pub open spec fn interface_views(v: Seq<NetInterface>) -> Seq<(Seq<char>, Seq<char>)> {
    v.map_values(|i: NetInterface| i@)
}

/// The network interfaces listed in the output of
/// `networksetup -listallhardwareports`, in order.
pub fn list_interfaces(networksetup_output: &str) -> (r: Vec<NetInterface>)
    ensures
        interface_views(r@) == interfaces_of(networksetup_output@),
{
    let text = chars_of(networksetup_output);
    let ls = lines(&text);
    let port = chars_of("Hardware Port: ");
    let device = chars_of("Device: ");
    let mut result: Vec<NetInterface> = Vec::new();
    let mut current: Option<Vec<char>> = None;
    let mut i: usize = 0;
    while i < ls.len()
        invariant
            i <= ls.len(),
            port@ == "Hardware Port: "@,
            device@ == "Device: "@,
            port_lines(views(ls@).take(i as int)) == (
                interface_views(result@),
                match current {
                    Some(c) => Some(c@),
                    None => None::<Seq<char>>,
                },
            ),
        decreases ls.len() - i,
    {
        assert(views(ls@).take(i + 1).drop_last() =~= views(ls@).take(i as int));
        assert(views(ls@)[i as int] == ls@[i as int]@);
        let line = &ls[i];
        if starts_with(line, &port) {
            let rest = tail_from(line, port.len());
            current = Some(trimmed(&rest));
        } else if starts_with(line, &device) {
            match current {
                Some(name) => {
                    let rest = tail_from(line, device.len());
                    let id = trimmed(&rest);
                    let ghost before = interface_views(result@);
                    let item = NetInterface {
                        id: string_from_chars(&id),
                        name: string_from_chars(&name),
                    };
                    result.push(item);
                    assert(interface_views(result@) =~= before.push(item@));
                    current = None;
                },
                None => {},
            }
        }
        i = i + 1;
    }
    assert(views(ls@).take(ls@.len() as int) =~= views(ls@));
    result
}

// ── Login items ──────────────────────────────────────────────────────────────

/// Whether the login-item names that osascript printed include the app.
pub fn check_launch_at_login(login_items_output: &str) -> (b: bool)
    ensures
        b == has_infix(login_items_output@, "BwLimit"@),
{
    let text = chars_of(login_items_output);
    let name = chars_of("BwLimit");
    contains(&text, &name)
}

// ── Ping ─────────────────────────────────────────────────────────────────────

/// Whether a line of ping's output is its round-trip summary.
pub open spec fn is_rtt_line(line: Seq<char>) -> bool {
    has_infix(line, "round-trip"@) || has_infix(line, "rtt"@)
}

/// The first round-trip summary line, if any.
pub open spec fn first_rtt_line(ls: Seq<Seq<char>>) -> Option<Seq<char>>
    decreases ls.len(),
{
    if ls.len() == 0 {
        None
    } else if is_rtt_line(ls[0]) {
        Some(ls[0])
    } else {
        first_rtt_line(ls.drop_first())
    }
}

/// The average of a summary line such as
/// `round-trip min/avg/max/stddev = 12.3/12.4/12.5/0.1 ms`: the text between
/// the first and any second `=`, trimmed, then its second `/`-separated
/// field, trimmed.
pub open spec fn rtt_average(line: Seq<char>) -> Option<Seq<char>> {
    let halves = split_on(line, '=');
    if halves.len() < 2 {
        None
    } else {
        let fields = split_on(trim(halves[1]), '/');
        if fields.len() < 2 {
            None
        } else {
            Some(trim(fields[1]))
        }
    }
}

/// The text of the average round-trip time in ping's output: taken from the
/// first summary line; `None` when there is no such line or it lacks the field.
pub open spec fn ping_average_text(output: Seq<char>) -> Option<Seq<char>> {
    match first_rtt_line(lines_of(output)) {
        Some(line) => rtt_average(line),
        None => None,
    }
}

/// The average round-trip time, as ping printed it, in milliseconds.
pub fn ping_average_field(ping_output: &str) -> (r: Option<String>)
    ensures
        r matches Some(s) ==> ping_average_text(ping_output@) == Some(s@),
        r is None ==> ping_average_text(ping_output@) is None,
{
    let text = chars_of(ping_output);
    let ls = lines(&text);
    let round_trip = chars_of("round-trip");
    let rtt = chars_of("rtt");
    let mut i: usize = 0;
    assert(views(ls@).skip(0) =~= views(ls@));
    while i < ls.len()
        invariant
            i <= ls.len(),
            views(ls@) == lines_of(ping_output@),
            round_trip@ == "round-trip"@,
            rtt@ == "rtt"@,
            first_rtt_line(views(ls@)) == first_rtt_line(views(ls@).skip(i as int)),
        decreases ls.len() - i,
    {
        let ghost rest = views(ls@).skip(i as int);
        assert(rest[0] == ls@[i as int]@);
        assert(rest.drop_first() =~= views(ls@).skip(i + 1));
        let line = &ls[i];
        if contains(line, &round_trip) || contains(line, &rtt) {
            let halves = split(line, '=');
            proof {
                lemma_split_on_nonempty(line@, '=');
            }
            if halves.len() < 2 {
                return None;
            }
            assert(views(halves@)[1] == halves@[1]@);
            let after_eq = trimmed(&halves[1]);
            let fields = split(&after_eq, '/');
            if fields.len() < 2 {
                return None;
            }
            assert(views(fields@)[1] == fields@[1]@);
            let avg = trimmed(&fields[1]);
            return Some(string_from_chars(&avg));
        }
        i = i + 1;
    }
    assert(views(ls@).skip(ls@.len() as int) =~= Seq::<Seq<char>>::empty());
    None
}

} // verus!
