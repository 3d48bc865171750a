use vstd::prelude::*;
use crate::state::Schedule;
use crate::text::{
    all_space, chars_of, decimal, is_digit, is_space, lemma_decimal_reads_back, lemma_parse_decimal,
    lemma_split_on_nonempty, lemma_split_pair, lemma_trim_padded, parse_u64, parse_unsigned, split,
    split_on, trim, trimmed,
};

verus! {

/// Whether `hour` lies in the window from `start` (inclusive) to `end`
/// (exclusive), the window wrapping past midnight when `end < start`.
pub open spec fn in_window(start: int, end: int, hour: int) -> bool {
    if start <= end {
        start <= hour < end
    } else {
        hour >= start || hour < end
    }
}

/// The hour written in the output of `date +%H`: the trimmed text read as a `u8`.
pub open spec fn hour_of(date_output: Seq<char>) -> Option<nat> {
    parse_unsigned(trim(date_output), 255)
}

/// The two hours of a schedule dialog's reply `start,end`: the trimmed reply
/// split at commas, its first two pieces trimmed and read as `u8`s; refused
/// when a piece is missing or unreadable, or an hour is above 23.
pub open spec fn schedule_reply(reply: Seq<char>) -> Option<(nat, nat)> {
    let parts = split_on(trim(reply), ',');
    if parts.len() < 2 {
        None
    } else {
        match (parse_unsigned(trim(parts[0]), 255), parse_unsigned(trim(parts[1]), 255)) {
            (Some(a), Some(b)) => if a <= 23 && b <= 23 {
                Some((a, b))
            } else {
                None
            },
            _ => None,
        }
    }
}

/// The trimmed text read as a `u8` (std's `u8::from_str`).
pub fn parse_u8_trimmed(s: &Vec<char>) -> (r: Option<u8>)
    ensures
        r == (match parse_unsigned(trim(s@), 255) {
            Some(v) => Some(v as u8),
            None => None::<u8>,
        }),
{
    let t = trimmed(s);
    match parse_u64(&t) {
        Some(v) => if v <= 255 {
            Some(v as u8)
        } else {
            None
        },
        None => None,
    }
}

/// Whether `hour` falls in the schedule's window.
pub fn schedule_contains_hour(s: &Schedule, hour: u8) -> (b: bool)
    ensures
        b == in_window(s.start_hour as int, s.end_hour as int, hour as int),
{
    if s.start_hour <= s.end_hour {
        hour >= s.start_hour && hour < s.end_hour
    } else {
        hour >= s.start_hour || hour < s.end_hour
    }
}

/// Whether the schedule is active at the hour that `date +%H` printed; never
/// when that output is not an hour.
pub fn schedule_is_active(s: &Schedule, date_output: &str) -> (b: bool)
    ensures
        b == (match hour_of(date_output@) {
            Some(h) => in_window(s.start_hour as int, s.end_hour as int, h as int),
            None => false,
        }),
{
    let text = chars_of(date_output);
    match parse_u8_trimmed(&text) {
        Some(hour) => schedule_contains_hour(s, hour),
        None => false,
    }
}

/// The schedule that the reply `start,end` of the schedule dialogs asks for;
/// `None` when the reply is not two hours from 0 to 23.
pub fn prompt_schedule(reply: &str) -> (r: Option<Schedule>)
    ensures
        r == (match schedule_reply(reply@) {
            Some((a, b)) => Some(Schedule { start_hour: a as u8, end_hour: b as u8 }),
            None => None::<Schedule>,
        }),
        r matches Some(s) ==> s.start_hour <= 23 && s.end_hour <= 23,
{
    let text = chars_of(reply);
    let t = trimmed(&text);
    let parts = split(&t, ',');
    proof {
        lemma_split_on_nonempty(t@, ',');
    }
    if parts.len() < 2 {
        return None;
    }
    assert(parts@[0]@ == split_on(t@, ',')[0]);
    assert(parts@[1]@ == split_on(t@, ',')[1]);
    let start = parse_u8_trimmed(&parts[0]);
    let start = match start {
        Some(v) => v,
        None => return None,
    };
    let end = parse_u8_trimmed(&parts[1]);
    let end = match end {
        Some(v) => v,
        None => return None,
    };
    if start > 23 || end > 23 {
        return None;
    }
    Some(Schedule { start_hour: start, end_hour: end })
}

/// A window with distinct ends and the window with its ends swapped cover
/// complementary hours: every hour lies in exactly one of them.
pub proof fn lemma_swapped_window_is_complement(start: int, end: int, hour: int)
    requires
        start != end,
    ensures
        in_window(start, end, hour) != in_window(end, start, hour),
{
}

/// Every reply naming two hours from 0 to 23, as numerals around a comma
/// with any whitespace before and after each, is accepted as the schedule
/// from the first hour to the second: a window that ends at midnight (0) or
/// wraps past it included.
pub proof fn lemma_padded_pair_of_hours_is_accepted(
    a: nat,
    b: nat,
    w1: Seq<char>,
    w2: Seq<char>,
    w3: Seq<char>,
    w4: Seq<char>,
)
    requires
        a <= 23,
        b <= 23,
        all_space(w1),
        all_space(w2),
        all_space(w3),
        all_space(w4),
    ensures
        schedule_reply(w1 + decimal(a) + w2 + seq![','] + w3 + decimal(b) + w4) == Some((a, b)),
{
    let da = decimal(a);
    let db = decimal(b);
    let x = da + w2;
    let y = w3 + db;
    let core = x + seq![','] + y;
    let e = Seq::<char>::empty();
    lemma_decimal_reads_back(a);
    lemma_decimal_reads_back(b);
    assert(w1 + decimal(a) + w2 + seq![','] + w3 + decimal(b) + w4 =~= w1 + core + w4);
    assert(is_digit(da[0]));
    assert(core[0] == da[0]);
    assert(is_digit(db[db.len() - 1]));
    assert(core.last() == db[db.len() - 1]);
    lemma_trim_padded(w1, core, w4);
    assert forall|i: int| 0 <= i < x.len() implies x[i] != ',' by {
        if i < da.len() {
            assert(is_digit(da[i]));
        } else {
            assert(is_space(w2[i - da.len()]));
        }
    }
    assert forall|i: int| 0 <= i < y.len() implies y[i] != ',' by {
        if i < w3.len() {
            assert(is_space(w3[i]));
        } else {
            assert(is_digit(db[i - w3.len()]));
        }
    }
    lemma_split_pair(x, y, ',');
    assert(all_space(e));
    lemma_trim_padded(e, da, w2);
    assert(e + da + w2 =~= x);
    lemma_trim_padded(w3, db, e);
    assert(w3 + db + e =~= y);
    lemma_parse_decimal(a, 255);
    lemma_parse_decimal(b, 255);
    let parts = split_on(trim(w1 + core + w4), ',');
    assert(parts == seq![x, y]);
    assert(trim(parts[0]) == da);
    assert(trim(parts[1]) == db);
}

/// Every reply naming two hours from 0 to 23, as numerals around a comma,
/// is accepted as the schedule from the first hour to the second.
pub proof fn lemma_every_pair_of_hours_is_accepted(a: nat, b: nat)
    requires
        a <= 23,
        b <= 23,
    ensures
        schedule_reply(decimal(a) + seq![','] + decimal(b)) == Some((a, b)),
{
    let e = Seq::<char>::empty();
    assert(all_space(e));
    lemma_padded_pair_of_hours_is_accepted(a, b, e, e, e, e);
    assert(e + decimal(a) + e + seq![','] + e + decimal(b) + e =~= decimal(a) + seq![',']
        + decimal(b));
}

/// A window whose start equals its end holds no hour.
pub proof fn lemma_empty_window(start: int, hour: int)
    ensures
        !in_window(start, start, hour),
{
}

} // verus!
