use vstd::prelude::*;
use crate::text::{
    all_digits, chars_of, decimal, decimal_chars, digits_value, is_digit, lemma_decimal_injective,
    lemma_decimal_reads_back, string_from_chars,
};

verus! {

broadcast use vstd::string::group_string_axioms;

/// The limits the menu offers, in Mbit/s, in menu order; 0 is "Unlimited".
pub open spec fn preset_table() -> Seq<u32> {
    seq![1u32, 2, 3, 4, 5, 10, 25, 50, 100, 0]
}

/// The limits the menu offers, in menu order.
pub fn preset_limits() -> (v: Vec<u32>)
    ensures
        v@ == preset_table(),
{
    let v: Vec<u32> = vec![1, 2, 3, 4, 5, 10, 25, 50, 100, 0];
    assert(v@ =~= preset_table());
    v
}

/// A preset's menu label: `<n> Mbit/s`, or `Unlimited` for 0.
pub open spec fn preset_label_text(mbits: nat) -> Seq<char> {
    if mbits == 0 {
        "Unlimited"@
    } else {
        decimal(mbits) + " Mbit/s"@
    }
}

/// The tray tooltip for the active limit.
pub open spec fn tooltip_text(mbits: nat) -> Seq<char> {
    if mbits == 0 {
        "Bandwidth Limiter – Unlimited"@
    } else {
        "Bandwidth Limiter – "@ + decimal(mbits) + " Mbit/s"@
    }
}

/// `text` followed by the decimal numeral of `n` and `tail`.
fn number_text(text: &str, n: u32, tail: &str) -> (s: String)
    ensures
        s@ == text@ + decimal(n as nat) + tail@,
{
    let mut v = chars_of(text);
    let d = decimal_chars(n as u64);
    let t = chars_of(tail);
    let mut k: usize = 0;
    while k < d.len()
        invariant
            k <= d.len(),
            v@ == text@ + d@.take(k as int),
        decreases d.len() - k,
    {
        v.push(d[k]);
        assert(d@.take(k + 1) =~= d@.take(k as int).push(d@[k as int]));
        k = k + 1;
    }
    assert(d@.take(d@.len() as int) =~= d@);
    let mut k: usize = 0;
    while k < t.len()
        invariant
            k <= t.len(),
            v@ == text@ + d@ + t@.take(k as int),
        decreases t.len() - k,
    {
        v.push(t[k]);
        assert(t@.take(k + 1) =~= t@.take(k as int).push(t@[k as int]));
        k = k + 1;
    }
    assert(t@.take(t@.len() as int) =~= t@);
    string_from_chars(&v)
}

/// A preset's menu label.
pub fn preset_label(mbits: u32) -> (s: String)
    ensures
        s@ == preset_label_text(mbits as nat),
{
    if mbits == 0 {
        string_from_chars(&chars_of("Unlimited"))
    } else {
        let s = number_text("", mbits, " Mbit/s");
        assert(""@ + decimal(mbits as nat) + " Mbit/s"@ =~= decimal(mbits as nat) + " Mbit/s"@) by {
            reveal_strlit("");
        }
        s
    }
}

/// Tooltip string reflecting the active limit.
pub fn limit_tooltip(mbits: u32) -> (s: String)
    ensures
        s@ == tooltip_text(mbits as nat),
{
    if mbits == 0 {
        string_from_chars(&chars_of("Bandwidth Limiter – Unlimited"))
    } else {
        number_text("Bandwidth Limiter – ", mbits, " Mbit/s")
    }
}

proof fn lemma_numeral_between(p: Seq<char>, a: nat, b: nat, q: Seq<char>)
    requires
        p + decimal(a) + q == p + decimal(b) + q,
    ensures
        a == b,
{
    let x = p + decimal(a) + q;
    let y = p + decimal(b) + q;
    assert(x.len() == p.len() + decimal(a).len() + q.len());
    assert(y.len() == p.len() + decimal(b).len() + q.len());
    assert(decimal(a).len() == decimal(b).len());
    assert(x.subrange(p.len() as int, (p.len() + decimal(a).len()) as int) =~= decimal(a));
    assert(y.subrange(p.len() as int, (p.len() + decimal(b).len()) as int) =~= decimal(b));
    lemma_decimal_injective(a, b);
}

/// Different limits get different tooltips: each limit above 0 shows its own
/// numeral, and only "Unlimited" (0) shows "Unlimited".
pub proof fn lemma_tooltip_tells_limits_apart(a: nat, b: nat)
    ensures
        (tooltip_text(a) == tooltip_text(b)) == (a == b),
{
    if a != b && tooltip_text(a) == tooltip_text(b) {
        if a > 0 && b > 0 {
            lemma_numeral_between("Bandwidth Limiter – "@, a, b, " Mbit/s"@);
        } else {
            let n: nat = if a > 0 {
                a
            } else {
                b
            };
            reveal_strlit("Bandwidth Limiter – Unlimited");
            reveal_strlit("Bandwidth Limiter – ");
            lemma_decimal_reads_back(n);
            let t = "Bandwidth Limiter – "@ + decimal(n) + " Mbit/s"@;
            assert(t[20] == decimal(n)[0]);
            assert(is_digit(decimal(n)[0]));
            assert(tooltip_text(0)[20] == 'U');
            assert(tooltip_text(n) == t);
        }
    }
}

/// For every limit above 0 the tooltip is "Bandwidth Limiter – ", then
/// digits that read back as the limit, then " Mbit/s".
pub proof fn lemma_tooltip_shows_limit(mbits: nat)
    requires
        mbits > 0,
    ensures
        exists|d: Seq<char>|
            #[trigger] digits_value(d) == mbits && d.len() >= 1 && all_digits(d) && tooltip_text(
                mbits,
            ) == "Bandwidth Limiter – "@ + d + " Mbit/s"@,
{
    lemma_decimal_reads_back(mbits);
}

/// For every limit above 0 the preset's label is digits that read back as
/// the limit, then " Mbit/s".
pub proof fn lemma_label_shows_limit(mbits: nat)
    requires
        mbits > 0,
    ensures
        exists|d: Seq<char>|
            #[trigger] digits_value(d) == mbits && d.len() >= 1 && all_digits(d)
                && preset_label_text(mbits) == d + " Mbit/s"@,
{
    lemma_decimal_reads_back(mbits);
}

/// Different presets get different labels: each limit above 0 shows its own
/// numeral, and only "Unlimited" (0) shows "Unlimited".
pub proof fn lemma_label_tells_limits_apart(a: nat, b: nat)
    ensures
        (preset_label_text(a) == preset_label_text(b)) == (a == b),
{
    if a != b && preset_label_text(a) == preset_label_text(b) {
        if a > 0 && b > 0 {
            assert(Seq::<char>::empty() + decimal(a) + " Mbit/s"@ =~= preset_label_text(a));
            assert(Seq::<char>::empty() + decimal(b) + " Mbit/s"@ =~= preset_label_text(b));
            lemma_numeral_between(Seq::<char>::empty(), a, b, " Mbit/s"@);
        } else {
            let n: nat = if a > 0 {
                a
            } else {
                b
            };
            reveal_strlit("Unlimited");
            lemma_decimal_reads_back(n);
            assert(preset_label_text(n)[0] == decimal(n)[0]);
            assert(is_digit(decimal(n)[0]));
            assert(preset_label_text(0)[0] == 'U');
        }
    }
}

/// What the packet filter should be told.
#[derive(Debug, Clone, Copy, PartialEq, Eq, Structural)]
pub enum LimitRequest {
    /// Lift every limit.
    Lift,
    /// Limit to this many Mbit/s.
    Apply(u32),
}

/// The request for a chosen preset: lift the limit for "Unlimited" (0),
/// apply it otherwise.
pub fn preset_request(mbits: u32) -> (r: LimitRequest)
    ensures
        r == (if mbits == 0 {
            LimitRequest::Lift
        } else {
            LimitRequest::Apply(mbits)
        }),
{
    if mbits == 0 {
        LimitRequest::Lift
    } else {
        LimitRequest::Apply(mbits)
    }
}

/// At startup, a saved limit is applied again; nothing is done for "Unlimited".
pub fn startup_request(saved_mbits: u32) -> (r: Option<LimitRequest>)
    ensures
        r == (if saved_mbits > 0 {
            Some(LimitRequest::Apply(saved_mbits))
        } else {
            None::<LimitRequest>
        }),
{
    if saved_mbits > 0 {
        Some(LimitRequest::Apply(saved_mbits))
    } else {
        None
    }
}

/// The check marks of the preset items once `selected` is active: exactly
/// the items with that limit are checked.
pub fn preset_checks(presets: &Vec<u32>, selected: u32) -> (checks: Vec<bool>)
    ensures
        checks.len() == presets.len(),
        forall|i: int| 0 <= i < presets.len() ==> checks[i] == (presets[i] == selected),
{
    let mut checks: Vec<bool> = Vec::new();
    let mut i: usize = 0;
    while i < presets.len()
        invariant
            i <= presets.len(),
            checks.len() == i,
            forall|j: int| 0 <= j < i ==> checks[j] == (presets[j] == selected),
        decreases presets.len() - i,
    {
        checks.push(presets[i] == selected);
        i = i + 1;
    }
    checks
}

/// The number of activity rows in the menu.
pub const USAGE_ROWS: usize = 5;

/// What one activity row of the menu shows.
#[derive(Debug, Clone, Copy, PartialEq, Eq, Structural)]
pub enum UsageRow {
    /// The app reported at this position.
    App(usize),
    /// "(no activity)".
    NoActivity,
    /// Nothing.
    Blank,
}

/// Row `slot` shows the app reported at that position; when no app is
/// reported the first row says so and the others stay blank.
pub fn usage_row(slot: usize, app_count: usize) -> (r: UsageRow)
    ensures
        r == (if slot < app_count {
            UsageRow::App(slot)
        } else if slot == 0 && app_count == 0 {
            UsageRow::NoActivity
        } else {
            UsageRow::Blank
        }),
{
    if slot < app_count {
        UsageRow::App(slot)
    } else if slot == 0 && app_count == 0 {
        UsageRow::NoActivity
    } else {
        UsageRow::Blank
    }
}

/// Milliseconds between one nettop poll and the next.
pub const POLL_INTERVAL_MS: u64 = 3000;

/// How long the poller sleeps after a poll that took `elapsed_ms`, so that
/// polls start every `interval_ms` (not at all when the poll overran).
pub fn poll_delay_ms(elapsed_ms: u64, interval_ms: u64) -> (d: u64)
    ensures
        d == (if elapsed_ms < interval_ms {
            interval_ms - elapsed_ms
        } else {
            0
        }),
{
    if elapsed_ms < interval_ms {
        interval_ms - elapsed_ms
    } else {
        0
    }
}

/// The menu's presets are distinct, so choosing one checks exactly its own item.
pub proof fn lemma_choosing_a_preset_checks_only_it(i: int, j: int)
    requires
        0 <= i < preset_table().len(),
        0 <= j < preset_table().len(),
    ensures
        (preset_table()[j] == preset_table()[i]) <==> (j == i),
{
}

} // verus!
