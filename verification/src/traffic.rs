use vstd::prelude::*;
use crate::text::{
    all_digits, chars_of, copy_chars, digits_value, has_prefix, is_digit, lemma_split_on_nonempty,
    lines, lines_of, parse_digits_capped, parse_u64, parse_unsigned, same_chars, split, split_on,
    tail_from,
    lemma_lines_of_concat, starts_with, string_from_chars, views,
};

verus! {

// ── Timestamps ───────────────────────────────────────────────────────────────

/// `s` without one leading sign, and whether that sign was `'-'`.
pub open spec fn sign_split(s: Seq<char>) -> (bool, Seq<char>) {
    if s.len() > 0 && (s[0] == '+' || s[0] == '-') {
        (s[0] == '-', s.drop_first())
    } else {
        (false, s)
    }
}

/// Index of the first exponent mark (`e` or `E`) in `s`, or -1.
pub open spec fn exp_mark(s: Seq<char>) -> int
    decreases s.len(),
{
    if s.len() == 0 {
        -1
    } else if s[0] == 'e' || s[0] == 'E' {
        0
    } else {
        let r = exp_mark(s.drop_first());
        if r < 0 {
            -1
        } else {
            r + 1
        }
    }
}

/// `n` zero digits.
pub open spec fn zeros(n: nat) -> Seq<char> {
    Seq::new(n, |i: int| '0')
}

/// The digits `d` moved `k` places to the left of the point (right when `k`
/// is negative), with the digits that end up after the point dropped.
pub open spec fn shift_digits(d: Seq<char>, k: int) -> Seq<char> {
    if k >= 0 {
        d + zeros(k as nat)
    } else if d.len() + k > 0 {
        d.take(d.len() + k)
    } else {
        Seq::empty()
    }
}

/// The largest magnitude, in attoseconds (10^-18 s), that a number of
/// seconds may have: 10^16 s.
pub open spec fn cap_attos() -> int {
    10_000_000_000_000_000_000_000_000_000_000_000
}

/// The digits before the point of a mantissa.
pub open spec fn mantissa_int(m: Seq<char>) -> Seq<char> {
    split_on(m, '.')[0]
}

/// The digits after the point of a mantissa (none when there is no point).
pub open spec fn mantissa_frac(m: Seq<char>) -> Seq<char> {
    let parts = split_on(m, '.');
    if parts.len() == 2 {
        parts[1]
    } else {
        Seq::<char>::empty()
    }
}

/// `digits[.digits]`, `digits.` or `.digits`.
pub open spec fn mantissa_ok(m: Seq<char>) -> bool {
    &&& split_on(m, '.').len() <= 2
    &&& mantissa_int(m).len() + mantissa_frac(m).len() > 0
    &&& all_digits(mantissa_int(m))
    &&& all_digits(mantissa_frac(m))
}

/// The value of an exponent `[+|-]digits`.
pub open spec fn exponent_value(etext: Seq<char>) -> int {
    let (eneg, edigits) = sign_split(etext);
    if eneg {
        -(digits_value(edigits) as int)
    } else {
        digits_value(edigits) as int
    }
}

/// `[+|-]digits`, at least one digit.
pub open spec fn exponent_ok(etext: Seq<char>) -> bool {
    let (eneg, edigits) = sign_split(etext);
    edigits.len() > 0 && all_digits(edigits)
}

/// A number of seconds as std's `f64::from_str` writes it,
/// `[+|-]digits[.digits][(e|E)[+|-]digits]` with at least one mantissa digit,
/// read exactly and truncated toward zero to whole attoseconds (10^-18 s, finer
/// than an `f64` tells apart in any time above 0.005 s). Refused:
/// `inf`, `infinity` and `nan`, which no integer holds, and a magnitude
/// above `cap_attos()`.
pub open spec fn decimal_attos(s: Seq<char>) -> Option<int> {
    let (neg, body) = sign_split(s);
    let mark = exp_mark(body);
    let mant = if mark >= 0 {
        body.take(mark)
    } else {
        body
    };
    let etext = if mark >= 0 {
        body.skip(mark + 1)
    } else {
        Seq::<char>::empty()
    };
    let fp = mantissa_frac(mant);
    let mag: int = digits_value(
        shift_digits(mantissa_int(mant) + fp, exponent_value(etext) - fp.len() + 18),
    ) as int;
    if mantissa_ok(mant) && (mark < 0 || exponent_ok(etext)) && mag <= cap_attos() {
        Some(
            if neg {
                -mag
            } else {
                mag
            },
        )
    } else {
        None
    }
}

/// A nettop timestamp in attoseconds: `H:M:S` as hours, minutes and
/// seconds, or else a plain number of seconds, each part read by
/// `decimal_attos`.
pub open spec fn parse_time(s: Seq<char>) -> Option<int> {
    let parts = split_on(s, ':');
    if parts.len() == 3 {
        match (decimal_attos(parts[0]), decimal_attos(parts[1]), decimal_attos(parts[2])) {
            (Some(h), Some(m), Some(x)) => Some(h * 3600 + m * 60 + x),
            _ => None,
        }
    } else {
        decimal_attos(s)
    }
}

/// Bound on the magnitude of any timestamp that `parse_time` accepts.
pub open spec fn time_bound() -> int {
    40_000_000_000_000_000_000_000_000_000_000_000_000
}

/// 10 to the power `n`.
pub open spec fn pow10(n: nat) -> nat
    decreases n,
{
    if n == 0 {
        1
    } else {
        10 * pow10((n - 1) as nat)
    }
}

proof fn lemma_zeros_step(d: Seq<char>, i: nat)
    ensures
        digits_value(d + zeros(i + 1)) == digits_value(d + zeros(i)) * 10,
{
    assert((d + zeros(i + 1)).drop_last() =~= d + zeros(i));
}

proof fn lemma_zeros_grow(d: Seq<char>, i: nat, k: nat)
    requires
        i <= k,
    ensures
        digits_value(d + zeros(i)) <= digits_value(d + zeros(k)),
        digits_value(d) == 0 ==> digits_value(d + zeros(k)) == 0,
        digits_value(d) >= 1 ==> digits_value(d + zeros(k)) >= pow10(k),
    decreases k,
{
    if k == 0 {
        assert(d + zeros(0) =~= d);
    } else {
        let k1 = (k - 1) as nat;
        if i < k {
            lemma_zeros_grow(d, i, k1);
        } else {
            lemma_zeros_grow(d, k1, k1);
        }
        lemma_zeros_step(d, k1);
    }
}

proof fn lemma_pow10_big(n: nat)
    requires
        n >= 35,
    ensures
        pow10(n) > cap_attos(),
    decreases n,
{
    if n == 35 {
        reveal_with_fuel(pow10, 36);
    } else {
        lemma_pow10_big((n - 1) as nat);
    }
}

proof fn lemma_exp_mark(s: Seq<char>, m: int)
    requires
        0 <= m <= s.len(),
        forall|j: int| 0 <= j < m ==> s[j] != 'e' && s[j] != 'E',
    ensures
        exp_mark(s) == (if exp_mark(s.skip(m)) < 0 {
            -1
        } else {
            exp_mark(s.skip(m)) + m
        }),
        -1 <= exp_mark(s) < s.len(),
    decreases m,
{
    if m > 0 {
        let t = s.drop_first();
        assert(t.skip(m - 1) =~= s.skip(m));
        lemma_exp_mark(t, m - 1);
    } else {
        assert(s.skip(0) =~= s);
        lemma_exp_mark_range(s);
    }
}

proof fn lemma_exp_mark_range(s: Seq<char>)
    ensures
        -1 <= exp_mark(s) < s.len(),
    decreases s.len(),
{
    if s.len() > 0 {
        lemma_exp_mark_range(s.drop_first());
    }
}

fn prefix_of(s: &Vec<char>, n: usize) -> (r: Vec<char>)
    requires
        n <= s.len(),
    ensures
        r@ == s@.take(n as int),
{
    let mut r: Vec<char> = Vec::new();
    let mut k: usize = 0;
    while k < n
        invariant
            k <= n <= s.len(),
            r@ =~= s@.take(k as int),
        decreases n - k,
    {
        r.push(s[k]);
        k = k + 1;
    }
    r
}

/// `body` split at its first exponent mark: the mantissa, the exponent text
/// and whether there was a mark.
fn split_exponent(body: &Vec<char>) -> (r: (Vec<char>, Vec<char>, bool))
    ensures
        r.2 == (exp_mark(body@) >= 0),
        r.0@ == (if r.2 {
            body@.take(exp_mark(body@))
        } else {
            body@
        }),
        r.1@ == (if r.2 {
            body@.skip(exp_mark(body@) + 1)
        } else {
            Seq::<char>::empty()
        }),
{
    let mut m: usize = 0;
    while m < body.len() && body[m] != 'e' && body[m] != 'E'
        invariant
            m <= body.len(),
            forall|j: int| 0 <= j < m ==> body@[j] != 'e' && body@[j] != 'E',
        decreases body.len() - m,
    {
        m = m + 1;
    }
    proof {
        lemma_exp_mark(body@, m as int);
        if m < body.len() {
            assert(body@.skip(m as int)[0] == body@[m as int]);
        } else {
            assert(body@.skip(m as int).len() == 0);
        }
    }
    let has_exp = m < body.len();
    let mant = prefix_of(body, m);
    assert(!has_exp ==> mant@ =~= body@);
    let etext = if has_exp {
        tail_from(body, m + 1)
    } else {
        Vec::new()
    };
    (mant, etext, has_exp)
}

/// `digits_value(shift_digits(d, exact))` when it is at most `cap`. `shift`
/// is `exact` itself, or stands for an `exact` so far out that the answer is
/// decided: at least `shift >= 35` beyond it, or at most `shift < -|d|` below.
fn shifted_magnitude(d: &Vec<char>, n: u128, shift: i128, Ghost(exact): Ghost<int>) -> (r: Option<u128>)
    requires
        all_digits(d@),
        n == (if digits_value(d@) <= cap_attos() {
            digits_value(d@)
        } else {
            (cap_attos() + 1) as nat
        }),
        exact == shift || (shift >= 35 && exact >= shift) || (shift < -(d@.len() as int) && exact
            <= shift),
        -0x4000_0000_0000_0000_0000_0000_0000 < shift,
    ensures
        r == (if digits_value(shift_digits(d@, exact)) <= cap_attos() {
            Some(digits_value(shift_digits(d@, exact)) as u128)
        } else {
            None::<u128>
        }),
{
    let cap: u128 = 10_000_000_000_000_000_000_000_000_000_000_000;
    if shift >= 0 {
        if n == 0 {
            proof {
                lemma_zeros_grow(d@, exact as nat, exact as nat);
            }
            return Some(0);
        }
        let mut acc: u128 = n;
        let mut i: i128 = 0;
        while i < shift && acc <= cap
            invariant
                0 <= i <= shift,
                n >= 1,
                cap == cap_attos(),
                acc <= cap ==> n <= cap,
                n <= cap ==> acc == digits_value(d@ + zeros(i as nat)),
                n > cap ==> i == 0 && acc == n,
            decreases shift - i,
        {
            proof {
                lemma_zeros_step(d@, i as nat);
            }
            acc = acc * 10;
            i = i + 1;
        }
        if acc > cap {
            proof {
                if n <= cap {
                    lemma_zeros_grow(d@, i as nat, exact as nat);
                } else {
                    lemma_zeros_grow(d@, 0, exact as nat);
                    assert(d@ + zeros(0) =~= d@);
                }
            }
            return None;
        }
        proof {
            if exact != shift {
                lemma_zeros_grow(d@, shift as nat, shift as nat);
                lemma_pow10_big(shift as nat);
            }
        }
        Some(acc)
    } else {
        let drop: i128 = -shift;
        if drop >= d.len() as i128 {
            return Some(0);
        }
        let keep = (d.len() as i128 - drop) as usize;
        let front = prefix_of(d, keep);
        assert(all_digits(front@)) by {
            assert forall|j: int| 0 <= j < front@.len() implies is_digit(#[trigger] front@[j]) by {
                assert(front@[j] == d@[j]);
            }
        }
        match parse_digits_capped(&front, cap) {
            Some(v) => if v > cap {
                None
            } else {
                Some(v)
            },
            None => None,
        }
    }
}

proof fn lemma_concat_digits(a: Seq<char>, b: Seq<char>)
    ensures
        all_digits(a + b) <==> (all_digits(a) && all_digits(b)),
{
    let dd = a + b;
    if all_digits(a) && all_digits(b) {
        assert forall|j: int| 0 <= j < dd.len() implies is_digit(#[trigger] dd[j]) by {
            if j < a.len() {
                assert(dd[j] == a[j]);
            } else {
                assert(dd[j] == b[j - a.len()]);
            }
        }
    }
    if all_digits(dd) {
        assert forall|j: int| 0 <= j < a.len() implies is_digit(#[trigger] a[j]) by {
            assert(dd[j] == a[j]);
        }
        assert forall|j: int| 0 <= j < b.len() implies is_digit(#[trigger] b[j]) by {
            assert(dd[j + a.len()] == b[j]);
        }
    }
}

/// The exponent text read as an integer, clamped to `±(10^30 + 1)`; `None`
/// when it is not `[+|-]digits` (an absent exponent, `must` false, reads as 0).
fn read_exponent(etext: &Vec<char>, must: bool) -> (r: Option<i128>)
    ensures
        r is None <==> (must && !exponent_ok(etext@)) || (!must && !all_digits(sign_split(etext@).1)),
        r matches Some(e) ==> {
            let x = exponent_value(etext@);
            ||| (-1_000_000_000_000_000_000_000_000_000_000 <= x <= 1_000_000_000_000_000_000_000_000_000_000
                && e == x)
            ||| (x > 1_000_000_000_000_000_000_000_000_000_000 && e == 1_000_000_000_000_000_000_000_000_000_001)
            ||| (x < -1_000_000_000_000_000_000_000_000_000_000 && e == -1_000_000_000_000_000_000_000_000_000_001)
        },
{
    let exp_cap: u128 = 1_000_000_000_000_000_000_000_000_000_000;
    let eneg = etext.len() > 0 && etext[0] == '-';
    let esigned = etext.len() > 0 && (etext[0] == '+' || etext[0] == '-');
    let edigits = tail_from(etext, if esigned {
        1
    } else {
        0
    });
    assert(sign_split(etext@) == (eneg, edigits@));
    if must && edigits.len() == 0 {
        return None;
    }
    let ev = match parse_digits_capped(&edigits, exp_cap) {
        Some(v) => v,
        None => return None,
    };
    if eneg {
        Some(-(ev as i128))
    } else {
        Some(ev as i128)
    }
}

/// The mantissa's digits, those before the point then those after, and the
/// number after the point; `None` when it is not a mantissa.
fn read_mantissa(mant: &Vec<char>) -> (r: Option<(Vec<char>, usize)>)
    ensures
        r is None <==> !mantissa_ok(mant@),
        r matches Some((d, f)) ==> d@ == mantissa_int(mant@) + mantissa_frac(mant@) && f
            == mantissa_frac(mant@).len() && all_digits(d@),
{
    let parts = split(mant, '.');
    proof {
        lemma_split_on_nonempty(mant@, '.');
    }
    if parts.len() > 2 {
        return None;
    }
    assert(views(parts@)[0] == parts@[0]@);
    let ip = &parts[0];
    let fp: Vec<char> = if parts.len() == 2 {
        assert(views(parts@)[1] == parts@[1]@);
        copy_chars(&parts[1])
    } else {
        Vec::new()
    };
    assert(ip@ == mantissa_int(mant@));
    assert(fp@ == mantissa_frac(mant@));
    if ip.len() == 0 && fp.len() == 0 {
        return None;
    }
    let mut d = copy_chars(ip);
    let mut k: usize = 0;
    while k < fp.len()
        invariant
            k <= fp.len(),
            d@ == ip@ + fp@.take(k as int),
        decreases fp.len() - k,
    {
        d.push(fp[k]);
        assert(fp@.take(k + 1) =~= fp@.take(k as int).push(fp@[k as int]));
        k = k + 1;
    }
    assert(fp@.take(fp@.len() as int) =~= fp@);
    proof {
        lemma_concat_digits(ip@, fp@);
    }
    let mut j: usize = 0;
    while j < d.len()
        invariant
            j <= d.len(),
            d@ == ip@ + fp@,
            ip@ == mantissa_int(mant@),
            fp@ == mantissa_frac(mant@),
            all_digits(ip@ + fp@) <==> (all_digits(ip@) && all_digits(fp@)),
            forall|i: int| 0 <= i < j ==> is_digit(#[trigger] d@[i]),
        decreases d.len() - j,
    {
        if !('0' <= d[j] && d[j] <= '9') {
            assert(!all_digits(d@));
            return None;
        }
        j = j + 1;
    }
    let f = fp.len();
    Some((d, f))
}

/// A number of seconds, in attoseconds.
pub fn parse_decimal_attos(s: &Vec<char>) -> (r: Option<i128>)
    ensures
        r == (match decimal_attos(s@) {
            Some(v) => Some(v as i128),
            None => None::<i128>,
        }),
        decimal_attos(s@) matches Some(v) ==> -cap_attos() <= v <= cap_attos(),
{
    let cap: u128 = 10_000_000_000_000_000_000_000_000_000_000_000;
    let neg = s.len() > 0 && s[0] == '-';
    let signed = s.len() > 0 && (s[0] == '+' || s[0] == '-');
    let body = tail_from(s, if signed {
        1
    } else {
        0
    });
    assert(sign_split(s@) == (neg, body@));
    let (mant, etext, has_exp) = split_exponent(&body);
    assert(!has_exp ==> sign_split(etext@).1 =~= Seq::<char>::empty());
    let e = match read_exponent(&etext, has_exp) {
        Some(e) => e,
        None => return None,
    };
    let (d, f) = match read_mantissa(&mant) {
        Some(x) => x,
        None => return None,
    };
    let n = match parse_digits_capped(&d, cap) {
        Some(v) => v,
        None => return None,
    };
    let shift: i128 = e - f as i128 + 18;
    let ghost exact_shift: int = exponent_value(etext@) - f + 18;
    proof {
        let x = exponent_value(etext@);
        let big: int = 1_000_000_000_000_000_000_000_000_000_000;
        assert(d@.len() == mantissa_int(mant@).len() + f);
        assert(d@.len() <= usize::MAX);
        if -big <= x <= big {
            assert(exact_shift == shift);
        } else if x > big {
            assert(shift >= 35 && exact_shift >= shift);
        } else {
            assert(shift < -(d@.len() as int) && exact_shift <= shift);
        }
        assert(-0x4000_0000_0000_0000_0000_0000_0000 < shift);
        assert(n == (if digits_value(d@) <= cap_attos() {
            digits_value(d@)
        } else {
            (cap_attos() + 1) as nat
        }));
    }
    let mag = match shifted_magnitude(&d, n, shift, Ghost(exact_shift)) {
        Some(v) => v,
        None => return None,
    };
    if neg {
        Some(-(mag as i128))
    } else {
        Some(mag as i128)
    }
}

/// A nettop timestamp in attoseconds.
pub fn parse_timestamp(s: &Vec<char>) -> (r: Option<i128>)
    ensures
        r == (match parse_time(s@) {
            Some(v) => Some(v as i128),
            None => None::<i128>,
        }),
        r matches Some(v) ==> -time_bound() <= v <= time_bound(),
        parse_time(s@) matches Some(v) ==> -time_bound() <= v <= time_bound(),
{
    let parts = split(s, ':');
    if parts.len() == 3 {
        assert(views(parts@)[0] == parts@[0]@);
        assert(views(parts@)[1] == parts@[1]@);
        assert(views(parts@)[2] == parts@[2]@);
        let h = parse_decimal_attos(&parts[0]);
        let m = parse_decimal_attos(&parts[1]);
        let x = parse_decimal_attos(&parts[2]);
        let ghost sp = split_on(s@, ':');
        assert(sp.len() == 3);
        match (h, m, x) {
            (Some(h), Some(m), Some(x)) => {
                assert(decimal_attos(sp[0]) == Some(h as int));
                assert(decimal_attos(sp[1]) == Some(m as int));
                assert(decimal_attos(sp[2]) == Some(x as int));
                let t = h * 3600 + m * 60 + x;
                assert(parse_time(s@) == Some(t as int));
                Some(t)
            },
            _ => {
                assert(parse_time(s@) is None);
                None
            },
        }
    } else {
        parse_decimal_attos(s)
    }
}

// ── Per-process byte tallies ─────────────────────────────────────────────────

/// Byte counts by process name, in the order the names first appeared.
pub type Counts = Seq<(Seq<char>, int)>;

/// One nettop sample: its timestamp and the bytes sent and received per process.
pub type Sample = (int, Counts, Counts);

/// Index of the last entry of `m` named `k`, or -1.
pub open spec fn key_index(m: Counts, k: Seq<char>) -> int
    decreases m.len(),
{
    if m.len() == 0 {
        -1
    } else if m.last().0 == k {
        m.len() - 1
    } else {
        key_index(m.drop_last(), k)
    }
}

/// The count recorded for `k`, 0 when there is none.
pub open spec fn lookup(m: Counts, k: Seq<char>) -> int {
    let i = key_index(m, k);
    if i >= 0 {
        m[i].1
    } else {
        0
    }
}

/// `m` with `v` added to the count of `k`, which is appended with `v` when absent.
pub open spec fn add_count(m: Counts, k: Seq<char>, v: int) -> Counts {
    let i = key_index(m, k);
    if i >= 0 {
        m.update(i, (k, m[i].1 + v))
    } else {
        m.push((k, v))
    }
}

/// The sum of all counts of `m`.
pub open spec fn count_sum(m: Counts) -> int
    decreases m.len(),
{
    if m.len() == 0 {
        0
    } else {
        count_sum(m.drop_last()) + m.last().1
    }
}

pub proof fn lemma_key_index(m: Counts, k: Seq<char>)
    ensures
        -1 <= key_index(m, k) < m.len(),
        key_index(m, k) >= 0 ==> m[key_index(m, k)].0 == k,
        forall|j: int| key_index(m, k) < j < m.len() ==> m[j].0 != k,
    decreases m.len(),
{
    if m.len() > 0 {
        lemma_key_index(m.drop_last(), k);
        assert forall|j: int| key_index(m, k) < j < m.len() implies m[j].0 != k by {
            if j < m.len() - 1 {
                assert(m.drop_last()[j] == m[j]);
            }
        }
    }
}

proof fn lemma_count_sum_bump(m: Counts, i: int, v: int)
    requires
        0 <= i < m.len(),
    ensures
        count_sum(m.update(i, (m[i].0, m[i].1 + v))) == count_sum(m) + v,
    decreases m.len(),
{
    let n = m.update(i, (m[i].0, m[i].1 + v));
    if i < m.len() - 1 {
        lemma_count_sum_bump(m.drop_last(), i, v);
        assert(n.drop_last() =~= m.drop_last().update(i, (m[i].0, m[i].1 + v)));
    } else {
        assert(n.drop_last() =~= m.drop_last());
    }
}

proof fn lemma_count_le_sum(m: Counts, j: int)
    requires
        0 <= j < m.len(),
        forall|i: int| 0 <= i < m.len() ==> m[i].1 >= 0,
    ensures
        0 <= m[j].1 <= count_sum(m),
        count_sum(m) >= 0,
    decreases m.len(),
{
    let d = m.drop_last();
    assert(m[m.len() - 1].1 >= 0);
    assert(count_sum(m) == count_sum(d) + m[m.len() - 1].1);
    if d.len() == 0 {
        assert(count_sum(d) == 0);
    }
    assert forall|i: int| 0 <= i < d.len() implies d[i].1 >= 0 by {
        assert(d[i] == m[i]);
    }
    if j < m.len() - 1 {
        lemma_count_le_sum(d, j);
        assert(d[j] == m[j]);
    } else if m.len() > 1 {
        lemma_count_le_sum(d, 0);
    }
}

struct Tally {
    name: Vec<char>,
    bytes: u128,
}

spec fn tallies(v: Seq<Tally>) -> Counts {
    v.map_values(|t: Tally| (t.name@, t.bytes as int))
}

fn find_tally(m: &Vec<Tally>, k: &Vec<char>) -> (r: Option<usize>)
    ensures
        match r {
            Some(i) => i < m.len() && key_index(tallies(m@), k@) == i,
            None => key_index(tallies(m@), k@) == -1,
        },
{
    let mut j: usize = m.len();
    assert(tallies(m@).take(m@.len() as int) =~= tallies(m@));
    while j > 0
        invariant
            j <= m.len(),
            key_index(tallies(m@), k@) == key_index(tallies(m@).take(j as int), k@),
        decreases j,
    {
        assert(tallies(m@).take(j as int).drop_last() =~= tallies(m@).take(j - 1));
        if same_chars(&m[j - 1].name, k) {
            return Some(j - 1);
        }
        j = j - 1;
    }
    None
}

fn add_tally(m: &mut Vec<Tally>, k: &Vec<char>, v: u64)
    requires
        count_sum(tallies(old(m)@)) + v <= u128::MAX,
    ensures
        tallies(final(m)@) == add_count(tallies(old(m)@), k@, v as int),
        count_sum(tallies(final(m)@)) == count_sum(tallies(old(m)@)) + v,
{
    let ghost before = tallies(m@);
    match find_tally(m, k) {
        Some(i) => {
            proof {
                lemma_key_index(before, k@);
                lemma_count_le_sum(before, i as int);
                lemma_count_sum_bump(before, i as int, v as int);
            }
            let old_bytes = m[i].bytes;
            let name = copy_chars(&m[i].name);
            m.set(i, Tally { name, bytes: old_bytes + v as u128 });
            assert(tallies(m@) =~= before.update(i as int, (before[i as int].0, before[i as int].1 + v)));
        },
        None => {
            m.push(Tally { name: copy_chars(k), bytes: v as u128 });
            assert(tallies(m@) =~= before.push((k@, v as int)));
            assert(tallies(m@).drop_last() =~= before);
        },
    }
}

// ── Reading nettop's output into samples ─────────────────────────────────────

/// Index of the last `'.'` in `p`, or -1.
pub open spec fn last_dot(p: Seq<char>) -> int
    decreases p.len(),
{
    if p.len() == 0 {
        -1
    } else if p.last() == '.' {
        p.len() - 1
    } else {
        last_dot(p.drop_last())
    }
}

/// The process name of a nettop row's `name.pid` column: the text before its
/// last `'.'`, or all of it when there is none.
pub open spec fn proc_name(p: Seq<char>) -> Seq<char> {
    if last_dot(p) >= 0 {
        p.take(last_dot(p))
    } else {
        p
    }
}

/// What reading nettop's rows has gathered so far: the finished samples, the
/// timestamp of the sample being read, and its bytes out and in.
pub type Scan = (Seq<Sample>, int, Counts, Counts);

/// Reading one row. Header rows (`time,...`) and rows of at most five
/// columns are skipped. A row whose timestamp differs from the current one
/// by more than a millisecond starts a new sample, closing the current one
/// when it holds any count. The row's bytes in (fifth column) and out
/// (sixth column) are then added to its process, each when it reads as a
/// `u64`.
pub open spec fn scan_row(st: Scan, line: Seq<char>) -> Scan {
    if has_prefix(line, "time,"@) {
        st
    } else {
        let parts = split_on(line, ',');
        if parts.len() <= 5 {
            st
        } else {
            let st1 = match parse_time(parts[0]) {
                Some(t) => if t - st.1 > 1_000_000_000_000_000 || st.1 - t > 1_000_000_000_000_000 {
                    if st.2.len() > 0 || st.3.len() > 0 {
                        (
                            st.0.push((st.1, st.2, st.3)),
                            t,
                            Seq::<(Seq<char>, int)>::empty(),
                            Seq::<(Seq<char>, int)>::empty(),
                        )
                    } else {
                        (st.0, t, st.2, st.3)
                    }
                } else {
                    st
                },
                None => st,
            };
            let name = proc_name(parts[1]);
            let inb = match parse_unsigned(parts[4], u64::MAX as nat) {
                Some(v) => add_count(st1.3, name, v as int),
                None => st1.3,
            };
            let outb = match parse_unsigned(parts[5], u64::MAX as nat) {
                Some(v) => add_count(st1.2, name, v as int),
                None => st1.2,
            };
            (st1.0, st1.1, outb, inb)
        }
    }
}

/// Reading the rows in order, from no sample at time 0.
pub open spec fn scan_rows(rows: Seq<Seq<char>>) -> Scan
    decreases rows.len(),
{
    if rows.len() == 0 {
        (
            Seq::<Sample>::empty(),
            0,
            Seq::<(Seq<char>, int)>::empty(),
            Seq::<(Seq<char>, int)>::empty(),
        )
    } else {
        scan_row(scan_rows(rows.drop_last()), rows.last())
    }
}

/// The samples of nettop's output: those its rows closed, and the last one
/// when it holds any count.
pub open spec fn samples_of(text: Seq<char>) -> Seq<Sample> {
    let st = scan_rows(lines_of(text));
    if st.2.len() > 0 || st.3.len() > 0 {
        st.0.push((st.1, st.2, st.3))
    } else {
        st.0
    }
}

fn proc_name_of(p: &Vec<char>) -> (r: Vec<char>)
    ensures
        r@ == proc_name(p@),
{
    let mut j: usize = p.len();
    assert(p@.take(p@.len() as int) =~= p@);
    while j > 0
        invariant
            j <= p.len(),
            last_dot(p@) == last_dot(p@.take(j as int)),
        decreases j,
    {
        assert(p@.take(j as int).drop_last() =~= p@.take(j - 1));
        if p[j - 1] == '.' {
            let mut r: Vec<char> = Vec::new();
            let mut k: usize = 0;
            while k < j - 1
                invariant
                    k <= j - 1 < p.len(),
                    r@ =~= p@.take(k as int),
                decreases j - 1 - k,
            {
                r.push(p[k]);
                k = k + 1;
            }
            return r;
        }
        j = j - 1;
    }
    copy_chars(p)
}

struct Snapshot {
    time: i128,
    outb: Vec<Tally>,
    inb: Vec<Tally>,
}

spec fn snapshot_view(s: Snapshot) -> Sample {
    (s.time as int, tallies(s.outb@), tallies(s.inb@))
}

spec fn snapshots(v: Seq<Snapshot>) -> Seq<Sample> {
    v.map_values(|s: Snapshot| snapshot_view(s))
}

/// Every count sum of the samples is at most `bound`, and every timestamp
/// within `time_bound()`.
spec fn samples_bounded(v: Seq<Sample>, bound: int) -> bool {
    forall|i: int|
        0 <= i < v.len() ==> {
            &&& count_sum(#[trigger] v[i].1) <= bound
            &&& count_sum(v[i].2) <= bound
            &&& -time_bound() <= v[i].0 <= time_bound()
        }
}

proof fn lemma_counts_nonneg(v: Seq<Tally>)
    ensures
        forall|i: int| 0 <= i < tallies(v).len() ==> tallies(v)[i].1 >= 0,
{
}

/// The samples of nettop's output.
#[verifier::rlimit(30)]
fn collect_samples(output: &Vec<char>) -> (r: Vec<Snapshot>)
    ensures
        snapshots(r@) == samples_of(output@),
        samples_bounded(samples_of(output@), u128::MAX as int),
{
    let rows = lines(output);
    let n = rows.len();
    let header = chars_of("time,");
    let mut samples: Vec<Snapshot> = Vec::new();
    let mut cur_time: i128 = 0;
    let mut cur_out: Vec<Tally> = Vec::new();
    let mut cur_in: Vec<Tally> = Vec::new();
    let mut i: usize = 0;
    while i < n
        invariant
            n == rows.len(),
            i <= n,
            header@ == "time,"@,
            scan_rows(views(rows@).take(i as int)) == (
                snapshots(samples@),
                cur_time as int,
                tallies(cur_out@),
                tallies(cur_in@),
            ),
            samples_bounded(snapshots(samples@), n * (u64::MAX as int)),
            count_sum(tallies(cur_out@)) <= i * (u64::MAX as int),
            count_sum(tallies(cur_in@)) <= i * (u64::MAX as int),
            -time_bound() <= cur_time <= time_bound(),
        decreases n - i,
    {
        let ghost before = scan_rows(views(rows@).take(i as int));
        let ghost line = views(rows@)[i as int];
        assert(views(rows@).take(i + 1).drop_last() =~= views(rows@).take(i as int));
        assert(line == rows@[i as int]@);
        proof {
            assert(n * (u64::MAX as int) <= (u64::MAX as int) * (u64::MAX as int)) by (nonlinear_arith)
                requires n <= u64::MAX;
            assert((i + 1) * (u64::MAX as int) == i * (u64::MAX as int) + u64::MAX) by (nonlinear_arith);
            assert((i + 1) * (u64::MAX as int) <= n * (u64::MAX as int)) by (nonlinear_arith)
                requires i + 1 <= n;
            lemma_counts_nonneg(cur_out@);
            lemma_counts_nonneg(cur_in@);
            if tallies(cur_out@).len() > 0 {
                lemma_count_le_sum(tallies(cur_out@), 0);
            }
            if tallies(cur_in@).len() > 0 {
                lemma_count_le_sum(tallies(cur_in@), 0);
            }
        }
        let row = &rows[i];
        if !starts_with(row, &header) {
            let parts = split(row, ',');
            if parts.len() > 5 {
                assert(views(parts@)[0] == parts@[0]@);
                assert(views(parts@)[1] == parts@[1]@);
                assert(views(parts@)[4] == parts@[4]@);
                assert(views(parts@)[5] == parts@[5]@);
                match parse_timestamp(&parts[0]) {
                    Some(t) => {
                        let d = t - cur_time;
                        if d > 1_000_000_000_000_000 || d < -1_000_000_000_000_000 {
                            if cur_out.len() > 0 || cur_in.len() > 0 {
                                let ghost old_samples = snapshots(samples@);
                                let done_out = cur_out;
                                let done_in = cur_in;
                                let snap = Snapshot { time: cur_time, outb: done_out, inb: done_in };
                                samples.push(snap);
                                assert(snapshots(samples@) =~= old_samples.push(snapshot_view(snap)));
                                cur_out = Vec::new();
                                cur_in = Vec::new();
                                assert(tallies(cur_out@) =~= Seq::<(Seq<char>, int)>::empty());
                                assert(tallies(cur_in@) =~= Seq::<(Seq<char>, int)>::empty());
                            }
                            cur_time = t;
                        }
                    },
                    None => {},
                }
                let name = proc_name_of(&parts[1]);
                match parse_u64(&parts[4]) {
                    Some(v) => add_tally(&mut cur_in, &name, v),
                    None => {},
                }
                match parse_u64(&parts[5]) {
                    Some(v) => add_tally(&mut cur_out, &name, v),
                    None => {},
                }
            }
        }
        assert(scan_rows(views(rows@).take(i + 1)) == scan_row(before, line));
        i = i + 1;
    }
    assert(views(rows@).take(n as int) =~= views(rows@));
    proof {
        assert(n * (u64::MAX as int) <= u128::MAX) by (nonlinear_arith)
            requires n <= u64::MAX;
    }
    if cur_out.len() > 0 || cur_in.len() > 0 {
        let ghost old_samples = snapshots(samples@);
        let snap = Snapshot { time: cur_time, outb: cur_out, inb: cur_in };
        samples.push(snap);
        assert(snapshots(samples@) =~= old_samples.push(snapshot_view(snap)));
    }
    samples
}

// ── What the samples keep ────────────────────────────────────────────────────

/// No two entries of `m` name the same process.
pub open spec fn distinct_keys(m: Counts) -> bool {
    forall|i: int, j: int| 0 <= i < j < m.len() ==> m[i].0 != m[j].0
}

proof fn lemma_add_count_distinct(m: Counts, k: Seq<char>, v: int)
    requires
        distinct_keys(m),
    ensures
        distinct_keys(add_count(m, k, v)),
{
    lemma_key_index(m, k);
}

/// Every sample and the current counts name each process once.
pub open spec fn scan_distinct(st: Scan) -> bool {
    &&& forall|i: int|
        0 <= i < st.0.len() ==> distinct_keys(#[trigger] st.0[i].1) && distinct_keys(st.0[i].2)
    &&& distinct_keys(st.2)
    &&& distinct_keys(st.3)
}

proof fn lemma_scan_row_distinct(st: Scan, line: Seq<char>)
    requires
        scan_distinct(st),
    ensures
        scan_distinct(scan_row(st, line)),
{
    let parts = split_on(line, ',');
    if !has_prefix(line, "time,"@) && parts.len() > 5 {
        let name = proc_name(parts[1]);
        let empty = Seq::<(Seq<char>, int)>::empty();
        assert(distinct_keys(empty));
        let st1 = match parse_time(parts[0]) {
            Some(t) => if t - st.1 > 1_000_000_000_000_000 || st.1 - t > 1_000_000_000_000_000 {
                if st.2.len() > 0 || st.3.len() > 0 {
                    (st.0.push((st.1, st.2, st.3)), t, empty, empty)
                } else {
                    (st.0, t, st.2, st.3)
                }
            } else {
                st
            },
            None => st,
        };
        assert(scan_distinct(st1));
        match parse_unsigned(parts[4], u64::MAX as nat) {
            Some(v) => lemma_add_count_distinct(st1.3, name, v as int),
            None => {},
        }
        match parse_unsigned(parts[5], u64::MAX as nat) {
            Some(v) => lemma_add_count_distinct(st1.2, name, v as int),
            None => {},
        }
    }
}

proof fn lemma_scan_rows_distinct(rows: Seq<Seq<char>>)
    ensures
        scan_distinct(scan_rows(rows)),
    decreases rows.len(),
{
    if rows.len() == 0 {
        assert(distinct_keys(Seq::<(Seq<char>, int)>::empty()));
    } else {
        lemma_scan_rows_distinct(rows.drop_last());
        lemma_scan_row_distinct(scan_rows(rows.drop_last()), rows.last());
    }
}

/// Each sample counts a process at most once, in each direction: the
/// counts of its rows are summed.
pub proof fn lemma_sample_names_distinct(text: Seq<char>)
    ensures
        forall|i: int|
            0 <= i < samples_of(text).len() ==> distinct_keys(#[trigger] samples_of(text)[i].1)
                && distinct_keys(samples_of(text)[i].2),
{
    lemma_scan_rows_distinct(lines_of(text));
}

// ── Only the last two samples count ──────────────────────────────────────────

/// The state before any row.
pub open spec fn scan_start() -> Scan {
    (Seq::<Sample>::empty(), 0, Seq::<(Seq<char>, int)>::empty(), Seq::<(Seq<char>, int)>::empty())
}

/// Reading `rows` on from state `st`.
pub open spec fn scan_from(st: Scan, rows: Seq<Seq<char>>) -> Scan
    decreases rows.len(),
{
    if rows.len() == 0 {
        st
    } else {
        scan_row(scan_from(st, rows.drop_last()), rows.last())
    }
}

/// A row that reading skips: a header, or one of at most five columns.
pub open spec fn skipped_row(line: Seq<char>) -> bool {
    has_prefix(line, "time,"@) || split_on(line, ',').len() <= 5
}

/// The timestamp of the first row that is not skipped, when it reads as one.
pub open spec fn lead_time(rows: Seq<Seq<char>>) -> Option<int>
    decreases rows.len(),
{
    if rows.len() == 0 {
        None
    } else if skipped_row(rows[0]) {
        lead_time(rows.drop_first())
    } else {
        parse_time(split_on(rows[0], ',')[0])
    }
}

/// `x` is `y` with `pre` before its finished samples.
pub open spec fn scan_behind(x: Scan, y: Scan, pre: Seq<Sample>) -> bool {
    x.0 == pre + y.0 && x.1 == y.1 && x.2 == y.2 && x.3 == y.3
}

proof fn lemma_scan_rows_from_start(rows: Seq<Seq<char>>)
    ensures
        scan_rows(rows) == scan_from(scan_start(), rows),
    decreases rows.len(),
{
    if rows.len() > 0 {
        lemma_scan_rows_from_start(rows.drop_last());
    }
}

proof fn lemma_scan_from_concat(st: Scan, a: Seq<Seq<char>>, b: Seq<Seq<char>>)
    ensures
        scan_from(st, a + b) == scan_from(scan_from(st, a), b),
    decreases b.len(),
{
    if b.len() == 0 {
        assert(a + b =~= a);
    } else {
        lemma_scan_from_concat(st, a, b.drop_last());
        assert((a + b).drop_last() =~= a + b.drop_last());
    }
}

proof fn lemma_row_keeps_behind(x: Scan, y: Scan, pre: Seq<Sample>, line: Seq<char>)
    requires
        scan_behind(x, y, pre),
    ensures
        scan_behind(scan_row(x, line), scan_row(y, line), pre),
{
    assert((pre + y.0).push((y.1, y.2, y.3)) =~= pre + y.0.push((y.1, y.2, y.3)));
}

proof fn lemma_rows_keep_behind(x: Scan, y: Scan, pre: Seq<Sample>, rows: Seq<Seq<char>>)
    requires
        scan_behind(x, y, pre),
    ensures
        scan_behind(scan_from(x, rows), scan_from(y, rows), pre),
    decreases rows.len(),
{
    if rows.len() > 0 {
        lemma_rows_keep_behind(x, y, pre, rows.drop_last());
        lemma_row_keeps_behind(scan_from(x, rows.drop_last()), scan_from(y, rows.drop_last()), pre, rows.last());
    }
}

/// The samples that state `x` has closed or holds.
pub open spec fn held_samples(x: Scan) -> Seq<Sample> {
    if x.2.len() > 0 || x.3.len() > 0 {
        x.0.push((x.1, x.2, x.3))
    } else {
        x.0
    }
}

proof fn lemma_lead_row_separates(x: Scan, rows: Seq<Seq<char>>, t: int)
    requires
        lead_time(rows) == Some(t),
        t > 1_000_000_000_000_000 || t < -1_000_000_000_000_000,
        t - x.1 > 1_000_000_000_000_000 || x.1 - t > 1_000_000_000_000_000,
    ensures
        scan_behind(scan_from(x, rows), scan_from(scan_start(), rows), held_samples(x)),
    decreases rows.len(),
{
    let first = seq![rows[0]];
    let rest = rows.drop_first();
    assert(rows =~= first + rest);
    lemma_scan_from_concat(x, first, rest);
    lemma_scan_from_concat(scan_start(), first, rest);
    assert(first.drop_last() =~= Seq::<Seq<char>>::empty());
    assert(first.drop_last().len() == 0);
    assert(scan_from(x, first.drop_last()) == x);
    assert(scan_from(scan_start(), first.drop_last()) == scan_start());
    assert(first.last() == rows[0]);
    if skipped_row(rows[0]) {
        assert(scan_from(x, first) == scan_row(x, rows[0]));
        assert(scan_from(scan_start(), first) == scan_row(scan_start(), rows[0]));
        lemma_lead_row_separates(x, rest, t);
    } else {
        let y = scan_start();
        let line = rows[0];
        assert(scan_from(x, first) == scan_row(x, line));
        assert(scan_from(y, first) == scan_row(y, line));
        let x1 = scan_row(x, line);
        let y1 = scan_row(y, line);
        let empty = Seq::<(Seq<char>, int)>::empty();
        let pre = held_samples(x);
        let parts = split_on(line, ',');
        assert(parse_time(parts[0]) == Some(t));
        let x0: Scan = (pre, t, empty, empty);
        let y0: Scan = (Seq::<Sample>::empty(), t, empty, empty);
        if !(x.2.len() > 0 || x.3.len() > 0) {
            assert(x.2 =~= empty);
            assert(x.3 =~= empty);
        }
        assert(pre + Seq::<Sample>::empty() =~= pre);
        assert(scan_behind(x0, y0, pre));
        let name = proc_name(parts[1]);
        let inb = match parse_unsigned(parts[4], u64::MAX as nat) {
            Some(v) => add_count(empty, name, v as int),
            None => empty,
        };
        let outb = match parse_unsigned(parts[5], u64::MAX as nat) {
            Some(v) => add_count(empty, name, v as int),
            None => empty,
        };
        assert(x1 == (pre, t, outb, inb));
        assert(y1 == (Seq::<Sample>::empty(), t, outb, inb));
        assert(scan_behind(x1, y1, pre));
        lemma_rows_keep_behind(x1, y1, pre, rest);
    }
}

/// Only the last two samples count: text read before nettop's output leaves
/// the report on that output unchanged, when the text ends a line, the
/// output holds two samples, and the output's first timestamped row starts
/// a sample of its own (its time is more than a millisecond from 0 and from
/// the time the earlier text ended on).
pub proof fn lemma_only_last_two_samples_count(earlier: Seq<char>, out: Seq<char>)
    requires
        earlier.len() == 0 || earlier.last() == '\n',
        samples_of(out).len() >= 2,
        lead_time(lines_of(out)) matches Some(t) && (t > 1_000_000_000_000_000 || t < -1_000_000_000_000_000) && (t - scan_rows(
            lines_of(earlier),
        ).1 > 1_000_000_000_000_000 || scan_rows(lines_of(earlier)).1 - t > 1_000_000_000_000_000),
    ensures
        traffic_window(samples_of(earlier + out)) == traffic_window(samples_of(out)),
{
    let t = lead_time(lines_of(out))->Some_0;
    let la = lines_of(earlier);
    let lb = lines_of(out);
    lemma_lines_of_concat(earlier, out);
    lemma_scan_rows_from_start(la + lb);
    lemma_scan_rows_from_start(la);
    lemma_scan_rows_from_start(lb);
    lemma_scan_from_concat(scan_start(), la, lb);
    let x = scan_rows(la);
    lemma_lead_row_separates(x, lb, t);
    let pre = held_samples(x);
    let whole = samples_of(earlier + out);
    let part = samples_of(out);
    assert(whole =~= pre + part) by {
        let sx = scan_rows(la + lb);
        let sy = scan_rows(lb);
        if sy.2.len() > 0 || sy.3.len() > 0 {
            assert((pre + sy.0).push((sy.1, sy.2, sy.3)) =~= pre + sy.0.push((sy.1, sy.2, sy.3)));
        }
    }
    assert(whole[whole.len() - 1] == part[part.len() - 1]);
    assert(whole[whole.len() - 2] == part[part.len() - 2]);
}

// ── From the last two samples to a report ────────────────────────────────────

/// The samples a report compares, the last two, and the attoseconds between
/// them; `None` when there are fewer than two or the later one is not later.
pub open spec fn traffic_window(samples: Seq<Sample>) -> Option<(Sample, Sample, int)> {
    if samples.len() < 2 {
        None
    } else {
        let s1 = samples[samples.len() - 2];
        let s2 = samples[samples.len() - 1];
        let dt = s2.0 - s1.0;
        if dt <= 0 {
            None
        } else {
            Some((s1, s2, dt))
        }
    }
}

/// How much a count grew, 0 when it did not.
pub open spec fn pos_delta(now: int, before: int) -> int {
    if now > before {
        now - before
    } else {
        0
    }
}

/// The total growth of the counts of `now` over those of `before`.
pub open spec fn total_increase(now: Counts, before: Counts) -> int
    decreases now.len(),
{
    if now.len() == 0 {
        0
    } else {
        total_increase(now.drop_last(), before) + pos_delta(now.last().1, lookup(before, now.last().0))
    }
}

/// Whether `delta` bytes in `dt` attoseconds make more than 100 bit/s:
/// `delta * 8 / (dt / 10^18) > 100`.
pub open spec fn above_floor(delta: int, dt: int) -> bool {
    delta * 80_000_000_000_000_000 > dt
}

/// Per-process traffic: name, bytes up, bytes down.
pub type Apps = Seq<(Seq<char>, int, int)>;

/// Index of the last entry of `m` named `k`, or -1.
pub open spec fn app_index(m: Apps, k: Seq<char>) -> int
    decreases m.len(),
{
    if m.len() == 0 {
        -1
    } else if m.last().0 == k {
        m.len() - 1
    } else {
        app_index(m.drop_last(), k)
    }
}

/// `m` with the upload of `k` set to `v`; a new entry has no download.
pub open spec fn set_up(m: Apps, k: Seq<char>, v: int) -> Apps {
    let i = app_index(m, k);
    if i >= 0 {
        m.update(i, (k, v, m[i].2))
    } else {
        m.push((k, v, 0))
    }
}

/// `m` with the download of `k` set to `v`; a new entry has no upload.
pub open spec fn set_down(m: Apps, k: Seq<char>, v: int) -> Apps {
    let i = app_index(m, k);
    if i >= 0 {
        m.update(i, (k, m[i].1, v))
    } else {
        m.push((k, 0, v))
    }
}

/// The processes whose upload grew by more than the floor, with that growth.
pub open spec fn with_uploads(now: Counts, before: Counts, dt: int) -> Apps
    decreases now.len(),
{
    if now.len() == 0 {
        Seq::empty()
    } else {
        let m = with_uploads(now.drop_last(), before, dt);
        let (k, b2) = now.last();
        let b1 = lookup(before, k);
        if b2 > b1 && above_floor(b2 - b1, dt) {
            set_up(m, k, b2 - b1)
        } else {
            m
        }
    }
}

/// `acc` with the download growth of every process whose download grew by
/// more than the floor.
pub open spec fn with_downloads(now: Counts, before: Counts, dt: int, acc: Apps) -> Apps
    decreases now.len(),
{
    if now.len() == 0 {
        acc
    } else {
        let m = with_downloads(now.drop_last(), before, dt, acc);
        let (k, b2) = now.last();
        let b1 = lookup(before, k);
        if b2 > b1 && above_floor(b2 - b1, dt) {
            set_down(m, k, b2 - b1)
        } else {
            m
        }
    }
}

/// The processes that a report may list: those whose upload or download
/// grew by more than 100 bit/s from `s1` to `s2`, with the growth in each
/// direction that passed that floor (0 in a direction that did not).
pub open spec fn candidates(s1: Sample, s2: Sample, dt: int) -> Apps {
    with_downloads(s2.2, s1.2, dt, with_uploads(s2.1, s1.1, dt))
}

pub open spec fn app_total(a: (Seq<char>, int, int)) -> int {
    a.1 + a.2
}

/// `r` lists the (at most) five candidates with the most traffic, busiest
/// first, each once; which of several equally busy candidates make the cut
/// is left open.
pub open spec fn is_top_five(r: Apps, c: Apps) -> bool {
    &&& r.len() == (if c.len() < 5 {
        c.len()
    } else {
        5
    })
    &&& forall|k: int| 0 <= k < r.len() ==> c.contains(#[trigger] r[k])
    &&& forall|k: int, l: int| 0 <= k < l < r.len() ==> r[k].0 != r[l].0
    &&& forall|k: int, l: int|
        0 <= k < l < r.len() ==> app_total(#[trigger] r[k]) >= app_total(#[trigger] r[l])
    &&& forall|i: int, k: int|
        0 <= i < c.len() && !r.contains(#[trigger] c[i]) && 0 <= k < r.len() ==> app_total(c[i])
            <= app_total(#[trigger] r[k])
}

/// Bytes that one process moved between the two samples a report compares.
#[derive(Debug, Clone)]
pub struct AppTraffic {
    pub name: String,
    /// Bytes sent, 0 when under 100 bit/s.
    pub bytes_up: u128,
    /// Bytes received, 0 when under 100 bit/s.
    pub bytes_down: u128,
}

impl View for AppTraffic {
    type V = (Seq<char>, int, int);

    open spec fn view(&self) -> (Seq<char>, int, int) {
        (self.name@, self.bytes_up as int, self.bytes_down as int)
    }
}

pub open spec fn app_views(v: Seq<AppTraffic>) -> Apps {
    v.map_values(|a: AppTraffic| a@)
}

/// What nettop's output says of the network: the busiest processes, the
/// bytes sent and received in all, and the attoseconds over which they
/// were counted (0 when nothing could be measured).
#[derive(Debug, Clone)]
pub struct TrafficReport {
    pub apps: Vec<AppTraffic>,
    pub total_up: u128,
    pub total_down: u128,
    pub interval_attos: u128,
}

proof fn lemma_total_increase_bound(now: Counts, before: Counts)
    requires
        forall|i: int| 0 <= i < now.len() ==> now[i].1 >= 0,
        forall|i: int| 0 <= i < before.len() ==> before[i].1 >= 0,
    ensures
        0 <= total_increase(now, before) <= count_sum(now),
    decreases now.len(),
{
    if now.len() > 0 {
        let d = now.drop_last();
        assert forall|i: int| 0 <= i < d.len() implies d[i].1 >= 0 by {
            assert(d[i] == now[i]);
        }
        lemma_total_increase_bound(d, before);
        lemma_key_index(before, now.last().0);
        assert(now[now.len() - 1].1 >= 0);
    }
}

fn lookup_tally(m: &Vec<Tally>, k: &Vec<char>) -> (r: u128)
    ensures
        r == lookup(tallies(m@), k@),
{
    match find_tally(m, k) {
        Some(i) => m[i].bytes,
        None => 0,
    }
}

fn increase_of(now: &Vec<Tally>, before: &Vec<Tally>) -> (r: u128)
    requires
        count_sum(tallies(now@)) <= u128::MAX,
    ensures
        r == total_increase(tallies(now@), tallies(before@)),
{
    let mut acc: u128 = 0;
    let mut i: usize = 0;
    while i < now.len()
        invariant
            i <= now.len(),
            count_sum(tallies(now@)) <= u128::MAX,
            acc == total_increase(tallies(now@).take(i as int), tallies(before@)),
        decreases now.len() - i,
    {
        let ghost pre = tallies(now@).take(i as int);
        let ghost post = tallies(now@).take(i + 1);
        assert(post.drop_last() =~= pre);
        proof {
            lemma_counts_nonneg(now@);
            lemma_counts_nonneg(before@);
            assert forall|j: int| 0 <= j < post.len() implies post[j].1 >= 0 by {
                assert(post[j] == tallies(now@)[j]);
            }
            lemma_total_increase_bound(post, tallies(before@));
            lemma_count_sum_prefix(tallies(now@), i + 1);
        }
        let b2 = now[i].bytes;
        let b1 = lookup_tally(before, &now[i].name);
        if b2 > b1 {
            acc = acc + (b2 - b1);
        }
        i = i + 1;
    }
    assert(tallies(now@).take(now@.len() as int) =~= tallies(now@));
    acc
}

proof fn lemma_count_sum_prefix(m: Counts, j: int)
    requires
        0 <= j <= m.len(),
        forall|i: int| 0 <= i < m.len() ==> m[i].1 >= 0,
    ensures
        count_sum(m.take(j)) <= count_sum(m),
    decreases m.len(),
{
    if j < m.len() {
        let d = m.drop_last();
        assert forall|i: int| 0 <= i < d.len() implies d[i].1 >= 0 by {
            assert(d[i] == m[i]);
        }
        lemma_count_sum_prefix(d, j);
        assert(d.take(j) =~= m.take(j));
        assert(m[m.len() - 1].1 >= 0);
    } else {
        assert(m.take(j) =~= m);
    }
}

/// No two entries of `m` share a name.
pub open spec fn distinct_names(m: Apps) -> bool {
    forall|i: int, j: int| 0 <= i < j < m.len() ==> m[i].0 != m[j].0
}

pub proof fn lemma_app_index(m: Apps, k: Seq<char>)
    ensures
        -1 <= app_index(m, k) < m.len(),
        app_index(m, k) >= 0 ==> m[app_index(m, k)].0 == k,
        forall|j: int| app_index(m, k) < j < m.len() ==> m[j].0 != k,
    decreases m.len(),
{
    if m.len() > 0 {
        lemma_app_index(m.drop_last(), k);
        assert forall|j: int| app_index(m, k) < j < m.len() implies m[j].0 != k by {
            if j < m.len() - 1 {
                assert(m.drop_last()[j] == m[j]);
            }
        }
    }
}

proof fn lemma_set_keeps_distinct(m: Apps, k: Seq<char>, v: int)
    requires
        distinct_names(m),
    ensures
        distinct_names(set_up(m, k, v)),
        distinct_names(set_down(m, k, v)),
{
    lemma_app_index(m, k);
}

proof fn lemma_uploads_distinct(now: Counts, before: Counts, dt: int)
    ensures
        distinct_names(with_uploads(now, before, dt)),
    decreases now.len(),
{
    if now.len() > 0 {
        lemma_uploads_distinct(now.drop_last(), before, dt);
        let m = with_uploads(now.drop_last(), before, dt);
        lemma_set_keeps_distinct(m, now.last().0, now.last().1 - lookup(before, now.last().0));
    }
}

proof fn lemma_downloads_distinct(now: Counts, before: Counts, dt: int, acc: Apps)
    requires
        distinct_names(acc),
    ensures
        distinct_names(with_downloads(now, before, dt, acc)),
    decreases now.len(),
{
    if now.len() > 0 {
        lemma_downloads_distinct(now.drop_last(), before, dt, acc);
        let m = with_downloads(now.drop_last(), before, dt, acc);
        lemma_set_keeps_distinct(m, now.last().0, now.last().1 - lookup(before, now.last().0));
    }
}

/// The candidates of a report never name a process twice.
pub proof fn lemma_candidates_distinct(s1: Sample, s2: Sample, dt: int)
    ensures
        distinct_names(candidates(s1, s2, dt)),
{
    lemma_uploads_distinct(s2.1, s1.1, dt);
    lemma_downloads_distinct(s2.2, s1.2, dt, with_uploads(s2.1, s1.1, dt));
}

proof fn lemma_floor_by_division(d: int, dt: int)
    requires
        d >= 0,
        dt > 0,
    ensures
        above_floor(d, dt) == (d > dt / 80_000_000_000_000_000),
{
    let q = dt / 80_000_000_000_000_000;
    assert(dt == q * 80_000_000_000_000_000 + dt % 80_000_000_000_000_000 && 0 <= dt % 80_000_000_000_000_000 < 80_000_000_000_000_000) by (nonlinear_arith)
        requires
            dt > 0,
            q == dt / 80_000_000_000_000_000,
    ;
    if d > q {
        assert(d * 80_000_000_000_000_000 >= (q + 1) * 80_000_000_000_000_000) by (nonlinear_arith)
            requires
                d >= q + 1,
        ;
    } else {
        assert(d * 80_000_000_000_000_000 <= q * 80_000_000_000_000_000) by (nonlinear_arith)
            requires
                d <= q,
        ;
    }
}

struct Cand {
    name: Vec<char>,
    up: u128,
    down: u128,
}

spec fn cand_view(c: Cand) -> (Seq<char>, int, int) {
    (c.name@, c.up as int, c.down as int)
}

spec fn cand_views(v: Seq<Cand>) -> Apps {
    v.map_values(|c: Cand| cand_view(c))
}

fn find_app(m: &Vec<Cand>, k: &Vec<char>) -> (r: Option<usize>)
    ensures
        match r {
            Some(i) => i < m.len() && app_index(cand_views(m@), k@) == i,
            None => app_index(cand_views(m@), k@) == -1,
        },
{
    let mut j: usize = m.len();
    assert(cand_views(m@).take(m@.len() as int) =~= cand_views(m@));
    while j > 0
        invariant
            j <= m.len(),
            app_index(cand_views(m@), k@) == app_index(cand_views(m@).take(j as int), k@),
        decreases j,
    {
        assert(cand_views(m@).take(j as int).drop_last() =~= cand_views(m@).take(j - 1));
        if same_chars(&m[j - 1].name, k) {
            return Some(j - 1);
        }
        j = j - 1;
    }
    None
}

fn put_app(m: &mut Vec<Cand>, k: &Vec<char>, v: u128, upload: bool)
    ensures
        cand_views(final(m)@) == if upload {
            set_up(cand_views(old(m)@), k@, v as int)
        } else {
            set_down(cand_views(old(m)@), k@, v as int)
        },
{
    let ghost before = cand_views(m@);
    match find_app(m, k) {
        Some(i) => {
            proof {
                lemma_app_index(before, k@);
            }
            let name = copy_chars(&m[i].name);
            let (up, down) = if upload {
                (v, m[i].down)
            } else {
                (m[i].up, v)
            };
            m.set(i, Cand { name, up, down });
            assert(cand_views(m@) =~= before.update(i as int, (k@, up as int, down as int)));
        },
        None => {
            let (up, down) = if upload {
                (v, 0)
            } else {
                (0, v)
            };
            m.push(Cand { name: copy_chars(k), up, down });
            assert(cand_views(m@) =~= before.push((k@, up as int, down as int)));
        },
    }
}

fn collect_candidates(s1: &Snapshot, s2: &Snapshot, dt: i128) -> (r: Vec<Cand>)
    requires
        dt > 0,
    ensures
        cand_views(r@) == candidates(snapshot_view(*s1), snapshot_view(*s2), dt as int),
{
    let q: u128 = (dt / 80_000_000_000_000_000) as u128;
    let mut m: Vec<Cand> = Vec::new();
    let mut i: usize = 0;
    let ghost ups_before = tallies(s1.outb@);
    while i < s2.outb.len()
        invariant
            i <= s2.outb.len(),
            dt > 0,
            q == dt / 80_000_000_000_000_000,
            ups_before == tallies(s1.outb@),
            cand_views(m@) == with_uploads(tallies(s2.outb@).take(i as int), ups_before, dt as int),
        decreases s2.outb.len() - i,
    {
        let ghost now = tallies(s2.outb@).take(i + 1);
        assert(now.drop_last() =~= tallies(s2.outb@).take(i as int));
        let b2 = s2.outb[i].bytes;
        let b1 = lookup_tally(&s1.outb, &s2.outb[i].name);
        if b2 > b1 {
            proof {
                lemma_floor_by_division((b2 - b1) as int, dt as int);
            }
            if b2 - b1 > q {
                put_app(&mut m, &s2.outb[i].name, b2 - b1, true);
            }
        }
        i = i + 1;
    }
    assert(tallies(s2.outb@).take(s2.outb@.len() as int) =~= tallies(s2.outb@));
    let ghost ups = cand_views(m@);
    let ghost downs_before = tallies(s1.inb@);
    let mut i: usize = 0;
    while i < s2.inb.len()
        invariant
            i <= s2.inb.len(),
            dt > 0,
            q == dt / 80_000_000_000_000_000,
            downs_before == tallies(s1.inb@),
            cand_views(m@) == with_downloads(
                tallies(s2.inb@).take(i as int),
                downs_before,
                dt as int,
                ups,
            ),
        decreases s2.inb.len() - i,
    {
        let ghost now = tallies(s2.inb@).take(i + 1);
        assert(now.drop_last() =~= tallies(s2.inb@).take(i as int));
        let b2 = s2.inb[i].bytes;
        let b1 = lookup_tally(&s1.inb, &s2.inb[i].name);
        if b2 > b1 {
            proof {
                lemma_floor_by_division((b2 - b1) as int, dt as int);
            }
            if b2 - b1 > q {
                put_app(&mut m, &s2.inb[i].name, b2 - b1, false);
            }
        }
        i = i + 1;
    }
    assert(tallies(s2.inb@).take(s2.inb@.len() as int) =~= tallies(s2.inb@));
    m
}

/// Whether `a` moved more bytes in all than `b`.
fn busier(a: &Cand, b: &Cand) -> (r: bool)
    ensures
        r == (app_total(cand_view(*a)) > app_total(cand_view(*b))),
{
    if a.up >= b.up {
        let du = a.up - b.up;
        if a.down >= b.down {
            du > 0 || a.down > b.down
        } else {
            du > b.down - a.down
        }
    } else {
        let du = b.up - a.up;
        if b.down >= a.down {
            false
        } else {
            a.down - b.down > du
        }
    }
}

/// The five busiest candidates, busiest first.
fn top_five(cands: Vec<Cand>) -> (r: Vec<Cand>)
    requires
        distinct_names(cand_views(cands@)),
    ensures
        is_top_five(cand_views(r@), cand_views(cands@)),
{
    let ghost c = cand_views(cands@);
    let mut remaining = cands;
    let mut chosen: Vec<Cand> = Vec::new();
    while chosen.len() < 5 && remaining.len() > 0
        invariant
            chosen.len() <= 5,
            chosen.len() + remaining.len() == c.len(),
            forall|k: int| 0 <= k < chosen.len() ==> c.contains(#[trigger] cand_views(chosen@)[k]),
            forall|k: int|
                0 <= k < remaining.len() ==> c.contains(#[trigger] cand_views(remaining@)[k]),
            forall|i: int|
                0 <= i < c.len() ==> cand_views(chosen@).contains(#[trigger] c[i])
                    || cand_views(remaining@).contains(c[i]),
            distinct_names(cand_views(chosen@)),
            distinct_names(cand_views(remaining@)),
            forall|k: int, l: int|
                0 <= k < chosen.len() && 0 <= l < remaining.len() ==> #[trigger] cand_views(
                    chosen@,
                )[k].0 != #[trigger] cand_views(remaining@)[l].0,
            forall|k: int, l: int|
                0 <= k < l < chosen.len() ==> app_total(#[trigger] cand_views(chosen@)[k])
                    >= app_total(#[trigger] cand_views(chosen@)[l]),
            forall|k: int, l: int|
                0 <= k < chosen.len() && 0 <= l < remaining.len() ==> app_total(
                    #[trigger] cand_views(remaining@)[l],
                ) <= app_total(#[trigger] cand_views(chosen@)[k]),
        decreases remaining.len(),
    {
        let mut best: usize = 0;
        let mut j: usize = 1;
        while j < remaining.len()
            invariant
                0 <= best < j <= remaining.len(),
                forall|l: int|
                    0 <= l < j ==> app_total(#[trigger] cand_views(remaining@)[l]) <= app_total(
                        cand_views(remaining@)[best as int],
                    ),
            decreases remaining.len() - j,
        {
            if busier(&remaining[j], &remaining[best]) {
                best = j;
            }
            j = j + 1;
        }
        let ghost old_rem = cand_views(remaining@);
        let ghost old_ch = cand_views(chosen@);
        let x = remaining.remove(best);
        chosen.push(x);
        let ghost rem = cand_views(remaining@);
        let ghost ch = cand_views(chosen@);
        assert(rem =~= old_rem.remove(best as int));
        assert(ch =~= old_ch.push(old_rem[best as int]));
        assert forall|l: int| 0 <= l < rem.len() implies (l < best ==> rem[l] == old_rem[l]) && (l
            >= best ==> rem[l] == old_rem[l + 1]) by {}
        assert forall|i: int| 0 <= i < c.len() implies ch.contains(#[trigger] c[i]) || rem.contains(
            c[i],
        ) by {
            if old_ch.contains(c[i]) {
                let k = choose|k: int| 0 <= k < old_ch.len() && old_ch[k] == c[i];
                assert(ch[k] == c[i]);
            } else {
                let m = choose|m: int| 0 <= m < old_rem.len() && old_rem[m] == c[i];
                if m == best {
                    assert(ch[ch.len() - 1] == c[i]);
                } else if m < best {
                    assert(rem[m] == c[i]);
                } else {
                    assert(rem[m - 1] == c[i]);
                }
            }
        }
        assert forall|k: int| 0 <= k < ch.len() implies c.contains(#[trigger] ch[k]) by {
            if k < old_ch.len() {
                assert(ch[k] == old_ch[k]);
            } else {
                assert(ch[k] == old_rem[best as int]);
            }
        }
        assert forall|k: int| 0 <= k < rem.len() implies c.contains(#[trigger] rem[k]) by {
            if k < best {
                assert(rem[k] == old_rem[k]);
            } else {
                assert(rem[k] == old_rem[k + 1]);
            }
        }
    }
    proof {
        let ch = cand_views(chosen@);
        let rem = cand_views(remaining@);
        assert forall|i: int, k: int|
            0 <= i < c.len() && !ch.contains(#[trigger] c[i]) && 0 <= k < ch.len() implies app_total(
            c[i],
        ) <= app_total(#[trigger] ch[k]) by {
            let m = choose|m: int| 0 <= m < rem.len() && rem[m] == c[i];
            assert(app_total(rem[m]) <= app_total(ch[k]));
        }
    }
    chosen
}

fn report_name(c: &Cand) -> (a: AppTraffic)
    ensures
        a@ == cand_view(*c),
{
    AppTraffic { name: string_from_chars(&c.name), bytes_up: c.up, bytes_down: c.down }
}

/// What the output of `nettop -L 2 -P -t external` says of the network
/// between its last two samples: the busiest processes (at most five, each
/// moving more than 100 bit/s one way), the bytes sent and received by all
/// processes whose counts grew, and the interval in attoseconds; an empty
/// report when the output does not hold two samples, the later one later.
pub fn get_top_uploaders(nettop_output: &str) -> (r: TrafficReport)
    ensures
        match traffic_window(samples_of(nettop_output@)) {
            None => {
                &&& r.apps@.len() == 0
                &&& r.total_up == 0
                &&& r.total_down == 0
                &&& r.interval_attos == 0
            },
            Some((s1, s2, dt)) => {
                &&& r.interval_attos == dt
                &&& r.total_up == total_increase(s2.1, s1.1)
                &&& r.total_down == total_increase(s2.2, s1.2)
                &&& is_top_five(app_views(r.apps@), candidates(s1, s2, dt))
            },
        },
{
    let text = chars_of(nettop_output);
    let samples = collect_samples(&text);
    let empty = TrafficReport { apps: Vec::new(), total_up: 0, total_down: 0, interval_attos: 0 };
    let ghost sv = snapshots(samples@);
    if samples.len() < 2 {
        return empty;
    }
    let s1 = &samples[samples.len() - 2];
    let s2 = &samples[samples.len() - 1];
    assert(sv[sv.len() - 2] == snapshot_view(*s1));
    assert(sv[sv.len() - 1] == snapshot_view(*s2));
    assert(sv == samples_of(nettop_output@));
    assert(count_sum(sv[sv.len() - 2].1) <= u128::MAX && count_sum(sv[sv.len() - 2].2) <= u128::MAX
        && -time_bound() <= sv[sv.len() - 2].0 <= time_bound());
    let ghost last = sv.len() - 1;
    assert(0 <= last < sv.len());
    assert(count_sum(sv[last].1) <= u128::MAX);
    assert(count_sum(sv[last].2) <= u128::MAX);
    assert(-time_bound() <= sv[last].0 <= time_bound());
    let dt: i128 = s2.time - s1.time;
    if dt <= 0 {
        return empty;
    }
    let total_up = increase_of(&s2.outb, &s1.outb);
    let total_down = increase_of(&s2.inb, &s1.inb);
    let cands = collect_candidates(s1, s2, dt);
    proof {
        lemma_candidates_distinct(snapshot_view(*s1), snapshot_view(*s2), dt as int);
    }
    let chosen = top_five(cands);
    let mut apps: Vec<AppTraffic> = Vec::new();
    let mut k: usize = 0;
    while k < chosen.len()
        invariant
            k <= chosen.len(),
            app_views(apps@) =~= cand_views(chosen@).take(k as int),
        decreases chosen.len() - k,
    {
        let a = report_name(&chosen[k]);
        let ghost before = app_views(apps@);
        apps.push(a);
        assert(app_views(apps@) =~= before.push(a@));
        assert(cand_views(chosen@).take(k + 1) =~= cand_views(chosen@).take(k as int).push(
            cand_view(chosen@[k as int]),
        ));
        k = k + 1;
    }
    assert(cand_views(chosen@).take(chosen@.len() as int) =~= cand_views(chosen@));
    TrafficReport { apps, total_up, total_down, interval_attos: dt as u128 }
}

proof fn lemma_total_increase_nonneg(now: Counts, before: Counts)
    ensures
        total_increase(now, before) >= 0,
    decreases now.len(),
{
    if now.len() > 0 {
        lemma_total_increase_nonneg(now.drop_last(), before);
    }
}

proof fn lemma_uploads_bounds(now: Counts, before: Counts, dt: int)
    requires
        dt > 0,
    ensures
        forall|i: int|
            0 <= i < with_uploads(now, before, dt).len() ==> {
                let a = #[trigger] with_uploads(now, before, dt)[i];
                &&& 0 <= a.1 <= total_increase(now, before)
                &&& a.2 == 0
                &&& above_floor(a.1, dt)
            },
    decreases now.len(),
{
    if now.len() > 0 {
        let d = now.drop_last();
        lemma_uploads_bounds(d, before, dt);
        lemma_total_increase_nonneg(d, before);
        let m = with_uploads(d, before, dt);
        lemma_app_index(m, now.last().0);
        let w = with_uploads(now, before, dt);
        assert forall|i: int| 0 <= i < w.len() implies {
            let a = #[trigger] w[i];
            &&& 0 <= a.1 <= total_increase(now, before)
            &&& a.2 == 0
            &&& above_floor(a.1, dt)
        } by {
            if i < m.len() {
                let a = m[i];
                assert(0 <= a.1 <= total_increase(d, before));
            }
            assert(above_floor(w[i].1, dt) ==> w[i].1 > 0) by (nonlinear_arith)
                requires
                    dt > 0,
            ;
        }
    }
}

/// What holds of every process a report may list, with `up_bound` and
/// `down_bound` the totals up and down.
pub open spec fn listed_ok(a: (Seq<char>, int, int), up_bound: int, down_bound: int, dt: int) -> bool {
    &&& 0 <= a.1 <= up_bound
    &&& 0 <= a.2 <= down_bound
    &&& (a.1 == 0 || above_floor(a.1, dt))
    &&& (a.2 == 0 || above_floor(a.2, dt))
    &&& (a.1 > 0 || a.2 > 0)
}

proof fn lemma_downloads_bounds(now: Counts, before: Counts, dt: int, acc: Apps, up_bound: int)
    requires
        dt > 0,
        up_bound >= 0,
        forall|i: int|
            0 <= i < acc.len() ==> {
                let a = #[trigger] acc[i];
                &&& 0 <= a.1 <= up_bound
                &&& a.2 == 0
                &&& above_floor(a.1, dt)
            },
    ensures
        forall|i: int|
            0 <= i < with_downloads(now, before, dt, acc).len() ==> listed_ok(
                #[trigger] with_downloads(now, before, dt, acc)[i],
                up_bound,
                total_increase(now, before),
                dt,
            ),
    decreases now.len(),
{
    if now.len() == 0 {
        assert forall|i: int| 0 <= i < acc.len() implies listed_ok(
            #[trigger] acc[i],
            up_bound,
            0,
            dt,
        ) by {
            let a = acc[i];
            assert(above_floor(a.1, dt) ==> a.1 > 0) by (nonlinear_arith)
                requires
                    dt > 0,
            ;
        }
    } else {
        let d = now.drop_last();
        lemma_downloads_bounds(d, before, dt, acc, up_bound);
        lemma_total_increase_nonneg(d, before);
        let m = with_downloads(d, before, dt, acc);
        lemma_app_index(m, now.last().0);
        let w = with_downloads(now, before, dt, acc);
        let k = now.last().0;
        let b2 = now.last().1;
        let b1 = lookup(before, k);
        let tot = total_increase(now, before);
        assert(tot == total_increase(d, before) + pos_delta(b2, b1));
        assert(above_floor(b2 - b1, dt) ==> b2 - b1 > 0) by (nonlinear_arith)
            requires
                dt > 0,
        ;
        assert forall|i: int| 0 <= i < w.len() implies listed_ok(#[trigger] w[i], up_bound, tot, dt) by {
            if b2 > b1 && above_floor(b2 - b1, dt) {
                let ai = app_index(m, k);
                if ai >= 0 && i == ai {
                    assert(listed_ok(m[ai], up_bound, total_increase(d, before), dt));
                    assert(w[i] == (k, m[ai].1, b2 - b1));
                    assert(listed_ok(w[i], up_bound, tot, dt));
                } else if i < m.len() {
                    assert(w[i] == m[i]);
                    assert(listed_ok(m[i], up_bound, total_increase(d, before), dt));
                    assert(listed_ok(w[i], up_bound, tot, dt));
                } else {
                    assert(w[i] == (k, 0int, b2 - b1));
                    assert(listed_ok(w[i], up_bound, tot, dt));
                }
            } else {
                assert(w[i] == m[i]);
                assert(listed_ok(m[i], up_bound, total_increase(d, before), dt));
                assert(listed_ok(w[i], up_bound, tot, dt));
            }
        }
    }
}

/// Every process that a report may list moved more than 100 bit/s in at
/// least one direction, shows 0 in a direction where it did not, and in each
/// direction moved no more than all processes together.
pub proof fn lemma_candidate_bounds(s1: Sample, s2: Sample, dt: int)
    requires
        dt > 0,
    ensures
        forall|i: int|
            0 <= i < candidates(s1, s2, dt).len() ==> listed_ok(
                #[trigger] candidates(s1, s2, dt)[i],
                total_increase(s2.1, s1.1),
                total_increase(s2.2, s1.2),
                dt,
            ),
{
    lemma_uploads_bounds(s2.1, s1.1, dt);
    lemma_total_increase_nonneg(s2.1, s1.1);
    lemma_downloads_bounds(
        s2.2,
        s1.2,
        dt,
        with_uploads(s2.1, s1.1, dt),
        total_increase(s2.1, s1.1),
    );
}


proof fn lemma_set_other_keeps(m: Apps, k: Seq<char>, v: int, i: int)
    requires
        0 <= i < m.len(),
        m[i].0 != k,
    ensures
        i < set_up(m, k, v).len(),
        set_up(m, k, v)[i] == m[i],
        i < set_down(m, k, v).len(),
        set_down(m, k, v)[i] == m[i],
{
    lemma_app_index(m, k);
}

proof fn lemma_set_up_lists(m: Apps, k: Seq<char>, v: int) -> (i: int)
    ensures
        0 <= i < set_up(m, k, v).len(),
        set_up(m, k, v)[i].0 == k,
        set_up(m, k, v)[i].1 == v,
{
    lemma_app_index(m, k);
    let a = app_index(m, k);
    if a >= 0 {
        a
    } else {
        m.len() as int
    }
}

proof fn lemma_set_down_lists(m: Apps, k: Seq<char>, v: int) -> (i: int)
    ensures
        0 <= i < set_down(m, k, v).len(),
        set_down(m, k, v)[i].0 == k,
        set_down(m, k, v)[i].2 == v,
{
    lemma_app_index(m, k);
    let a = app_index(m, k);
    if a >= 0 {
        a
    } else {
        m.len() as int
    }
}

proof fn lemma_distinct_prefix(now: Counts)
    requires
        distinct_keys(now),
        now.len() > 0,
    ensures
        distinct_keys(now.drop_last()),
        forall|j: int| 0 <= j < now.len() - 1 ==> #[trigger] now[j].0 != now.last().0,
{
    let d = now.drop_last();
    assert forall|i: int, j: int| 0 <= i < j < d.len() implies d[i].0 != d[j].0 by {
        assert(d[i] == now[i] && d[j] == now[j]);
    }
}

proof fn lemma_uploads_list(now: Counts, before: Counts, dt: int, j: int) -> (i: int)
    requires
        distinct_keys(now),
        0 <= j < now.len(),
        now[j].1 > lookup(before, now[j].0),
        above_floor(now[j].1 - lookup(before, now[j].0), dt),
    ensures
        0 <= i < with_uploads(now, before, dt).len(),
        with_uploads(now, before, dt)[i].0 == now[j].0,
        with_uploads(now, before, dt)[i].1 == now[j].1 - lookup(before, now[j].0),
    decreases now.len(),
{
    let d = now.drop_last();
    let m = with_uploads(d, before, dt);
    let k = now.last().0;
    let b2 = now.last().1;
    let b1 = lookup(before, k);
    if j == now.len() - 1 {
        lemma_set_up_lists(m, k, b2 - b1)
    } else {
        lemma_distinct_prefix(now);
        assert(d[j] == now[j]);
        let i = lemma_uploads_list(d, before, dt, j);
        assert(now[j].0 != k);
        lemma_set_other_keeps(m, k, b2 - b1, i);
        i
    }
}

proof fn lemma_downloads_keep(now: Counts, before: Counts, dt: int, acc: Apps, i: int)
    requires
        0 <= i < acc.len(),
    ensures
        i < with_downloads(now, before, dt, acc).len(),
        with_downloads(now, before, dt, acc)[i].0 == acc[i].0,
        with_downloads(now, before, dt, acc)[i].1 == acc[i].1,
    decreases now.len(),
{
    if now.len() > 0 {
        let d = now.drop_last();
        lemma_downloads_keep(d, before, dt, acc, i);
        let m = with_downloads(d, before, dt, acc);
        lemma_app_index(m, now.last().0);
    }
}

proof fn lemma_downloads_list(now: Counts, before: Counts, dt: int, acc: Apps, j: int) -> (i: int)
    requires
        distinct_keys(now),
        0 <= j < now.len(),
        now[j].1 > lookup(before, now[j].0),
        above_floor(now[j].1 - lookup(before, now[j].0), dt),
    ensures
        0 <= i < with_downloads(now, before, dt, acc).len(),
        with_downloads(now, before, dt, acc)[i].0 == now[j].0,
        with_downloads(now, before, dt, acc)[i].2 == now[j].1 - lookup(before, now[j].0),
    decreases now.len(),
{
    let d = now.drop_last();
    let m = with_downloads(d, before, dt, acc);
    let k = now.last().0;
    let b2 = now.last().1;
    let b1 = lookup(before, k);
    if j == now.len() - 1 {
        lemma_set_down_lists(m, k, b2 - b1)
    } else {
        lemma_distinct_prefix(now);
        assert(d[j] == now[j]);
        let i = lemma_downloads_list(d, before, dt, acc, j);
        assert(now[j].0 != k);
        lemma_set_other_keeps(m, k, b2 - b1, i);
        i
    }
}

/// Every process of the later sample whose bytes sent grew by more than
/// 100 bit/s over its count in the earlier sample (0 when it is not there)
/// is a candidate, with that growth as its upload; `dt` is in attoseconds.
pub proof fn lemma_growing_sender_is_candidate(s1: Sample, s2: Sample, dt: int, j: int)
    requires
        distinct_keys(s2.1),
        0 <= j < s2.1.len(),
        s2.1[j].1 > lookup(s1.1, s2.1[j].0),
        (s2.1[j].1 - lookup(s1.1, s2.1[j].0)) * 8 * 1_000_000_000_000_000_000 > 100 * dt,
    ensures
        exists|i: int|
            0 <= i < candidates(s1, s2, dt).len() && #[trigger] candidates(s1, s2, dt)[i].0
                == s2.1[j].0 && candidates(s1, s2, dt)[i].1 == s2.1[j].1 - lookup(
                s1.1,
                s2.1[j].0,
            ),
{
    let acc = with_uploads(s2.1, s1.1, dt);
    assert(above_floor(s2.1[j].1 - lookup(s1.1, s2.1[j].0), dt));
    let i = lemma_uploads_list(s2.1, s1.1, dt, j);
    lemma_downloads_keep(s2.2, s1.2, dt, acc, i);
    assert(candidates(s1, s2, dt)[i].0 == s2.1[j].0);
}

/// Every process of the later sample whose bytes received grew by more than
/// 100 bit/s over its count in the earlier sample (0 when it is not there)
/// is a candidate, with that growth as its download; `dt` is in attoseconds.
pub proof fn lemma_growing_receiver_is_candidate(s1: Sample, s2: Sample, dt: int, j: int)
    requires
        distinct_keys(s2.2),
        0 <= j < s2.2.len(),
        s2.2[j].1 > lookup(s1.2, s2.2[j].0),
        (s2.2[j].1 - lookup(s1.2, s2.2[j].0)) * 8 * 1_000_000_000_000_000_000 > 100 * dt,
    ensures
        exists|i: int|
            0 <= i < candidates(s1, s2, dt).len() && #[trigger] candidates(s1, s2, dt)[i].0
                == s2.2[j].0 && candidates(s1, s2, dt)[i].2 == s2.2[j].1 - lookup(
                s1.2,
                s2.2[j].0,
            ),
{
    assert(above_floor(s2.2[j].1 - lookup(s1.2, s2.2[j].0), dt));
    let i = lemma_downloads_list(s2.2, s1.2, dt, with_uploads(s2.1, s1.1, dt), j);
    assert(candidates(s1, s2, dt)[i].0 == s2.2[j].0);
}

proof fn lemma_absent_counts_zero(m: Counts, k: Seq<char>)
    requires
        forall|i: int| 0 <= i < m.len() ==> m[i].0 != k,
    ensures
        lookup(m, k) == 0,
{
    lemma_key_index(m, k);
}

/// A process that starts sending between the two samples (it is missing from
/// the earlier one) counts from 0: it is a candidate, with all it has sent as
/// its upload, as soon as that passes 100 bit/s.
pub proof fn lemma_new_sender_counts_from_zero(s1: Sample, s2: Sample, dt: int, j: int)
    requires
        dt > 0,
        distinct_keys(s2.1),
        0 <= j < s2.1.len(),
        forall|i: int| 0 <= i < s1.1.len() ==> s1.1[i].0 != s2.1[j].0,
        s2.1[j].1 * 8 * 1_000_000_000_000_000_000 > 100 * dt,
    ensures
        exists|i: int|
            0 <= i < candidates(s1, s2, dt).len() && #[trigger] candidates(s1, s2, dt)[i].0
                == s2.1[j].0 && candidates(s1, s2, dt)[i].1 == s2.1[j].1,
{
    lemma_absent_counts_zero(s1.1, s2.1[j].0);
    assert(s2.1[j].1 > 0);
    lemma_growing_sender_is_candidate(s1, s2, dt, j);
}

/// A process that starts receiving between the two samples (it is missing
/// from the earlier one) counts from 0: it is a candidate, with all it has
/// received as its download, as soon as that passes 100 bit/s.
pub proof fn lemma_new_receiver_counts_from_zero(s1: Sample, s2: Sample, dt: int, j: int)
    requires
        dt > 0,
        distinct_keys(s2.2),
        0 <= j < s2.2.len(),
        forall|i: int| 0 <= i < s1.2.len() ==> s1.2[i].0 != s2.2[j].0,
        s2.2[j].1 * 8 * 1_000_000_000_000_000_000 > 100 * dt,
    ensures
        exists|i: int|
            0 <= i < candidates(s1, s2, dt).len() && #[trigger] candidates(s1, s2, dt)[i].0
                == s2.2[j].0 && candidates(s1, s2, dt)[i].2 == s2.2[j].1,
{
    lemma_absent_counts_zero(s1.2, s2.2[j].0);
    assert(s2.2[j].1 > 0);
    lemma_growing_receiver_is_candidate(s1, s2, dt, j);
}

/// A report ranks processes by the bytes they moved up and down together:
/// each listed process moved at least as many as every one listed after it,
/// and as every candidate left out.
pub proof fn lemma_ranked_by_bytes_both_ways(r: Apps, c: Apps)
    requires
        is_top_five(r, c),
    ensures
        forall|k: int, l: int|
            0 <= k < l < r.len() ==> #[trigger] r[k].1 + r[k].2 >= #[trigger] r[l].1 + r[l].2,
        forall|i: int, k: int|
            0 <= i < c.len() && !r.contains(#[trigger] c[i]) && 0 <= k < r.len() ==> c[i].1
                + c[i].2 <= #[trigger] r[k].1 + r[k].2,
{
    assert forall|k: int, l: int| 0 <= k < l < r.len() implies #[trigger] r[k].1 + r[k].2
        >= #[trigger] r[l].1 + r[l].2 by {
        assert(app_total(r[k]) >= app_total(r[l]));
    }
    assert forall|i: int, k: int|
        0 <= i < c.len() && !r.contains(#[trigger] c[i]) && 0 <= k < r.len() implies c[i].1
        + c[i].2 <= #[trigger] r[k].1 + r[k].2 by {
        assert(app_total(c[i]) <= app_total(r[k]));
    }
}

} // verus!
