use vstd::prelude::*;

verus! {

broadcast use vstd::string::group_string_axioms;

// ── Splitting ────────────────────────────────────────────────────────────────

/// The character sequences held by a vector of character vectors.
pub open spec fn views(v: Seq<Vec<char>>) -> Seq<Seq<char>> {
    v.map_values(|x: Vec<char>| x@)
}

/// The pieces of `s` between occurrences of `sep` (std's `str::split` with a
/// `char` pattern): always at least one piece, empty pieces kept.
pub open spec fn split_on(s: Seq<char>, sep: char) -> Seq<Seq<char>>
    decreases s.len(),
{
    if s.len() == 0 {
        seq![Seq::<char>::empty()]
    } else {
        let init = split_on(s.drop_last(), sep);
        if s.last() == sep {
            init.push(Seq::<char>::empty())
        } else {
            init.update(init.len() - 1, init.last().push(s.last()))
        }
    }
}

pub proof fn lemma_split_on_nonempty(s: Seq<char>, sep: char)
    ensures
        split_on(s, sep).len() >= 1,
    decreases s.len(),
{
    if s.len() > 0 {
        lemma_split_on_nonempty(s.drop_last(), sep);
    }
}

/// A copy of `v`.
pub fn copy_chars(v: &Vec<char>) -> (r: Vec<char>)
    ensures
        r@ == v@,
{
    let r = v.clone();
    assert(r@ =~= v@);
    r
}

/// `s` without one trailing carriage return, if it has one.
pub open spec fn strip_cr(s: Seq<char>) -> Seq<char> {
    if s.len() > 0 && s.last() == '\r' {
        s.drop_last()
    } else {
        s
    }
}

/// The lines of `s` as std's `str::lines` yields them: split at `'\n'`, a
/// `'\r'` just before a `'\n'` dropped, no final empty line after a trailing
/// `'\n'`, and no line at all for the empty text.
pub open spec fn lines_of(s: Seq<char>) -> Seq<Seq<char>> {
    let p = split_on(s, '\n');
    let terminated = p.take(p.len() - 1).map_values(|l: Seq<char>| strip_cr(l));
    if p.last().len() == 0 {
        terminated
    } else {
        terminated.push(p.last())
    }
}

/// The pieces of `s` between occurrences of `sep`.
pub fn split(s: &Vec<char>, sep: char) -> (pieces: Vec<Vec<char>>)
    ensures
        views(pieces@) == split_on(s@, sep),
{
    let mut pieces: Vec<Vec<char>> = Vec::new();
    let mut cur: Vec<char> = Vec::new();
    let mut i: usize = 0;
    while i < s.len()
        invariant
            i <= s.len(),
            views(pieces@).push(cur@) == split_on(s@.take(i as int), sep),
        decreases s.len() - i,
    {
        proof {
            assert(s@.take(i + 1).drop_last() =~= s@.take(i as int));
            lemma_split_on_nonempty(s@.take(i as int), sep);
        }
        let c = s[i];
        if c == sep {
            let ghost before = views(pieces@);
            let ghost done_view = cur@;
            let done = cur;
            pieces.push(done);
            cur = Vec::new();
            assert(views(pieces@) =~= before.push(done_view));
            assert(views(pieces@).push(cur@) =~= split_on(s@.take(i + 1), sep));
        } else {
            let ghost before = views(pieces@);
            cur.push(c);
            assert(views(pieces@) =~= before);
            assert(views(pieces@).push(cur@) =~= split_on(s@.take(i + 1), sep));
        }
        i = i + 1;
    }
    assert(s@.take(s@.len() as int) =~= s@);
    let ghost before = views(pieces@);
    let ghost last_view = cur@;
    pieces.push(cur);
    assert(views(pieces@) =~= before.push(last_view));
    assert(views(pieces@) =~= split_on(s@, sep));
    pieces
}

/// `s` without one trailing carriage return, if it has one.
fn without_cr(l: Vec<char>) -> (r: Vec<char>)
    ensures
        r@ == strip_cr(l@),
{
    let mut l = l;
    if l.len() > 0 && l[l.len() - 1] == '\r' {
        l.pop();
    }
    l
}

proof fn lemma_split_on_concat(a: Seq<char>, b: Seq<char>, sep: char)
    requires
        split_on(a, sep).last() == Seq::<char>::empty(),
    ensures
        split_on(a + b, sep) == split_on(a, sep).drop_last() + split_on(b, sep),
    decreases b.len(),
{
    lemma_split_on_nonempty(a, sep);
    if b.len() == 0 {
        assert(a + b =~= a);
        assert(split_on(a, sep).drop_last() + split_on(b, sep) =~= split_on(a, sep));
    } else {
        let b1 = b.drop_last();
        lemma_split_on_concat(a, b1, sep);
        lemma_split_on_nonempty(b1, sep);
        assert((a + b).drop_last() =~= a + b1);
        assert((a + b).last() == b.last());
        let pre = split_on(a, sep).drop_last();
        let s1 = split_on(b1, sep);
        if b.last() == sep {
            assert((pre + s1).push(Seq::<char>::empty()) =~= pre + s1.push(Seq::<char>::empty()));
        } else {
            let c = b.last();
            assert((pre + s1).update((pre + s1).len() - 1, (pre + s1).last().push(c)) =~= pre
                + s1.update(s1.len() - 1, s1.last().push(c)));
        }
    }
}

/// Lines read from text that ends a line (or is empty) followed by more
/// text are its lines followed by the lines of the rest.
pub proof fn lemma_lines_of_concat(a: Seq<char>, b: Seq<char>)
    requires
        a.len() == 0 || a.last() == '\n',
    ensures
        lines_of(a + b) == lines_of(a) + lines_of(b),
{
    if a.len() == 0 {
        assert(a + b =~= b);
        assert(lines_of(a) =~= Seq::<Seq<char>>::empty());
        assert(lines_of(a) + lines_of(b) =~= lines_of(b));
    } else {
        assert(a.drop_last().push('\n') =~= a);
        lemma_split_on_nonempty(a.drop_last(), '\n');
        assert(split_on(a, '\n').last() == Seq::<char>::empty());
        lemma_split_on_concat(a, b, '\n');
        lemma_split_on_nonempty(a, '\n');
        lemma_split_on_nonempty(b, '\n');
        let pa = split_on(a, '\n');
        let pb = split_on(b, '\n');
        let p = split_on(a + b, '\n');
        assert(p.take(p.len() - 1) =~= pa.take(pa.len() - 1) + pb.take(pb.len() - 1));
        assert(p.last() == pb.last());
        let f = |l: Seq<char>| strip_cr(l);
        assert(p.take(p.len() - 1).map_values(f) =~= pa.take(pa.len() - 1).map_values(f) + pb.take(
            pb.len() - 1,
        ).map_values(f));
        assert(lines_of(a) =~= pa.take(pa.len() - 1).map_values(f));
        if pb.last().len() == 0 {
            assert(lines_of(a + b) =~= lines_of(a) + lines_of(b));
        } else {
            assert(lines_of(a + b) =~= lines_of(a) + lines_of(b));
        }
    }
}

/// The lines of `s` (std's `str::lines`).
pub fn lines(s: &Vec<char>) -> (out: Vec<Vec<char>>)
    ensures
        views(out@) == lines_of(s@),
{
    let mut pieces = split(s, '\n');
    proof {
        lemma_split_on_nonempty(s@, '\n');
    }
    let ghost p = views(pieces@);
    let last = pieces.pop().unwrap();
    assert(views(pieces@) =~= p.take(p.len() - 1));
    let mut out: Vec<Vec<char>> = Vec::new();
    let mut i: usize = 0;
    while i < pieces.len()
        invariant
            i <= pieces.len(),
            p.len() >= 1,
            views(pieces@) == p.take(p.len() - 1),
            views(out@) =~= p.take(i as int).map_values(|l: Seq<char>| strip_cr(l)),
        decreases pieces.len() - i,
    {
        assert(views(pieces@).len() == pieces@.len());
        assert(i < p.len() - 1);
        assert(views(pieces@)[i as int] == p[i as int]);
        let l = without_cr(copy_chars(&pieces[i]));
        let ghost before = views(out@);
        out.push(l);
        assert(views(out@) =~= before.push(strip_cr(p[i as int])));
        assert(p.take(i + 1) =~= p.take(i as int).push(p[i as int]));
        i = i + 1;
    }
    if last.len() > 0 {
        out.push(last);
    }
    out
}

// ── Whitespace ───────────────────────────────────────────────────────────────

/// std's `char::is_whitespace`: the characters with the Unicode `White_Space`
/// property.
pub open spec fn is_space(c: char) -> bool {
    let u = c as u32;
    ||| 0x9 <= u <= 0xD
    ||| u == 0x20
    ||| u == 0x85
    ||| u == 0xA0
    ||| u == 0x1680
    ||| 0x2000 <= u <= 0x200A
    ||| u == 0x2028
    ||| u == 0x2029
    ||| u == 0x202F
    ||| u == 0x205F
    ||| u == 0x3000
}

/// `s` without its leading whitespace.
pub open spec fn trim_start(s: Seq<char>) -> Seq<char>
    decreases s.len(),
{
    if s.len() > 0 && is_space(s[0]) {
        trim_start(s.drop_first())
    } else {
        s
    }
}

/// `s` without its trailing whitespace.
pub open spec fn trim_end(s: Seq<char>) -> Seq<char>
    decreases s.len(),
{
    if s.len() > 0 && is_space(s.last()) {
        trim_end(s.drop_last())
    } else {
        s
    }
}

/// std's `str::trim`: `s` without leading and trailing whitespace.
pub open spec fn trim(s: Seq<char>) -> Seq<char> {
    trim_end(trim_start(s))
}

pub fn is_whitespace(c: char) -> (b: bool)
    ensures
        b == is_space(c),
{
    let u = c as u32;
    (0x9 <= u && u <= 0xD) || u == 0x20 || u == 0x85 || u == 0xA0 || u == 0x1680 || (0x2000 <= u
        && u <= 0x200A) || u == 0x2028 || u == 0x2029 || u == 0x202F || u == 0x205F || u == 0x3000
}

/// `s` without leading and trailing whitespace.
pub fn trimmed(s: &Vec<char>) -> (r: Vec<char>)
    ensures
        r@ == trim(s@),
{
    let mut i: usize = 0;
    assert(s@.skip(0) =~= s@);
    while i < s.len() && is_whitespace(s[i])
        invariant
            i <= s.len(),
            trim_start(s@) == trim_start(s@.skip(i as int)),
        decreases s.len() - i,
    {
        assert(s@.skip(i as int).drop_first() =~= s@.skip(i + 1));
        i = i + 1;
    }
    assert(trim_start(s@) == s@.skip(i as int));
    let ghost front = s@.skip(i as int);
    let mut j: usize = s.len();
    while j > i && is_whitespace(s[j - 1])
        invariant
            i <= j <= s.len(),
            front == s@.skip(i as int),
            trim_end(front) == trim_end(s@.subrange(i as int, j as int)),
        decreases j,
    {
        assert(s@.subrange(i as int, j as int).drop_last() =~= s@.subrange(i as int, j - 1));
        j = j - 1;
    }
    assert(front =~= s@.subrange(i as int, s@.len() as int));
    let mut r: Vec<char> = Vec::new();
    let mut k: usize = i;
    while k < j
        invariant
            i <= k <= j <= s.len(),
            r@ =~= s@.subrange(i as int, k as int),
        decreases j - k,
    {
        r.push(s[k]);
        k = k + 1;
    }
    r
}

// ── Numbers ──────────────────────────────────────────────────────────────────

pub open spec fn is_digit(c: char) -> bool {
    '0' <= c <= '9'
}

pub open spec fn digit_value(c: char) -> nat {
    (c as u32 - '0' as u32) as nat
}

pub open spec fn all_digits(s: Seq<char>) -> bool {
    forall|i: int| 0 <= i < s.len() ==> is_digit(#[trigger] s[i])
}

/// The number written by the decimal digits `s` (0 for no digits).
pub open spec fn digits_value(s: Seq<char>) -> nat
    decreases s.len(),
{
    if s.len() == 0 {
        0
    } else {
        digits_value(s.drop_last()) * 10 + digit_value(s.last())
    }
}

/// `s` without one leading `'+'`, if it has one.
pub open spec fn unsigned_body(s: Seq<char>) -> Seq<char> {
    if s.len() > 0 && s[0] == '+' {
        s.drop_first()
    } else {
        s
    }
}

/// std's `FromStr` for an unsigned integer type whose largest value is `max`:
/// an optional `'+'`, then one or more ASCII digits whose value is at most `max`.
pub open spec fn parse_unsigned(s: Seq<char>, max: nat) -> Option<nat> {
    let d = unsigned_body(s);
    if d.len() > 0 && all_digits(d) && digits_value(d) <= max {
        Some(digits_value(d))
    } else {
        None
    }
}

proof fn lemma_digits_value_grows(s: Seq<char>, i: int, j: int)
    requires
        0 <= i <= j <= s.len(),
        all_digits(s),
    ensures
        digits_value(s.take(i)) <= digits_value(s.take(j)),
    decreases j - i,
{
    if i < j {
        lemma_digits_value_grows(s, i, j - 1);
        assert(s.take(j).drop_last() =~= s.take(j - 1));
    }
}

/// The unsigned number written in `s` (std's `u64::from_str`).
pub fn parse_u64(s: &Vec<char>) -> (r: Option<u64>)
    ensures
        r == (match parse_unsigned(s@, u64::MAX as nat) {
            Some(v) => Some(v as u64),
            None => None::<u64>,
        }),
{
    let start: usize = if s.len() > 0 && s[0] == '+' {
        1
    } else {
        0
    };
    let ghost d = unsigned_body(s@);
    assert(d =~= s@.skip(start as int));
    if start == s.len() {
        return None;
    }
    let mut acc: u64 = 0;
    let mut i: usize = start;
    while i < s.len()
        invariant
            start <= i <= s.len(),
            d == s@.skip(start as int),
            d == unsigned_body(s@),
            all_digits(d.take(i - start)),
            acc == digits_value(d.take(i - start)),
        decreases s.len() - i,
    {
        let c = s[i];
        assert(d[i - start] == c);
        if !('0' <= c && c <= '9') {
            assert(!all_digits(d));
            assert(parse_unsigned(s@, u64::MAX as nat) is None);
            return None;
        }
        let dv = (c as u32 - '0' as u32) as u64;
        assert(d.take(i + 1 - start).drop_last() =~= d.take(i - start));
        let next: u128 = acc as u128 * 10 + dv as u128;
        if next > u64::MAX as u128 {
            proof {
                if all_digits(d) {
                    lemma_digits_value_grows(d, i + 1 - start, d.len() as int);
                    assert(d.take(d.len() as int) =~= d);
                }
            }
            assert(parse_unsigned(s@, u64::MAX as nat) is None);
            return None;
        }
        acc = next as u64;
        i = i + 1;
    }
    assert(d.take(d.len() as int) =~= d);
    Some(acc)
}

/// The value of the digits `s` (an empty `s` reads as 0), or `cap + 1` when
/// it exceeds `cap`; `None` when `s` holds a character that is not a digit.
pub fn parse_digits_capped(s: &Vec<char>, cap: u128) -> (r: Option<u128>)
    requires
        cap <= 1_000_000_000_000_000_000_000_000_000_000_000_000,
    ensures
        r == (if all_digits(s@) {
            Some(
                if digits_value(s@) <= cap {
                    digits_value(s@) as u128
                } else {
                    (cap + 1) as u128
                },
            )
        } else {
            None::<u128>
        }),
{
    let mut acc: u128 = 0;
    let mut i: usize = 0;
    while i < s.len()
        invariant
            i <= s.len(),
            cap <= 1_000_000_000_000_000_000_000_000_000_000_000_000,
            all_digits(s@.take(i as int)),
            acc == (if digits_value(s@.take(i as int)) <= cap {
                digits_value(s@.take(i as int))
            } else {
                (cap + 1) as nat
            }),
        decreases s.len() - i,
    {
        let c = s[i];
        if !('0' <= c && c <= '9') {
            assert(!all_digits(s@));
            return None;
        }
        let dv = (c as u32 - '0' as u32) as u128;
        assert(s@.take(i + 1).drop_last() =~= s@.take(i as int));
        if acc > cap {
            acc = cap + 1;
        } else {
            let next = acc * 10 + dv;
            acc = if next > cap {
                cap + 1
            } else {
                next
            };
        }
        i = i + 1;
    }
    assert(s@.take(s@.len() as int) =~= s@);
    Some(acc)
}

/// The decimal digit character for `d < 10`.
pub open spec fn digit_char(d: nat) -> char {
    (d + '0' as u32) as char
}

/// The decimal numeral of `n`, without leading zeros (std's `Display` for integers).
pub open spec fn decimal(n: nat) -> Seq<char>
    decreases n,
{
    if n < 10 {
        seq![digit_char(n)]
    } else {
        decimal(n / 10).push(digit_char(n % 10))
    }
}

/// The decimal numeral of `n`.
pub fn decimal_chars(n: u64) -> (v: Vec<char>)
    ensures
        v@ == decimal(n as nat),
    decreases n,
{
    let d = n % 10;
    let c = ((d as u32) + ('0' as u32)) as u8 as char;
    assert(c == digit_char(d as nat));
    if n < 10 {
        let mut v: Vec<char> = Vec::new();
        v.push(c);
        assert(v@ =~= seq![c]);
        v
    } else {
        let mut v = decimal_chars(n / 10);
        v.push(c);
        v
    }
}

/// The numeral of `n` is one or more digits that read back as `n`.
pub proof fn lemma_decimal_reads_back(n: nat)
    ensures
        decimal(n).len() >= 1,
        all_digits(decimal(n)),
        digits_value(decimal(n)) == n,
    decreases n,
{
    if n < 10 {
        assert(seq![digit_char(n)].drop_last() =~= Seq::<char>::empty());
        assert(digits_value(Seq::<char>::empty()) == 0);
        assert(digit_value(digit_char(n)) == n);
    } else {
        lemma_decimal_reads_back(n / 10);
        let d = decimal(n / 10);
        let c = digit_char(n % 10);
        assert(d.push(c).drop_last() =~= d);
        assert(forall|i: int| 0 <= i < d.len() ==> d.push(c)[i] == d[i]);
        assert(digit_value(c) == n % 10);
        assert((n / 10) * 10 + n % 10 == n) by (nonlinear_arith);
    }
}

/// Different numbers have different numerals.
pub proof fn lemma_decimal_injective(a: nat, b: nat)
    ensures
        (decimal(a) == decimal(b)) == (a == b),
{
    lemma_decimal_reads_back(a);
    lemma_decimal_reads_back(b);
}

/// Text that begins and ends with a character other than whitespace is its
/// own trim.
pub proof fn lemma_trim_unspaced(s: Seq<char>)
    requires
        s.len() > 0,
        !is_space(s[0]),
        !is_space(s.last()),
    ensures
        trim(s) == s,
{
}

/// Whether every character of `s` is whitespace.
pub open spec fn all_space(s: Seq<char>) -> bool {
    forall|i: int| 0 <= i < s.len() ==> is_space(#[trigger] s[i])
}

/// Leading whitespace does not change what trimming the front leaves.
pub proof fn lemma_trim_start_skips(w: Seq<char>, t: Seq<char>)
    requires
        all_space(w),
    ensures
        trim_start(w + t) == trim_start(t),
    decreases w.len(),
{
    if w.len() > 0 {
        let v = w.drop_first();
        assert((w + t)[0] == w[0]);
        assert((w + t).drop_first() =~= v + t);
        assert forall|i: int| 0 <= i < v.len() implies is_space(#[trigger] v[i]) by {
            assert(v[i] == w[i + 1]);
        }
        lemma_trim_start_skips(v, t);
    } else {
        assert(w + t =~= t);
    }
}

/// Trailing whitespace does not change what trimming the end leaves.
pub proof fn lemma_trim_end_skips(t: Seq<char>, w: Seq<char>)
    requires
        all_space(w),
    ensures
        trim_end(t + w) == trim_end(t),
    decreases w.len(),
{
    if w.len() > 0 {
        let v = w.drop_last();
        assert((t + w).last() == w.last());
        assert(is_space(w[w.len() - 1]));
        assert((t + w).drop_last() =~= t + v);
        assert forall|i: int| 0 <= i < v.len() implies is_space(#[trigger] v[i]) by {
            assert(v[i] == w[i]);
        }
        lemma_trim_end_skips(t, v);
    } else {
        assert(t + w =~= t);
    }
}

/// Trimming text that is whitespace, then text that begins and ends with
/// something else, then whitespace, leaves the text in the middle.
pub proof fn lemma_trim_padded(w1: Seq<char>, t: Seq<char>, w2: Seq<char>)
    requires
        all_space(w1),
        all_space(w2),
        t.len() > 0,
        !is_space(t[0]),
        !is_space(t.last()),
    ensures
        trim(w1 + t + w2) == t,
{
    lemma_trim_start_skips(w1, t + w2);
    assert(w1 + t + w2 =~= w1 + (t + w2));
    assert((t + w2)[0] == t[0]);
    assert(trim_start(t + w2) == t + w2);
    lemma_trim_end_skips(t, w2);
    lemma_trim_unspaced(t);
}

/// A numeral of a number no larger than `max` parses back to that number.
pub proof fn lemma_parse_decimal(n: nat, max: nat)
    requires
        n <= max,
    ensures
        parse_unsigned(decimal(n), max) == Some(n),
        trim(decimal(n)) == decimal(n),
{
    lemma_decimal_reads_back(n);
    let d = decimal(n);
    assert(is_digit(d[0]));
    assert(is_digit(d[d.len() - 1]));
    lemma_trim_unspaced(d);
}

/// Text without the separator is one piece.
pub proof fn lemma_split_on_without(s: Seq<char>, sep: char)
    requires
        forall|i: int| 0 <= i < s.len() ==> s[i] != sep,
    ensures
        split_on(s, sep) == seq![s],
    decreases s.len(),
{
    if s.len() > 0 {
        let t = s.drop_last();
        assert forall|i: int| 0 <= i < t.len() implies t[i] != sep by {
            assert(t[i] == s[i]);
        }
        lemma_split_on_without(t, sep);
        assert(s.last() != sep);
        assert(t.push(s.last()) =~= s);
        assert(seq![t].update(0, t.push(s.last())) =~= seq![s]);
    } else {
        assert(s =~= Seq::<char>::empty());
    }
}

/// Two pieces without the separator, joined by it, split back into those two.
pub proof fn lemma_split_pair(a: Seq<char>, b: Seq<char>, sep: char)
    requires
        forall|i: int| 0 <= i < a.len() ==> a[i] != sep,
        forall|i: int| 0 <= i < b.len() ==> b[i] != sep,
    ensures
        split_on(a + seq![sep] + b, sep) == seq![a, b],
{
    let x = a + seq![sep];
    lemma_split_on_without(a, sep);
    lemma_split_on_without(b, sep);
    assert(x.drop_last() =~= a);
    assert(split_on(x, sep) =~= seq![a, Seq::<char>::empty()]);
    lemma_split_on_concat(x, b, sep);
    assert(split_on(x, sep).drop_last() + split_on(b, sep) =~= seq![a, b]);
}

// ── Searching ────────────────────────────────────────────────────────────────

/// `p` starts `s`.
pub open spec fn has_prefix(s: Seq<char>, p: Seq<char>) -> bool {
    p.len() <= s.len() && s.take(p.len() as int) == p
}

/// `p` occurs in `s` (std's `str::contains` with a string pattern).
pub open spec fn has_infix(s: Seq<char>, p: Seq<char>) -> bool {
    exists|i: int| 0 <= i <= s.len() - p.len() && #[trigger] s.subrange(i, i + p.len()) == p
}

fn matches_at(s: &Vec<char>, p: &Vec<char>, at: usize) -> (b: bool)
    requires
        at + p.len() <= s.len(),
    ensures
        b == (s@.subrange(at as int, at + p.len()) == p@),
{
    let mut k: usize = 0;
    while k < p.len()
        invariant
            k <= p.len(),
            at + p.len() <= s.len(),
            s@.subrange(at as int, at + k) =~= p@.take(k as int),
        decreases p.len() - k,
    {
        if s[at + k] != p[k] {
            assert(s@.subrange(at as int, at + p.len())[k as int] != p@[k as int]);
            return false;
        }
        k = k + 1;
    }
    assert(s@.subrange(at as int, at + p.len()) =~= p@);
    true
}

/// Whether `a` and `b` hold the same characters.
pub fn same_chars(a: &Vec<char>, b: &Vec<char>) -> (r: bool)
    ensures
        r == (a@ == b@),
{
    if a.len() != b.len() {
        return false;
    }
    let mut k: usize = 0;
    while k < a.len()
        invariant
            k <= a.len() == b.len(),
            a@.take(k as int) =~= b@.take(k as int),
        decreases a.len() - k,
    {
        if a[k] != b[k] {
            assert(a@[k as int] != b@[k as int]);
            return false;
        }
        assert(a@.take(k + 1) =~= a@.take(k as int).push(a@[k as int]));
        assert(b@.take(k + 1) =~= b@.take(k as int).push(b@[k as int]));
        k = k + 1;
    }
    assert(a@ =~= a@.take(a@.len() as int));
    assert(b@ =~= b@.take(b@.len() as int));
    true
}

/// Whether `s` starts with `p`.
pub fn starts_with(s: &Vec<char>, p: &Vec<char>) -> (b: bool)
    ensures
        b == has_prefix(s@, p@),
{
    if p.len() > s.len() {
        return false;
    }
    assert(s@.take(p.len() as int) =~= s@.subrange(0, p.len() as int));
    matches_at(s, p, 0)
}

/// Whether `p` occurs in `s`.
pub fn contains(s: &Vec<char>, p: &Vec<char>) -> (b: bool)
    ensures
        b == has_infix(s@, p@),
{
    if p.len() > s.len() {
        return false;
    }
    let last = s.len() - p.len();
    let mut at: usize = 0;
    loop
        invariant
            p.len() <= s.len(),
            last == s.len() - p.len(),
            at <= last,
            forall|i: int| 0 <= i < at ==> #[trigger] s@.subrange(i, i + p.len()) != p@,
        decreases last - at,
    {
        if matches_at(s, p, at) {
            return true;
        }
        if at == last {
            return false;
        }
        at = at + 1;
    }
}

/// `s` after its first `n` characters.
pub fn tail_from(s: &Vec<char>, n: usize) -> (r: Vec<char>)
    requires
        n <= s.len(),
    ensures
        r@ == s@.skip(n as int),
{
    let mut r: Vec<char> = Vec::new();
    let mut k: usize = n;
    while k < s.len()
        invariant
            n <= k <= s.len(),
            r@ =~= s@.subrange(n as int, k as int),
        decreases s.len() - k,
    {
        r.push(s[k]);
        k = k + 1;
    }
    r
}

// ── Conversions ──────────────────────────────────────────────────────────────

/// The characters of `s`, in order.
pub fn chars_of(s: &str) -> (v: Vec<char>)
    ensures
        v@ == s@,
{
    let mut v: Vec<char> = Vec::new();
    for c in it: s.chars()
        invariant
            it.seq() == s@,
            v@ == it.seq().take(it.index() as int),
    {
        v.push(c);
    }
    v
}

/// std's `FromIterator<char>` for `String`: the string made of `chars`, in order.
#[verifier::external_body]
pub(crate) fn string_from_chars(chars: &Vec<char>) -> (s: String)
    ensures
        s@ == chars@,
{
    chars.iter().collect()
}

} // verus!
