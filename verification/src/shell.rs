use vstd::prelude::*;
use crate::state::AppState;
use crate::text::{chars_of, decimal, decimal_chars, has_infix, string_from_chars, views};

verus! {

broadcast use vstd::string::group_string_axioms;

/// The pieces of `parts` with `sep` between each two (std's `join`).
pub open spec fn join(parts: Seq<Seq<char>>, sep: Seq<char>) -> Seq<char>
    decreases parts.len(),
{
    if parts.len() == 0 {
        Seq::empty()
    } else if parts.len() == 1 {
        parts[0]
    } else {
        join(parts.drop_last(), sep) + sep + parts.last()
    }
}

/// The AppleScript that lifts every limit: packet filter off, both dummynet
/// pipes deleted, the default packet-filter rules reloaded.
pub open spec fn remove_script_text() -> Seq<char> {
    "do shell script \"pfctl -d; dnctl pipe 1 delete 2>/dev/null; dnctl pipe 2 delete 2>/dev/null; pfctl -f /etc/pf.conf\" with administrator privileges"@
}

/// ` on <interface>` for a named interface, nothing for all interfaces.
pub open spec fn interface_clause(iface: Seq<char>) -> Seq<char> {
    if iface.len() == 0 {
        Seq::empty()
    } else {
        " on "@ + iface
    }
}

/// The dummynet pipe settings: pipe 1 for the upload limit, pipe 2 for the
/// download limit, each only when that limit is set.
pub open spec fn pipe_commands(up: nat, down: nat) -> Seq<Seq<char>> {
    (if up > 0 {
        seq!["dnctl pipe 1 config bw "@ + decimal(up) + "Mbit/s"@]
    } else {
        Seq::empty()
    }) + (if down > 0 {
        seq!["dnctl pipe 2 config bw "@ + decimal(down) + "Mbit/s"@]
    } else {
        Seq::empty()
    })
}

/// The packet-filter rules that send outgoing traffic through pipe 1 and
/// incoming traffic through pipe 2, each only when that limit is set.
pub open spec fn pf_rules(up: nat, down: nat, iface: Seq<char>) -> Seq<Seq<char>> {
    (if up > 0 {
        seq!["dummynet out"@ + interface_clause(iface) + " from any to any pipe 1"@]
    } else {
        Seq::empty()
    }) + (if down > 0 {
        seq!["dummynet in"@ + interface_clause(iface) + " from any to any pipe 2"@]
    } else {
        Seq::empty()
    })
}

/// `echo '<rule>'`.
pub open spec fn echo(rule: Seq<char>) -> Seq<char> {
    "echo '"@ + rule + "'"@
}

/// Each rule echoed.
pub open spec fn echoes(rules: Seq<Seq<char>>) -> Seq<Seq<char>> {
    Seq::new(rules.len(), |i: int| echo(rules[i]))
}

/// The command that loads the rules into the packet filter: one rule echoed
/// straight into `pfctl`, several echoed from a group.
pub open spec fn pf_command(rules: Seq<Seq<char>>) -> Seq<char> {
    if rules.len() == 1 {
        echo(rules[0]) + " | pfctl -f -"@
    } else {
        "{ "@ + join(echoes(rules), "; "@) + "; } | pfctl -f -"@
    }
}

/// The AppleScript that runs, with administrator rights, the pipe settings,
/// the rule loading and `pfctl -E`, joined by ` && `.
pub open spec fn apply_script_text(up: nat, down: nat, iface: Seq<char>) -> Seq<char> {
    let cmds = pipe_commands(up, down).push(pf_command(pf_rules(up, down, iface))).push(
        "pfctl -E"@,
    );
    "do shell script \""@ + join(cmds, " && "@) + "\" with administrator privileges"@
}

/// The AppleScript that brings the packet filter to `limit_up`/`limit_down`
/// on the chosen interface: the one that lifts every limit when neither is set.
pub open spec fn limit_script_text(up: nat, down: nat, iface: Seq<char>) -> Seq<char> {
    if up == 0 && down == 0 {
        remove_script_text()
    } else {
        apply_script_text(up, down, iface)
    }
}

/// The AppleScript that adds the app to the login items, or removes it.
pub open spec fn login_item_script_text(enabled: bool) -> Seq<char> {
    if enabled {
        "tell application \"System Events\" to make login item at end with properties {path:\"/Applications/BwLimit.app\", hidden:false, name:\"BwLimit\"}"@
    } else {
        "tell application \"System Events\" to delete login item \"BwLimit\""@
    }
}

/// The AppleScript that lists the names of the login items.
pub open spec fn login_items_query_text() -> Seq<char> {
    "tell application \"System Events\" to get name of every login item"@
}

/// `p` occurs in any text that holds it between two others.
pub proof fn lemma_infix_between(x: Seq<char>, p: Seq<char>, y: Seq<char>)
    ensures
        has_infix(x + p + y, p),
{
    let s = x + p + y;
    assert(s.subrange(x.len() as int, (x.len() + p.len()) as int) =~= p);
}

/// What occurs in a text occurs in any text that holds it between two others.
pub proof fn lemma_infix_widen(x: Seq<char>, a: Seq<char>, y: Seq<char>, p: Seq<char>)
    requires
        has_infix(a, p),
    ensures
        has_infix(x + a + y, p),
{
    let i = choose|i: int| 0 <= i <= a.len() - p.len() && #[trigger] a.subrange(i, i + p.len()) == p;
    let s = x + a + y;
    assert(s.subrange(x.len() + i, x.len() + i + p.len()) =~= a.subrange(i, i + p.len()));
}

proof fn lemma_join_push(s: Seq<Seq<char>>, x: Seq<char>, sep: Seq<char>)
    requires
        s.len() >= 1,
    ensures
        join(s.push(x), sep) == join(s, sep) + sep + x,
{
    assert(s.push(x).drop_last() =~= s);
}

proof fn lemma_pf_command_holds(rules: Seq<Seq<char>>, j: int, p: Seq<char>)
    requires
        1 <= rules.len() <= 2,
        0 <= j < rules.len(),
        has_infix(rules[j], p),
    ensures
        has_infix(pf_command(rules), p),
{
    lemma_infix_widen("echo '"@, rules[j], "'"@, p);
    if rules.len() == 1 {
        lemma_infix_widen(Seq::<char>::empty(), echo(rules[0]), " | pfctl -f -"@, p);
        assert(Seq::<char>::empty() + echo(rules[0]) + " | pfctl -f -"@ =~= pf_command(rules));
    } else {
        let e0 = echo(rules[0]);
        let e1 = echo(rules[1]);
        assert(echoes(rules) =~= seq![e0].push(e1));
        lemma_join_push(seq![e0], e1, "; "@);
        assert(join(seq![e0], "; "@) == e0);
        assert(join(echoes(rules), "; "@) == e0 + "; "@ + e1);
        if j == 0 {
            lemma_infix_widen("{ "@, e0, "; "@ + e1 + "; } | pfctl -f -"@, p);
            assert(pf_command(rules) =~= "{ "@ + e0 + ("; "@ + e1 + "; } | pfctl -f -"@));
        } else {
            lemma_infix_widen("{ "@ + e0 + "; "@, e1, "; } | pfctl -f -"@, p);
            assert(pf_command(rules) =~= ("{ "@ + e0 + "; "@) + e1 + "; } | pfctl -f -"@);
        }
    }
}

proof fn lemma_infix_self(p: Seq<char>)
    ensures
        has_infix(p, p),
{
    let e = Seq::<char>::empty();
    lemma_infix_between(e, p, e);
    assert(e + p + e =~= p);
}

/// Each piece of a join occurs in it.
pub proof fn lemma_join_holds(s: Seq<Seq<char>>, j: int, sep: Seq<char>)
    requires
        0 <= j < s.len(),
    ensures
        has_infix(join(s, sep), s[j]),
    decreases s.len(),
{
    let e = Seq::<char>::empty();
    if s.len() == 1 {
        lemma_infix_self(s[0]);
    } else if j == s.len() - 1 {
        lemma_infix_between(join(s.drop_last(), sep) + sep, s[j], e);
        assert(join(s, sep) =~= join(s.drop_last(), sep) + sep + s[j] + e);
    } else {
        lemma_join_holds(s.drop_last(), j, sep);
        assert(s.drop_last()[j] == s[j]);
        lemma_infix_widen(e, join(s.drop_last(), sep), sep + s.last(), s[j]);
        assert(join(s, sep) =~= e + join(s.drop_last(), sep) + (sep + s.last()));
    }
}

proof fn lemma_script_holds_command(up: nat, down: nat, iface: Seq<char>, j: int, p: Seq<char>)
    requires
        up > 0 || down > 0,
        0 <= j < pipe_commands(up, down).len() + 2,
        has_infix(
            pipe_commands(up, down).push(pf_command(pf_rules(up, down, iface))).push("pfctl -E"@)[j],
            p,
        ),
    ensures
        has_infix(limit_script_text(up, down, iface), p),
{
    let cmds = pipe_commands(up, down).push(pf_command(pf_rules(up, down, iface))).push(
        "pfctl -E"@,
    );
    let sep = " && "@;
    let j_cmds = join(cmds, sep);
    lemma_join_holds(cmds, j, sep);
    let i = choose|i: int|
        0 <= i <= cmds[j].len() - p.len() && #[trigger] cmds[j].subrange(i, i + p.len()) == p;
    let x = "do shell script \""@;
    let y = "\" with administrator privileges"@;
    assert(has_infix(j_cmds, cmds[j]));
    let k = choose|k: int|
        0 <= k <= j_cmds.len() - cmds[j].len() && #[trigger] j_cmds.subrange(k, k + cmds[j].len())
            == cmds[j];
    assert(j_cmds.subrange(k + i, k + i + p.len()) =~= cmds[j].subrange(i, i + p.len()));
    assert(has_infix(j_cmds, p));
    lemma_infix_widen(x, j_cmds, y, p);
    assert(limit_script_text(up, down, iface) =~= x + j_cmds + y);
}

proof fn lemma_script_holds(up: nat, down: nat, iface: Seq<char>, p: Seq<char>)
    requires
        up > 0 || down > 0,
        has_infix(pf_command(pf_rules(up, down, iface)), p),
    ensures
        has_infix(limit_script_text(up, down, iface), p),
{
    let pc = pipe_commands(up, down);
    let pf = pf_command(pf_rules(up, down, iface));
    assert(pc.push(pf).push("pfctl -E"@)[pc.len() as int] == pf);
    lemma_script_holds_command(up, down, iface, pc.len() as int, p);
}

/// The script sets pipe 1 to the upload limit and pipe 2 to the download
/// limit, each when that limit is set, and turns the packet filter on
/// whenever a limit is set.
pub proof fn lemma_limits_configure_pipes(up: nat, down: nat, iface: Seq<char>)
    ensures
        up > 0 ==> has_infix(
            limit_script_text(up, down, iface),
            "dnctl pipe 1 config bw "@ + decimal(up) + "Mbit/s"@,
        ),
        down > 0 ==> has_infix(
            limit_script_text(up, down, iface),
            "dnctl pipe 2 config bw "@ + decimal(down) + "Mbit/s"@,
        ),
        up > 0 || down > 0 ==> has_infix(limit_script_text(up, down, iface), "pfctl -E"@),
{
    let pc = pipe_commands(up, down);
    let cmds = pc.push(pf_command(pf_rules(up, down, iface))).push("pfctl -E"@);
    if up > 0 {
        let c = "dnctl pipe 1 config bw "@ + decimal(up) + "Mbit/s"@;
        assert(cmds[0] == c);
        lemma_infix_self(c);
        lemma_script_holds_command(up, down, iface, 0, c);
    }
    if down > 0 {
        let c = "dnctl pipe 2 config bw "@ + decimal(down) + "Mbit/s"@;
        assert(cmds[pc.len() - 1] == c);
        lemma_infix_self(c);
        lemma_script_holds_command(up, down, iface, pc.len() - 1, c);
    }
    if up > 0 || down > 0 {
        assert(cmds[(pc.len() + 1) as int] == "pfctl -E"@);
        lemma_infix_self("pfctl -E"@);
        lemma_script_holds_command(up, down, iface, (pc.len() + 1) as int, "pfctl -E"@);
    }
}

/// With an upload limit set and an interface named, the script sends the
/// outgoing traffic of that interface through pipe 1, whether or not a
/// download limit is set.
pub proof fn lemma_upload_rule_names_interface(up: nat, down: nat, iface: Seq<char>)
    requires
        up > 0,
        iface.len() > 0,
    ensures
        has_infix(
            limit_script_text(up, down, iface),
            "dummynet out on "@ + iface + " from any to any pipe 1"@,
        ),
{
    let rules = pf_rules(up, down, iface);
    let r = "dummynet out on "@ + iface + " from any to any pipe 1"@;
    reveal_strlit("dummynet out on ");
    reveal_strlit("dummynet out");
    reveal_strlit(" on ");
    assert(rules[0] =~= r);
    lemma_infix_self(r);
    lemma_pf_command_holds(rules, 0, r);
    lemma_script_holds(up, down, iface, r);
}

/// With a download limit set and an interface named, the script sends the
/// incoming traffic of that interface through pipe 2, whether or not an
/// upload limit is set.
pub proof fn lemma_download_rule_names_interface(up: nat, down: nat, iface: Seq<char>)
    requires
        down > 0,
        iface.len() > 0,
    ensures
        has_infix(
            limit_script_text(up, down, iface),
            "dummynet in on "@ + iface + " from any to any pipe 2"@,
        ),
{
    let rules = pf_rules(up, down, iface);
    let r = "dummynet in on "@ + iface + " from any to any pipe 2"@;
    reveal_strlit("dummynet in on ");
    reveal_strlit("dummynet in");
    reveal_strlit(" on ");
    let j = rules.len() - 1;
    assert(rules[j] =~= r);
    lemma_infix_self(r);
    lemma_pf_command_holds(rules, j, r);
    lemma_script_holds(up, down, iface, r);
}

/// Appends the characters of `w` to `v`.
fn push_chars(v: &mut Vec<char>, w: &Vec<char>)
    ensures
        final(v)@ == old(v)@ + w@,
{
    let mut k: usize = 0;
    while k < w.len()
        invariant
            k <= w.len(),
            v@ == old(v)@ + w@.take(k as int),
        decreases w.len() - k,
    {
        v.push(w[k]);
        assert(w@.take(k + 1) =~= w@.take(k as int).push(w@[k as int]));
        k = k + 1;
    }
    assert(w@.take(w@.len() as int) =~= w@);
}

/// Appends the characters of `s` to `v`.
fn push_str(v: &mut Vec<char>, s: &str)
    ensures
        final(v)@ == old(v)@ + s@,
{
    let w = chars_of(s);
    push_chars(v, &w);
}

/// The pieces of `parts` with `sep` between each two.
pub fn join_chars(parts: &Vec<Vec<char>>, sep: &str) -> (r: Vec<char>)
    ensures
        r@ == join(views(parts@), sep@),
{
    let mut r: Vec<char> = Vec::new();
    let mut k: usize = 0;
    while k < parts.len()
        invariant
            k <= parts.len(),
            r@ == join(views(parts@).take(k as int), sep@),
        decreases parts.len() - k,
    {
        let ghost pre = views(parts@).take(k as int);
        assert(views(parts@).take(k + 1).drop_last() =~= pre);
        assert(views(parts@)[k as int] == parts@[k as int]@);
        if k > 0 {
            push_str(&mut r, sep);
        } else {
            assert(views(parts@).take(1) =~= seq![parts@[0]@]);
        }
        push_chars(&mut r, &parts[k]);
        if k == 0 {
            assert(r@ =~= parts@[0]@);
        }
        k = k + 1;
    }
    assert(views(parts@).take(parts@.len() as int) =~= views(parts@));
    r
}

/// The AppleScript that lifts every limit.
pub fn remove_limit_script() -> (s: String)
    ensures
        s@ == remove_script_text(),
{
    let v = chars_of(
        "do shell script \"pfctl -d; dnctl pipe 1 delete 2>/dev/null; dnctl pipe 2 delete 2>/dev/null; pfctl -f /etc/pf.conf\" with administrator privileges",
    );
    string_from_chars(&v)
}

/// `text` followed by the decimal numeral of `n` and `tail`.
fn with_number(text: &str, n: u32, tail: &str) -> (v: Vec<char>)
    ensures
        v@ == text@ + decimal(n as nat) + tail@,
{
    let mut v = chars_of(text);
    let d = decimal_chars(n as u64);
    push_chars(&mut v, &d);
    push_str(&mut v, tail);
    v
}

/// `head` followed by the interface clause and `tail`.
fn rule_with(head: &str, clause: &Vec<char>, tail: &str) -> (v: Vec<char>)
    ensures
        v@ == head@ + clause@ + tail@,
{
    let mut v = chars_of(head);
    push_chars(&mut v, clause);
    push_str(&mut v, tail);
    v
}

/// The AppleScript that brings the packet filter to the limits of `state`.
pub fn limit_script(state: &AppState) -> (s: String)
    ensures
        s@ == limit_script_text(
            state.limit_up as nat,
            state.limit_down as nat,
            state.interface@,
        ),
{
    let up = state.limit_up;
    let down = state.limit_down;
    if up == 0 && down == 0 {
        return remove_limit_script();
    }
    let iface = chars_of(state.interface.as_str());
    let clause = if iface.len() == 0 {
        Vec::new()
    } else {
        let mut c = chars_of(" on ");
        push_chars(&mut c, &iface);
        c
    };
    assert(clause@ == interface_clause(state.interface@));
    let mut cmds: Vec<Vec<char>> = Vec::new();
    let mut rules: Vec<Vec<char>> = Vec::new();
    if up > 0 {
        cmds.push(with_number("dnctl pipe 1 config bw ", up, "Mbit/s"));
        rules.push(rule_with("dummynet out", &clause, " from any to any pipe 1"));
    }
    if down > 0 {
        cmds.push(with_number("dnctl pipe 2 config bw ", down, "Mbit/s"));
        rules.push(rule_with("dummynet in", &clause, " from any to any pipe 2"));
    }
    let ghost cv = pipe_commands(up as nat, down as nat);
    let ghost rv = pf_rules(up as nat, down as nat, state.interface@);
    assert(views(cmds@) =~= cv);
    assert(views(rules@) =~= rv);
    let pf_cmd = if rules.len() == 1 {
        let mut c = chars_of("echo '");
        push_chars(&mut c, &rules[0]);
        push_str(&mut c, "'");
        push_str(&mut c, " | pfctl -f -");
        assert(c@ =~= pf_command(rv));
        c
    } else {
        let mut echos: Vec<Vec<char>> = Vec::new();
        let mut k: usize = 0;
        while k < rules.len()
            invariant
                k <= rules.len(),
                views(rules@) == rv,
                views(echos@).len() == k,
                forall|j: int| 0 <= j < k ==> #[trigger] views(echos@)[j] == echo(rv[j]),
            decreases rules.len() - k,
        {
            let mut e = chars_of("echo '");
            push_chars(&mut e, &rules[k]);
            push_str(&mut e, "'");
            let ghost before = views(echos@);
            echos.push(e);
            assert(views(echos@) =~= before.push(echo(rv[k as int])));
            k = k + 1;
        }
        assert(views(echos@) =~= echoes(rv));
        let mut c = chars_of("{ ");
        let joined = join_chars(&echos, "; ");
        push_chars(&mut c, &joined);
        push_str(&mut c, "; } | pfctl -f -");
        assert(rv.len() != 1);
        assert(c@ =~= pf_command(rv));
        c
    };
    let ghost before = views(cmds@);
    let ghost pf_view = pf_cmd@;
    cmds.push(pf_cmd);
    let ghost mid = views(cmds@);
    assert(mid =~= before.push(pf_view));
    cmds.push(chars_of("pfctl -E"));
    assert(views(cmds@) =~= mid.push("pfctl -E"@));
    let mut script = chars_of("do shell script \"");
    let shell_cmd = join_chars(&cmds, " && ");
    push_chars(&mut script, &shell_cmd);
    push_str(&mut script, "\" with administrator privileges");
    string_from_chars(&script)
}

/// The AppleScript that adds the app to the login items (`enabled`) or removes it.
pub fn login_item_script(enabled: bool) -> (s: String)
    ensures
        s@ == login_item_script_text(enabled),
{
    let v = if enabled {
        chars_of(
            "tell application \"System Events\" to make login item at end with properties {path:\"/Applications/BwLimit.app\", hidden:false, name:\"BwLimit\"}",
        )
    } else {
        chars_of("tell application \"System Events\" to delete login item \"BwLimit\"")
    };
    string_from_chars(&v)
}

/// The AppleScript that lists the names of the login items.
pub fn login_items_query() -> (s: String)
    ensures
        s@ == login_items_query_text(),
{
    let v = chars_of("tell application \"System Events\" to get name of every login item");
    string_from_chars(&v)
}

} // verus!
