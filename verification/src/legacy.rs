//! Best-effort migration from legacy Hyprland `.conf`/`.lua` profiles.
//!
//! Hand-edited dialect files are not a profile source any more: they are
//! converted once with [`to_profile`] into TOML, which is then edited.
use vstd::prelude::*;
use crate::model::{
    EdpPolicy, GpuPref, Profile, ProfileView, Mode, ModeView, Monitor, MonitorView, Number, WorkspaceRule, WorkspaceRuleView, default_monitor,
    mode_opt_view, mode_parse, monitors_view, parse_mode_in, rules_view, strings_view,
};
use crate::num::{
    debug_quoted, debug_text, is_float_literal, is_float_literal_exec, parse_i32, parse_i32_exec,
    parse_u8, parse_u8_exec, parse_u32, parse_u32_exec, parse_i64, parse_i64_exec,
};
use crate::text::{
    chars_of, find_char, find_char_exec, find_seq, find_seq_from, find_seq_in, lemma_find_seq_from,
    line_ranges, lines, occurs_at, range_eq, skip_ws, skip_ws_back, split_char, split_ranges,
    starts_with_at, string_of, strip_prefix, trim, trim_char_range, trim_end, trim_end_char,
    trim_range, trim_start, trim_start_char, push_str,
};

verus! {

pub open spec fn is_ascii_lower(c: char) -> bool {
    'a' as u32 <= c as u32 && c as u32 <= 'z' as u32
}

pub open spec fn is_ascii_alnum(c: char) -> bool {
    ||| '0' as u32 <= c as u32 && c as u32 <= '9' as u32
    ||| 'a' as u32 <= c as u32 && c as u32 <= 'z' as u32
    ||| 'A' as u32 <= c as u32 && c as u32 <= 'Z' as u32
}

/// What follows a `#@` or `--@` leader, without leading whitespace.
pub open spec fn directive_rest(line: Seq<char>) -> Option<Seq<char>> {
    match strip_prefix(line, "#@"@) {
        Some(r) => Some(trim_start(r)),
        None => match strip_prefix(line, "--@"@) {
            Some(r) => Some(trim_start(r)),
            None => None,
        },
    }
}

/// Every character of a directive key is a lower-case ASCII letter, or a
/// hyphen after the first character when hyphens are allowed.
pub open spec fn key_ok(key: Seq<char>, allow_hyphen: bool) -> bool {
    forall|i: int|
        0 <= i < key.len() ==> is_ascii_lower(#[trigger] key[i]) || (allow_hyphen && i > 0 && key[i]
            == '-')
}

/// `parse_directive`: `#@ key = value` or `--@ key = value`, with a
/// non-empty key and value, split at the first `=`.
pub open spec fn directive(line: Seq<char>, allow_hyphen: bool) -> Option<(Seq<char>, Seq<char>)> {
    match directive_rest(line) {
        None => None,
        Some(rest) => match find_char(rest, '=') {
            None => None,
            Some(eq) => {
                let key = trim_end(rest.take(eq));
                let val = trim(rest.skip(eq + 1));
                if key.len() == 0 || val.len() == 0 || !key_ok(key, allow_hyphen) {
                    None
                } else {
                    Some((key, val))
                }
            },
        },
    }
}

fn is_ascii_lower_exec(c: char) -> (b: bool)
    ensures
        b == is_ascii_lower(c),
{
    'a' as u32 <= c as u32 && c as u32 <= 'z' as u32
}

fn is_word_char_exec(c: char) -> (b: bool)
    ensures
        b == is_word_char(c),
{
    ('0' as u32 <= c as u32 && c as u32 <= '9' as u32) || ('a' as u32 <= c as u32 && c as u32
        <= 'z' as u32) || ('A' as u32 <= c as u32 && c as u32 <= 'Z' as u32) || c == '_'
}

/// `parse_directive` on `v[lo..hi]`, as ranges of `v` for the key and value.
pub fn directive_in(v: &Vec<char>, lo: usize, hi: usize, allow_hyphen: bool) -> (r: Option<
    (usize, usize, usize, usize),
>)
    requires
        lo <= hi <= v@.len(),
    ensures
        match r {
            Some((a, b, c, d)) => {
                &&& lo <= a <= b <= hi
                &&& lo <= c <= d <= hi
                &&& directive(v@.subrange(lo as int, hi as int), allow_hyphen) == Some(
                    (v@.subrange(a as int, b as int), v@.subrange(c as int, d as int)),
                )
            },
            None => directive(v@.subrange(lo as int, hi as int), allow_hyphen) is None,
        },
{
    let ghost s = v@.subrange(lo as int, hi as int);
    proof {
        reveal_strlit("#@");
        reveal_strlit("--@");
    }
    let start;
    if starts_with_at(v, lo, hi, "#@") {
        start = lo + 2;
        assert(s.skip(2) =~= v@.subrange(start as int, hi as int));
    } else if starts_with_at(v, lo, hi, "--@") {
        start = lo + 3;
        assert(s.skip(3) =~= v@.subrange(start as int, hi as int));
    } else {
        return None;
    }
    let r0 = skip_ws(v, start, hi);
    let ghost rest = v@.subrange(r0 as int, hi as int);
    assert(directive_rest(s) == Some(rest));
    let eq = match find_char_exec(v, r0, hi, '=') {
        Some(e) => e,
        None => {
            assert(find_char(rest, '=') is None);
            return None;
        },
    };
    assert(rest.take(eq - r0) =~= v@.subrange(r0 as int, eq as int));
    assert(rest.skip(eq - r0 + 1) =~= v@.subrange(eq + 1, hi as int));
    let kend = skip_ws_back(v, r0, eq);
    let (vl, vh) = trim_range(v, eq + 1, hi);
    let ghost key = v@.subrange(r0 as int, kend as int);
    assert(find_char(rest, '=') == Some(eq - r0));
    assert(trim_end(rest.take(eq - r0)) == key);
    assert(trim(rest.skip(eq - r0 + 1)) == v@.subrange(vl as int, vh as int));
    if kend == r0 || vl == vh {
        return None;
    }
    let mut i = r0;
    while i < kend
        invariant
            r0 <= i <= kend <= hi <= v@.len(),
            key == v@.subrange(r0 as int, kend as int),
            lo <= r0,
            lo <= vl <= vh <= hi,
            directive(v@.subrange(lo as int, hi as int), allow_hyphen) == (if key_ok(
                key,
                allow_hyphen,
            ) {
                Some((key, v@.subrange(vl as int, vh as int)))
            } else {
                None
            }),
            forall|j: int|
                0 <= j < i - r0 ==> is_ascii_lower(#[trigger] key[j]) || (allow_hyphen && j > 0
                    && key[j] == '-'),
        decreases kend - i,
    {
        let c = v[i];
        assert(key[i - r0] == c);
        if !(is_ascii_lower_exec(c) || (allow_hyphen && i > r0 && c == '-')) {
            assert(!key_ok(key, allow_hyphen));
            return None;
        }
        i += 1;
    }
    Some((r0, kend, vl, vh))
}

pub fn parse_directive<'a>(line: &'a str, allow_hyphen: bool) -> (r: Option<(&'a str, &'a str)>)
    ensures
        match r {
            Some(kv) => directive(line@, allow_hyphen) == Some((kv.0@, kv.1@)),
            None => directive(line@, allow_hyphen) is None,
        },
{
    let v = chars_of(line);
    assert(v@.subrange(0, v@.len() as int) =~= line@);
    match directive_in(&v, 0, v.len(), allow_hyphen) {
        Some((a, b, c, d)) => Some((line.substring_char(a, b), line.substring_char(c, d))),
        None => None,
    }
}

// ----------------------------------------------------------------------
// `key = value` fields inside a Lua table constructor.
// ----------------------------------------------------------------------
pub open spec fn is_word_char(c: char) -> bool {
    is_ascii_alnum(c) || c == '_'
}

/// The occurrence of a key at `pos` is not part of a longer word.
pub open spec fn word_bounded(g: Seq<char>, n: int, pos: int) -> bool {
    &&& !(pos > 0 && is_word_char(g[pos - 1]))
    &&& !(pos + n < g.len() && is_word_char(g[pos + n]))
}

/// The first whole-word occurrence of `key`, scanning the occurrences left
/// to right without overlap from `i`.
pub open spec fn key_pos_from(g: Seq<char>, key: Seq<char>, i: int) -> Option<int>
    decreases g.len() - i,
{
    if key.len() == 0 || i < 0 {
        None
    } else {
        match find_seq_from(g, key, i) {
            None => None,
            Some(p) => if word_bounded(g, key.len() as int, p) {
                Some(p)
            } else {
                proof {
                    lemma_find_seq_from(g, key, i);
                }
                key_pos_from(g, key, p + key.len())
            },
        }
    }
}

/// Index of the first `,`, newline or `}` at or after `i` (or the length).
pub open spec fn stop_from(s: Seq<char>, i: int) -> int
    decreases s.len() - i,
{
    if i < 0 || i >= s.len() {
        s.len() as int
    } else if s[i] == ',' || s[i] == '\n' || s[i] == '}' {
        i
    } else {
        stop_from(s, i + 1)
    }
}

/// The value of `key = value` in a Lua table body: up to the next `,`,
/// newline or `}`, trimmed and without surrounding double quotes.
pub open spec fn field(g: Seq<char>, key: Seq<char>) -> Option<Seq<char>> {
    match key_pos_from(g, key, 0) {
        None => None,
        Some(pos) => {
            let s = trim_start(g.skip(pos + key.len()));
            if s.len() > 0 && s[0] == '=' {
                let s2 = trim_start(s.drop_first());
                let piece = s2.take(stop_from(s2, 0));
                Some(trim_end_char(trim_start_char(trim(piece), '"'), '"'))
            } else {
                None
            }
        },
    }
}

/// `field` on `v[lo..hi]`, as a range of `v`.
pub fn field_in(v: &Vec<char>, lo: usize, hi: usize, key: &str) -> (r: Option<(usize, usize)>)
    requires
        lo <= hi <= v@.len(),
    ensures
        match r {
            Some((a, b)) => lo <= a <= b <= hi && field(v@.subrange(lo as int, hi as int), key@)
                == Some(v@.subrange(a as int, b as int)),
            None => field(v@.subrange(lo as int, hi as int), key@) is None,
        },
{
    let ghost g = v@.subrange(lo as int, hi as int);
    let kc = chars_of(key);
    let n = kc.len();
    if n == 0 {
        return None;
    }
    let mut i = lo;
    let mut pos: usize = lo;
    loop
        invariant
            lo <= i,
            lo <= hi <= v@.len(),
            kc@ == key@,
            n == kc@.len(),
            n > 0,
            g == v@.subrange(lo as int, hi as int),
            key_pos_from(g, key@, 0) == key_pos_from(g, key@, i - lo),
        ensures
            lo <= pos,
            pos + n <= hi,
            key_pos_from(g, key@, 0) == Some(pos - lo),
        decreases hi + 1 - i,
    {
        match find_seq_in(v, lo, hi, &kc, i) {
            None => {
                return None;
            },
            Some(p) => {
                proof {
                    lemma_find_seq_from(g, key@, i - lo);
                }
                let before_ok = !(p > lo && is_word_char_exec(v[p - 1]));
                let after_ok = !(p + n < hi && is_word_char_exec(v[p + n]));
                assert(p > lo ==> g[p - lo - 1] == v@[p - 1]);
                assert(p + n < hi ==> g[p - lo + n] == v@[p + n]);
                if before_ok && after_ok {
                    pos = p;
                    break ;
                }
                i = p + n;
            },
        }
    }
    let after_key = pos + n;
    let s0 = skip_ws(v, after_key, hi);
    assert(g.skip(pos - lo + n) =~= v@.subrange(after_key as int, hi as int));
    if s0 >= hi || v[s0] != '=' {
        return None;
    }
    let s2 = skip_ws(v, s0 + 1, hi);
    assert(v@.subrange(s0 as int, hi as int).drop_first() =~= v@.subrange(s0 + 1, hi as int));
    let ghost t2 = v@.subrange(s2 as int, hi as int);
    let mut e = s2;
    while e < hi && v[e] != ',' && v[e] != '\n' && v[e] != '}'
        invariant
            s2 <= e <= hi <= v@.len(),
            t2 == v@.subrange(s2 as int, hi as int),
            stop_from(t2, 0) == stop_from(t2, e - s2),
        decreases hi - e,
    {
        e += 1;
    }
    assert(t2.take(stop_from(t2, 0)) =~= v@.subrange(s2 as int, e as int));
    let (a, b) = trim_range(v, s2, e);
    let (c, d) = trim_char_range(v, a, b, '"');
    Some((c, d))
}

// ----------------------------------------------------------------------
// Workspace rules, from either dialect.
// ----------------------------------------------------------------------
/// The right-hand side of `workspace = ...`.
pub open spec fn ws_rhs(t: Seq<char>) -> Option<Seq<char>> {
    match strip_prefix(t, "workspace"@) {
        None => None,
        Some(x) => {
            let y = trim_start(x);
            if y.len() > 0 && y[0] == '=' {
                Some(trim(y.drop_first()))
            } else {
                None
            }
        },
    }
}

/// The comma-separated pieces of `s`, each trimmed.
pub open spec fn trimmed_pieces(s: Seq<char>) -> Seq<Seq<char>> {
    split_char(s, ',').map_values(|x: Seq<char>| trim(x))
}

/// The rule one line declares, in the conf form
/// `workspace = NAME, monitor:SELECTOR[, default:true]` or the Lua form
/// `hl.workspace_rule({ workspace = .., monitor = .., default = .. })`.
pub open spec fn workspace_rule_of(line: Seq<char>) -> Option<WorkspaceRuleView> {
    let t = trim(line);
    match ws_rhs(t) {
        Some(rhs) => {
            let p = trimmed_pieces(rhs);
            if p.len() >= 2 && "monitor:"@.is_prefix_of(p[1]) {
                Some(
                    WorkspaceRuleView {
                        workspace: p[0],
                        monitor: p[1].skip("monitor:"@.len() as int),
                        default: p.contains("default:true"@),
                    },
                )
            } else {
                None
            }
        },
        None => if find_seq(t, "workspace_rule"@) is Some {
            match (field(t, "workspace"@), field(t, "monitor"@)) {
                (Some(ws), Some(m)) => Some(
                    WorkspaceRuleView {
                        workspace: ws,
                        monitor: m,
                        default: field(t, "default"@) == Some("true"@),
                    },
                ),
                _ => None,
            }
        } else {
            None
        },
    }
}

/// The rules of a sequence of lines, in order.
pub open spec fn workspace_rules(ls: Seq<Seq<char>>) -> Seq<WorkspaceRuleView>
    decreases ls.len(),
{
    if ls.len() == 0 {
        seq![]
    } else {
        let r = workspace_rules(ls.drop_last());
        match workspace_rule_of(ls.last()) {
            Some(w) => r.push(w),
            None => r,
        }
    }
}

/// The pieces of `v[lo..hi]` split at commas, trimmed, as ranges of `v`.
pub fn trimmed_pieces_in(v: &Vec<char>, lo: usize, hi: usize) -> (r: Vec<(usize, usize)>)
    requires
        lo <= hi <= v@.len(),
    ensures
        r@.len() == trimmed_pieces(v@.subrange(lo as int, hi as int)).len(),
        forall|k: int|
            0 <= k < r@.len() ==> {
                &&& lo <= (#[trigger] r@[k]).0 <= r@[k].1 <= hi
                &&& v@.subrange(r@[k].0 as int, r@[k].1 as int) == trimmed_pieces(
                    v@.subrange(lo as int, hi as int),
                )[k]
            },
{
    let parts = split_ranges(v, lo, hi, ',');
    let ghost sp = split_char(v@.subrange(lo as int, hi as int), ',');
    let mut r: Vec<(usize, usize)> = Vec::new();
    let mut k: usize = 0;
    while k < parts.len()
        invariant
            lo <= hi <= v@.len(),
            parts@.len() == sp.len(),
            sp == split_char(v@.subrange(lo as int, hi as int), ','),
            forall|j: int|
                0 <= j < parts@.len() ==> {
                    &&& lo <= (#[trigger] parts@[j]).0 <= parts@[j].1 <= hi
                    &&& v@.subrange(parts@[j].0 as int, parts@[j].1 as int) == sp[j]
                },
            k <= parts@.len(),
            r@.len() == k,
            forall|j: int|
                0 <= j < k ==> {
                    &&& lo <= (#[trigger] r@[j]).0 <= r@[j].1 <= hi
                    &&& v@.subrange(r@[j].0 as int, r@[j].1 as int) == trim(sp[j])
                },
        decreases parts@.len() - k,
    {
        let (a, b) = parts[k];
        let t = trim_range(v, a, b);
        r.push(t);
        k += 1;
    }
    r
}

/// The rule that `v[lo..hi]` declares, as `workspace_rule_of` states.
fn workspace_rule_in(v: &Vec<char>, lo: usize, hi: usize) -> (r: Option<WorkspaceRule>)
    requires
        lo <= hi <= v@.len(),
    ensures
        match r {
            Some(w) => workspace_rule_of(v@.subrange(lo as int, hi as int)) == Some(w@),
            None => workspace_rule_of(v@.subrange(lo as int, hi as int)) is None,
        },
{
    let (tl, th) = trim_range(v, lo, hi);
    let ghost t = v@.subrange(tl as int, th as int);
    proof {
        reveal_strlit("workspace");
        reveal_strlit("monitor:");
    }
    let mut rhs: Option<(usize, usize)> = None;
    if starts_with_at(v, tl, th, "workspace") {
        assert(t.skip(9) =~= v@.subrange(tl + 9, th as int));
        let y = skip_ws(v, tl + 9, th);
        if y < th && v[y] == '=' {
            assert(v@.subrange(y as int, th as int).drop_first() =~= v@.subrange(y + 1, th as int));
            rhs = Some(trim_range(v, y + 1, th));
        }
    }
    match rhs {
        Some((rl, rh)) => {
            assert(ws_rhs(t) == Some(v@.subrange(rl as int, rh as int)));
            let p = trimmed_pieces_in(v, rl, rh);
            let ghost tp = trimmed_pieces(v@.subrange(rl as int, rh as int));
            if p.len() >= 2 && starts_with_at(v, p[1].0, p[1].1, "monitor:") {
                let mut default = false;
                let mut k: usize = 0;
                while k < p.len()
                    invariant
                        k <= p@.len(),
                        p@.len() == tp.len(),
                        rl <= rh <= v@.len(),
                        forall|j: int|
                            0 <= j < p@.len() ==> {
                                &&& rl <= (#[trigger] p@[j]).0 <= p@[j].1 <= rh
                                &&& v@.subrange(p@[j].0 as int, p@[j].1 as int) == tp[j]
                            },
                        default == exists|j: int| 0 <= j < k && tp[j] == "default:true"@,
                    decreases p@.len() - k,
                {
                    if range_eq(v, p[k].0, p[k].1, "default:true") {
                        default = true;
                    }
                    k += 1;
                }
                assert(default == tp.contains("default:true"@));
                let (ml, mh) = p[1];
                assert(tp[1].skip(8) =~= v@.subrange(ml + 8, mh as int));
                Some(
                    WorkspaceRule {
                        workspace: string_of(v, p[0].0, p[0].1),
                        monitor: string_of(v, ml + 8, mh),
                        default,
                    },
                )
            } else {
                None
            }
        },
        None => {
            assert(ws_rhs(t) is None);
            let pat = chars_of("workspace_rule");
            if find_seq_in(v, tl, th, &pat, tl).is_some() {
                let ws = field_in(v, tl, th, "workspace");
                let mon = field_in(v, tl, th, "monitor");
                match (ws, mon) {
                    (Some((a, b)), Some((c, d))) => {
                        let dflt = match field_in(v, tl, th, "default") {
                            Some((e, f)) => range_eq(v, e, f, "true"),
                            None => false,
                        };
                        Some(
                            WorkspaceRule {
                                workspace: string_of(v, a, b),
                                monitor: string_of(v, c, d),
                                default: dflt,
                            },
                        )
                    },
                    _ => None,
                }
            } else {
                None
            }
        },
    }
}

pub fn parse_workspace_rules(text: &str) -> (r: Vec<WorkspaceRule>)
    ensures
        rules_view(r@) == workspace_rules(lines(text@)),
{
    let v = chars_of(text);
    let ls = line_ranges(&v);
    let ghost all = lines(v@);
    let mut out: Vec<WorkspaceRule> = Vec::new();
    let mut k: usize = 0;
    while k < ls.len()
        invariant
            v@ == text@,
            all == lines(v@),
            ls@.len() == all.len(),
            forall|j: int|
                0 <= j < ls@.len() ==> {
                    &&& (#[trigger] ls@[j]).0 <= ls@[j].1 <= v@.len()
                    &&& v@.subrange(ls@[j].0 as int, ls@[j].1 as int) == all[j]
                },
            k <= ls@.len(),
            rules_view(out@) == workspace_rules(all.take(k as int)),
        decreases ls@.len() - k,
    {
        let (a, b) = ls[k];
        let rule = workspace_rule_in(&v, a, b);
        let ghost before = out@;
        assert(all.take(k + 1).drop_last() =~= all.take(k as int));
        assert(all.take(k + 1).last() == all[k as int]);
        match rule {
            Some(w) => {
                out.push(w);
                assert(rules_view(out@) =~= rules_view(before).push(out@.last()@));
            },
            None => {},
        }
        k += 1;
    }
    assert(all.take(ls@.len() as int) =~= all);
    out
}


// ----------------------------------------------------------------------
// The conf dialect: `monitor = OUTPUT,MODE,POSITION,SCALE[,transform,T]`.
// ----------------------------------------------------------------------
/// Appends `o` when it holds a value.
pub open spec fn push_opt<A>(s: Seq<A>, o: Option<A>) -> Seq<A> {
    match o {
        Some(a) => s.push(a),
        None => s,
    }
}

/// Hyprland's keywords for "let the compositor pick the mode".
pub open spec fn is_mode_keyword(p: Seq<char>) -> bool {
    p == "preferred"@ || p == "highres"@ || p == "highrr"@
}

/// A disabled monitor with every other field at its default.
pub open spec fn disabled_monitor(output: Seq<char>) -> MonitorView {
    MonitorView {
        output,
        mode: None,
        scale: seq!['1'],
        position: None,
        transform: 0,
        enabled: false,
    }
}

/// The right-hand side of `monitor = ...`.
pub open spec fn conf_rhs(t: Seq<char>) -> Option<Seq<char>> {
    match strip_prefix(t, "monitor"@) {
        None => None,
        Some(x) => {
            let y = trim_start(x);
            if y.len() > 0 && y[0] == '=' {
                Some(trim(y.drop_first()))
            } else {
                None
            }
        },
    }
}

/// A conf position: an `auto...` keyword, or `XxY` with two `i32`s; the
/// outer `None` means the text is neither.
pub open spec fn conf_position(p: Seq<char>) -> Option<Option<(i32, i32)>> {
    if "auto"@.is_prefix_of(p) {
        Some(None)
    } else {
        match find_char(p, 'x') {
            None => None,
            Some(i) => match (parse_i32(p.take(i)), parse_i32(p.skip(i + 1))) {
                (Some(x), Some(y)) => Some(Some((x, y))),
                _ => None,
            },
        }
    }
}

/// A conf scale: `auto` (meaning 1) or an `f64` literal.
pub open spec fn conf_scale(p: Seq<char>) -> Option<Seq<char>> {
    if p == "auto"@ {
        Some(seq!['1'])
    } else if is_float_literal(p) {
        Some(p)
    } else {
        None
    }
}

/// What one line contributes: a monitor, a warning, both or neither.
pub open spec fn conf_line(line: Seq<char>) -> (Option<MonitorView>, Option<Seq<char>>) {
    let t = trim(line);
    match conf_rhs(t) {
        None => (None, None),
        Some(rhs) => {
            let p = trimmed_pieces(rhs);
            if p.len() >= 2 && p[1] == "disable"@ {
                (Some(disabled_monitor(p[0])), None)
            } else if p.len() < 4 {
                (None, Some("unparseable monitor line "@ + debug_text(t)))
            } else if !is_mode_keyword(p[1]) && mode_parse(p[1]) is None {
                (None, Some("unparseable monitor mode "@ + debug_text(p[1])))
            } else if conf_position(p[2]) is None {
                (None, Some("unparseable monitor position "@ + debug_text(p[2])))
            } else if conf_scale(p[3]) is None {
                (None, Some("unparseable monitor scale "@ + debug_text(p[3])))
            } else {
                let tr = if p.len() >= 6 && p[4] == "transform"@ {
                    parse_u8(p[5])
                } else {
                    Some(0u8)
                };
                let m = MonitorView {
                    output: p[0],
                    mode: if is_mode_keyword(p[1]) {
                        None
                    } else {
                        mode_parse(p[1])
                    },
                    scale: conf_scale(p[3]).unwrap(),
                    position: conf_position(p[2]).unwrap(),
                    transform: match tr {
                        Some(x) => x,
                        None => 0,
                    },
                    enabled: true,
                };
                (
                    Some(m),
                    if tr is None {
                        Some("unparseable transform "@ + debug_text(p[5]))
                    } else {
                        None
                    },
                )
            }
        },
    }
}

/// `parse_conf_monitors` over a sequence of lines.
pub open spec fn conf_monitors(ls: Seq<Seq<char>>) -> (Seq<MonitorView>, Seq<Seq<char>>)
    decreases ls.len(),
{
    if ls.len() == 0 {
        (seq![], seq![])
    } else {
        let (ms, ws) = conf_monitors(ls.drop_last());
        let (m, w) = conf_line(ls.last());
        (push_opt(ms, m), push_opt(ws, w))
    }
}

/// A `monitor = ...` line of the conf dialect.
pub open spec fn is_monitor_line(line: Seq<char>) -> bool {
    conf_rhs(trim(line)) is Some
}

/// The warning about a monitor's transform, given with the monitor itself.
pub open spec fn transform_warning(w: Seq<char>) -> bool {
    "unparseable transform "@.is_prefix_of(w)
}

/// What a conf line gives: nothing unless it is a `monitor =` line; a
/// `monitor =` line gives exactly one of a monitor (perhaps with a
/// transform warning) or a warning of another kind. The monitor's output
/// is the line's first comma field, and it is disabled exactly when the
/// second field is `disable`.
pub proof fn conf_line_outcome(line: Seq<char>)
    ensures
        !is_monitor_line(line) ==> conf_line(line) == (None::<MonitorView>, None::<Seq<char>>),
        is_monitor_line(line) ==> match conf_line(line) {
            (Some(_), w) => w matches Some(x) ==> transform_warning(x),
            (None, w) => w matches Some(x) && !transform_warning(x),
        },
        conf_line(line).0 matches Some(m) ==> {
            let p = trimmed_pieces(conf_rhs(trim(line)).unwrap());
            &&& m.output == p[0]
            &&& (!m.enabled <==> p[1] == "disable"@)
        },
{
    reveal_strlit("unparseable transform ");
    reveal_strlit("unparseable monitor line ");
    reveal_strlit("unparseable monitor mode ");
    reveal_strlit("unparseable monitor position ");
    reveal_strlit("unparseable monitor scale ");
    let t = trim(line);
    match conf_rhs(t) {
        None => {},
        Some(rhs) => {
            let p = trimmed_pieces(rhs);
            match conf_line(line).1 {
                Some(x) => {
                    if conf_line(line).0 is None {
                        assert(x[12] != "unparseable transform "@[12]);
                    }
                },
                None => {},
            }
        },
    }
}

/// The number of `monitor =` lines among `ls`.
pub open spec fn monitor_line_count(ls: Seq<Seq<char>>) -> int
    decreases ls.len(),
{
    if ls.len() == 0 {
        0
    } else {
        monitor_line_count(ls.drop_last()) + if is_monitor_line(ls.last()) {
            1int
        } else {
            0
        }
    }
}

/// The number of warnings that are not transform warnings.
pub open spec fn line_warning_count(ws: Seq<Seq<char>>) -> int
    decreases ws.len(),
{
    if ws.len() == 0 {
        0
    } else {
        line_warning_count(ws.drop_last()) + if transform_warning(ws.last()) {
            0
        } else {
            1int
        }
    }
}

/// Each `monitor =` line is accounted for once: the monitors read plus
/// the warnings other than transform warnings number the `monitor =`
/// lines.
pub proof fn conf_lines_accounted(ls: Seq<Seq<char>>)
    ensures
        conf_monitors(ls).0.len() + line_warning_count(conf_monitors(ls).1) == monitor_line_count(
            ls,
        ),
    decreases ls.len(),
{
    if ls.len() > 0 {
        conf_lines_accounted(ls.drop_last());
        conf_line_outcome(ls.last());
        let ws = conf_monitors(ls.drop_last()).1;
        match conf_line(ls.last()).1 {
            Some(w) => {
                assert(ws.push(w).drop_last() =~= ws);
            },
            None => {},
        }
    }
}

/// The decimal text of an `i32` parses back to it and holds only a sign
/// and digits.
proof fn lemma_i32_text(x: i32)
    ensures
        parse_i32(crate::num::int_text(x as int)) == Some(x),
        crate::num::int_text(x as int).len() > 0,
        forall|k: int|
            0 <= k < crate::num::int_text(x as int).len() ==> #[trigger] crate::num::int_text(
                x as int,
            )[k] != 'x' && crate::num::int_text(x as int)[k] != 'a',
{
    crate::num::lemma_int_text_digits(x as int);
    if x < 0 {
        let m = (-x) as nat;
        crate::num::lemma_nat_text(m);
        let t = crate::num::int_text(x as int);
        assert(t.drop_first() =~= crate::num::nat_text(m));
    } else {
        crate::num::lemma_nat_text(x as nat);
        assert(crate::num::is_digit(crate::num::nat_text(x as nat)[0]));
    }
}

/// A conf position written `XxY` in decimal reads as the point `(X, Y)`:
/// the number before the `x` is the horizontal coordinate, the one after
/// it the vertical. So an enabled monitor read from a `monitor =` line
/// whose third field is `XxY` is placed at `(X, Y)`.
pub proof fn conf_position_reads_x_then_y(line: Seq<char>, x: i32, y: i32)
    ensures
        conf_position(crate::num::int_text(x as int) + seq!['x'] + crate::num::int_text(y as int))
            == Some(Some((x, y))),
        conf_line(line).0 matches Some(m) ==> (m.enabled && trimmed_pieces(
            conf_rhs(trim(line)).unwrap(),
        )[2] == crate::num::int_text(x as int) + seq!['x'] + crate::num::int_text(y as int)
            ==> m.position == Some((x, y))),
{
    let a = crate::num::int_text(x as int);
    let b = crate::num::int_text(y as int);
    let p = a + seq!['x'] + b;
    lemma_i32_text(x);
    lemma_i32_text(y);
    reveal_strlit("auto");
    assert(!"auto"@.is_prefix_of(p)) by {
        assert(p[0] == a[0]);
        assert(a[0] != 'a');
        assert("auto"@[0] == 'a');
    }
    assert forall|k: int| 0 <= k < a.len() implies p[k] != 'x' by {
        assert(p[k] == a[k]);
    }
    crate::text::lemma_find_first(p, 'x', 0, a.len() as int);
    assert(p.take(a.len() as int) =~= a);
    assert(p.skip(a.len() as int + 1) =~= b);
}

/// `prefix` followed by the `Debug` form of `v[a..b]`.
pub fn warning_with(prefix: &str, v: &Vec<char>, a: usize, b: usize) -> (w: String)
    requires
        a <= b <= v@.len(),
    ensures
        w@ == prefix@ + debug_text(v@.subrange(a as int, b as int)),
{
    let mut w = String::from_str(prefix);
    let t = string_of(v, a, b);
    let d = debug_quoted(t.as_str());
    push_str(&mut w, d.as_str());
    w
}

/// The number `Number { literal: v[a..b] }`.
pub fn number_of(v: &Vec<char>, a: usize, b: usize) -> (n: Number)
    requires
        a <= b <= v@.len(),
    ensures
        n@ == v@.subrange(a as int, b as int),
{
    Number { literal: string_of(v, a, b) }
}

fn is_mode_keyword_in(v: &Vec<char>, a: usize, b: usize) -> (r: bool)
    requires
        a <= b <= v@.len(),
    ensures
        r == is_mode_keyword(v@.subrange(a as int, b as int)),
{
    range_eq(v, a, b, "preferred") || range_eq(v, a, b, "highres") || range_eq(v, a, b, "highrr")
}

/// `conf_position` on `v[a..b]`.
fn conf_position_in(v: &Vec<char>, a: usize, b: usize) -> (r: Option<Option<(i32, i32)>>)
    requires
        a <= b <= v@.len(),
    ensures
        r == conf_position(v@.subrange(a as int, b as int)),
{
    let ghost p = v@.subrange(a as int, b as int);
    if starts_with_at(v, a, b, "auto") {
        return Some(None);
    }
    match find_char_exec(v, a, b, 'x') {
        None => None,
        Some(i) => {
            assert(p.take(i - a) =~= v@.subrange(a as int, i as int));
            assert(p.skip(i - a + 1) =~= v@.subrange(i + 1, b as int));
            match (parse_i32_exec(v, a, i), parse_i32_exec(v, i + 1, b)) {
                (Some(x), Some(y)) => Some(Some((x, y))),
                _ => None,
            }
        },
    }
}

/// `conf_scale` on `v[a..b]`.
fn conf_scale_in(v: &Vec<char>, a: usize, b: usize) -> (r: Option<Number>)
    requires
        a <= b <= v@.len(),
    ensures
        match r {
            Some(n) => conf_scale(v@.subrange(a as int, b as int)) == Some(n@),
            None => conf_scale(v@.subrange(a as int, b as int)) is None,
        },
{
    if range_eq(v, a, b, "auto") {
        Some(Number::one())
    } else if is_float_literal_exec(v, a, b) {
        Some(number_of(v, a, b))
    } else {
        None
    }
}

/// The monitor `output` disabled.
fn disabled_in(v: &Vec<char>, a: usize, b: usize) -> (m: Monitor)
    requires
        a <= b <= v@.len(),
    ensures
        m@ == disabled_monitor(v@.subrange(a as int, b as int)),
{
    Monitor {
        output: string_of(v, a, b),
        mode: None,
        scale: Number::one(),
        position: None,
        transform: 0,
        enabled: false,
    }
}

/// `conf_line` on `v[lo..hi]`.
fn conf_line_in(v: &Vec<char>, lo: usize, hi: usize) -> (r: (Option<Monitor>, Option<String>))
    requires
        lo <= hi <= v@.len(),
    ensures
        conf_line(v@.subrange(lo as int, hi as int)) == (
            match r.0 {
                Some(m) => Some(m@),
                None => None,
            },
            match r.1 {
                Some(w) => Some(w@),
                None => None,
            },
        ),
{
    let (tl, th) = trim_range(v, lo, hi);
    let ghost t = v@.subrange(tl as int, th as int);
    proof {
        reveal_strlit("monitor");
    }
    if !starts_with_at(v, tl, th, "monitor") {
        return (None, None);
    }
    assert(t.skip(7) =~= v@.subrange(tl + 7, th as int));
    let y = skip_ws(v, tl + 7, th);
    if !(y < th && v[y] == '=') {
        return (None, None);
    }
    assert(v@.subrange(y as int, th as int).drop_first() =~= v@.subrange(y + 1, th as int));
    let (rl, rh) = trim_range(v, y + 1, th);
    assert(conf_rhs(t) == Some(v@.subrange(rl as int, rh as int)));
    let p = trimmed_pieces_in(v, rl, rh);
    let ghost tp = trimmed_pieces(v@.subrange(rl as int, rh as int));
    if p.len() >= 2 && range_eq(v, p[1].0, p[1].1, "disable") {
        return (Some(disabled_in(v, p[0].0, p[0].1)), None);
    }
    if p.len() < 4 {
        return (None, Some(warning_with("unparseable monitor line ", v, tl, th)));
    }
    let kw = is_mode_keyword_in(v, p[1].0, p[1].1);
    let mode: Option<Mode> = if kw {
        None
    } else {
        match parse_mode_in(v, p[1].0, p[1].1) {
            Some(m) => Some(m),
            None => {
                return (None, Some(warning_with("unparseable monitor mode ", v, p[1].0, p[1].1)));
            },
        }
    };
    let position = match conf_position_in(v, p[2].0, p[2].1) {
        Some(x) => x,
        None => {
            return (None, Some(warning_with("unparseable monitor position ", v, p[2].0, p[2].1)));
        },
    };
    let scale = match conf_scale_in(v, p[3].0, p[3].1) {
        Some(x) => x,
        None => {
            return (None, Some(warning_with("unparseable monitor scale ", v, p[3].0, p[3].1)));
        },
    };
    let mut transform: u8 = 0;
    let mut warning: Option<String> = None;
    if p.len() >= 6 && range_eq(v, p[4].0, p[4].1, "transform") {
        match parse_u8_exec(v, p[5].0, p[5].1) {
            Some(x) => {
                transform = x;
            },
            None => {
                warning = Some(warning_with("unparseable transform ", v, p[5].0, p[5].1));
            },
        }
    }
    let m = Monitor {
        output: string_of(v, p[0].0, p[0].1),
        mode,
        scale,
        position,
        transform,
        enabled: true,
    };
    (Some(m), warning)
}

pub fn parse_conf_monitors(text: &str) -> (r: (Vec<Monitor>, Vec<String>))
    ensures
        (monitors_view(r.0@), strings_view(r.1@)) == conf_monitors(lines(text@)),
{
    let v = chars_of(text);
    let ls = line_ranges(&v);
    let ghost all = lines(v@);
    let mut ms: Vec<Monitor> = Vec::new();
    let mut ws: Vec<String> = Vec::new();
    let mut k: usize = 0;
    while k < ls.len()
        invariant
            v@ == text@,
            all == lines(v@),
            ls@.len() == all.len(),
            forall|j: int|
                0 <= j < ls@.len() ==> {
                    &&& (#[trigger] ls@[j]).0 <= ls@[j].1 <= v@.len()
                    &&& v@.subrange(ls@[j].0 as int, ls@[j].1 as int) == all[j]
                },
            k <= ls@.len(),
            (monitors_view(ms@), strings_view(ws@)) == conf_monitors(all.take(k as int)),
        decreases ls@.len() - k,
    {
        let (a, b) = ls[k];
        let (m, w) = conf_line_in(&v, a, b);
        let ghost m0 = ms@;
        let ghost w0 = ws@;
        assert(all.take(k + 1).drop_last() =~= all.take(k as int));
        assert(all.take(k + 1).last() == all[k as int]);
        match m {
            Some(m) => {
                ms.push(m);
                assert(monitors_view(ms@) =~= monitors_view(m0).push(ms@.last()@));
            },
            None => {},
        }
        match w {
            Some(w) => {
                ws.push(w);
                assert(strings_view(ws@) =~= strings_view(w0).push(ws@.last()@));
            },
            None => {},
        }
        k += 1;
    }
    assert(all.take(ls@.len() as int) =~= all);
    (ms, ws)
}


// ----------------------------------------------------------------------
// The Lua dialect with explicit calls: `hl.monitor({ output = .., ... })`.
// ----------------------------------------------------------------------
/// Puts `o` in front when it holds a value.
pub open spec fn prepend_opt<A>(o: Option<A>, s: Seq<A>) -> Seq<A> {
    match o {
        Some(a) => seq![a] + s,
        None => s,
    }
}

/// An `hl.monitor` mode: absent or a keyword (compositor's choice), or a
/// parseable mode; the outer `None` means unparseable.
pub open spec fn hl_mode(raw: Option<Seq<char>>) -> Option<Option<ModeView>> {
    match raw {
        None => Some(None),
        Some(r) => if is_mode_keyword(r) {
            Some(None)
        } else {
            match mode_parse(r) {
                Some(m) => Some(Some(m)),
                None => None,
            }
        },
    }
}

/// An `hl.monitor` position: absent or `auto...`, or `X x Y` with two
/// `i32`s (each side trimmed); the outer `None` means unparseable.
pub open spec fn hl_position(raw: Option<Seq<char>>) -> Option<Option<(i32, i32)>> {
    match raw {
        None => Some(None),
        Some(r) => if "auto"@.is_prefix_of(r) {
            Some(None)
        } else {
            match find_char(r, 'x') {
                Some(i) => match (parse_i32(trim(r.take(i))), parse_i32(trim(r.skip(i + 1)))) {
                    (Some(x), Some(y)) => Some(Some((x, y))),
                    _ => None,
                },
                None => None,
            }
        },
    }
}

/// An `hl.monitor` scale: absent or `auto` (meaning 1), or an `f64` literal.
pub open spec fn hl_scale(raw: Option<Seq<char>>) -> Option<Seq<char>> {
    match raw {
        None => Some(seq!['1']),
        Some(r) => if r == "auto"@ {
            Some(seq!['1'])
        } else if is_float_literal(r) {
            Some(r)
        } else {
            None
        },
    }
}

/// A transform field: a `u8`, else 0.
pub open spec fn transform_field(raw: Option<Seq<char>>) -> u8 {
    match raw {
        Some(x) => match parse_u8(x) {
            Some(t) => t,
            None => 0,
        },
        None => 0,
    }
}

/// What the body of one `hl.monitor({ .. })` call contributes.
pub open spec fn hl_group(g: Seq<char>) -> (Option<MonitorView>, Option<Seq<char>>) {
    match field(g, "output"@) {
        None => (None, Some("hl.monitor without an output"@)),
        Some(o) => if field(g, "disable"@) == Some("true"@) {
            (Some(disabled_monitor(o)), None)
        } else if hl_mode(field(g, "mode"@)) is None {
            (None, Some("unparseable hl.monitor mode "@ + debug_text(field(g, "mode"@).unwrap())))
        } else if hl_position(field(g, "position"@)) is None {
            (
                None,
                Some(
                    "unparseable hl.monitor position "@ + debug_text(
                        field(g, "position"@).unwrap(),
                    ),
                ),
            )
        } else if hl_scale(field(g, "scale"@)) is None {
            (None, Some("unparseable hl.monitor scale "@ + debug_text(field(g, "scale"@).unwrap())))
        } else {
            (
                Some(
                    MonitorView {
                        output: o,
                        mode: hl_mode(field(g, "mode"@)).unwrap(),
                        scale: hl_scale(field(g, "scale"@)).unwrap(),
                        position: hl_position(field(g, "position"@)).unwrap(),
                        transform: transform_field(field(g, "transform"@)),
                        enabled: true,
                    },
                ),
                None,
            )
        },
    }
}

/// What `find_char` finds is a `c`; when it finds none, there is none.
pub proof fn lemma_find_char(s: Seq<char>, c: char)
    ensures
        find_char(s, c) matches Some(k) ==> 0 <= k < s.len() && s[k] == c,
        find_char(s, c) is None ==> forall|j: int| 0 <= j < s.len() ==> s[j] != c,
{
    crate::text::lemma_find_char_from(s, c, 0);
}

/// `parse_hl_monitor` on the text from `rest` on: each `hl.monitor(`, then
/// the first `{` after it and the first `}` after that delimit a body.
pub open spec fn hl_scan(rest: Seq<char>) -> (Seq<MonitorView>, Seq<Seq<char>>)
    decreases rest.len(),
{
    match find_seq(rest, "hl.monitor("@) {
        None => (seq![], seq![]),
        Some(start) => {
            let tail = rest.skip(start + "hl.monitor("@.len());
            proof {
                reveal_strlit("hl.monitor(");
                lemma_find_seq_from(rest, "hl.monitor("@, 0);
            }
            match find_char(tail, '{') {
                None => hl_scan(tail),
                Some(open) => match find_char(tail.skip(open), '}') {
                    None => hl_scan(tail),
                    Some(close) => {
                        proof {
                            lemma_find_char(tail, '{');
                            lemma_find_char(tail.skip(open), '}');
                        }
                        let (m, w) = hl_group(tail.subrange(open + 1, open + close));
                        let (ms, ws) = hl_scan(tail.skip(open + close));
                        (prepend_opt(m, ms), prepend_opt(w, ws))
                    },
                },
            }
        },
    }
}

/// `hl_mode` of the `mode` field of `v[lo..hi]`.
fn hl_mode_in(v: &Vec<char>, lo: usize, hi: usize) -> (r: Result<Option<Mode>, String>)
    requires
        lo <= hi <= v@.len(),
    ensures
        ({
            let g = v@.subrange(lo as int, hi as int);
            match r {
                Ok(m) => hl_mode(field(g, "mode"@)) == Some(mode_opt_view(m)),
                Err(w) => hl_mode(field(g, "mode"@)) is None && w@ == "unparseable hl.monitor mode "@
                    + debug_text(field(g, "mode"@).unwrap()),
            }
        }),
{
    match field_in(v, lo, hi, "mode") {
        None => Ok(None),
        Some((a, b)) => {
            if is_mode_keyword_in(v, a, b) {
                Ok(None)
            } else {
                match parse_mode_in(v, a, b) {
                    Some(m) => Ok(Some(m)),
                    None => Err(warning_with("unparseable hl.monitor mode ", v, a, b)),
                }
            }
        },
    }
}

/// `hl_position` of the `position` field of `v[lo..hi]`.
fn hl_position_in(v: &Vec<char>, lo: usize, hi: usize) -> (r: Result<Option<(i32, i32)>, String>)
    requires
        lo <= hi <= v@.len(),
    ensures
        ({
            let g = v@.subrange(lo as int, hi as int);
            match r {
                Ok(p) => hl_position(field(g, "position"@)) == Some(p),
                Err(w) => hl_position(field(g, "position"@)) is None && w@
                    == "unparseable hl.monitor position "@ + debug_text(
                    field(g, "position"@).unwrap(),
                ),
            }
        }),
{
    match field_in(v, lo, hi, "position") {
        None => Ok(None),
        Some((a, b)) => {
            let ghost raw = v@.subrange(a as int, b as int);
            if starts_with_at(v, a, b, "auto") {
                return Ok(None);
            }
            match find_char_exec(v, a, b, 'x') {
                Some(i) => {
                    assert(raw.take(i - a) =~= v@.subrange(a as int, i as int));
                    assert(raw.skip(i - a + 1) =~= v@.subrange(i + 1, b as int));
                    let (xl, xh) = trim_range(v, a, i);
                    let (yl, yh) = trim_range(v, i + 1, b);
                    match (parse_i32_exec(v, xl, xh), parse_i32_exec(v, yl, yh)) {
                        (Some(x), Some(y)) => Ok(Some((x, y))),
                        _ => Err(warning_with("unparseable hl.monitor position ", v, a, b)),
                    }
                },
                None => Err(warning_with("unparseable hl.monitor position ", v, a, b)),
            }
        },
    }
}

/// `hl_scale` of the `scale` field of `v[lo..hi]`.
fn hl_scale_in(v: &Vec<char>, lo: usize, hi: usize) -> (r: Result<Number, String>)
    requires
        lo <= hi <= v@.len(),
    ensures
        ({
            let g = v@.subrange(lo as int, hi as int);
            match r {
                Ok(n) => hl_scale(field(g, "scale"@)) == Some(n@),
                Err(w) => hl_scale(field(g, "scale"@)) is None && w@
                    == "unparseable hl.monitor scale "@ + debug_text(field(g, "scale"@).unwrap()),
            }
        }),
{
    match field_in(v, lo, hi, "scale") {
        None => Ok(Number::one()),
        Some((a, b)) => {
            if range_eq(v, a, b, "auto") {
                Ok(Number::one())
            } else if is_float_literal_exec(v, a, b) {
                Ok(number_of(v, a, b))
            } else {
                Err(warning_with("unparseable hl.monitor scale ", v, a, b))
            }
        },
    }
}

/// `transform_field` of the `transform` field of `v[lo..hi]`.
fn transform_in(v: &Vec<char>, lo: usize, hi: usize) -> (t: u8)
    requires
        lo <= hi <= v@.len(),
    ensures
        t == transform_field(field(v@.subrange(lo as int, hi as int), "transform"@)),
{
    match field_in(v, lo, hi, "transform") {
        Some((a, b)) => match parse_u8_exec(v, a, b) {
            Some(t) => t,
            None => 0,
        },
        None => 0,
    }
}

/// `hl_group` on `v[lo..hi]`.
fn hl_group_in(v: &Vec<char>, lo: usize, hi: usize) -> (r: (Option<Monitor>, Option<String>))
    requires
        lo <= hi <= v@.len(),
    ensures
        hl_group(v@.subrange(lo as int, hi as int)) == (
            match r.0 {
                Some(m) => Some(m@),
                None => None,
            },
            match r.1 {
                Some(w) => Some(w@),
                None => None,
            },
        ),
{
    let (oa, ob) = match field_in(v, lo, hi, "output") {
        Some(x) => x,
        None => {
            return (None, Some(String::from_str("hl.monitor without an output")));
        },
    };
    let disabled = match field_in(v, lo, hi, "disable") {
        Some((a, b)) => range_eq(v, a, b, "true"),
        None => false,
    };
    if disabled {
        return (Some(disabled_in(v, oa, ob)), None);
    }
    let mode = match hl_mode_in(v, lo, hi) {
        Ok(m) => m,
        Err(w) => {
            return (None, Some(w));
        },
    };
    let position = match hl_position_in(v, lo, hi) {
        Ok(p) => p,
        Err(w) => {
            return (None, Some(w));
        },
    };
    let scale = match hl_scale_in(v, lo, hi) {
        Ok(s) => s,
        Err(w) => {
            return (None, Some(w));
        },
    };
    let transform = transform_in(v, lo, hi);
    let m = Monitor { output: string_of(v, oa, ob), mode, scale, position, transform, enabled: true };
    (Some(m), None)
}

/// Every `hl.monitor({ .. })` call, in order: the monitors it describes and
/// a warning for each call that cannot be read.
#[verifier::spinoff_prover]
#[verifier::rlimit(40)]
pub fn parse_hl_monitor(text: &str) -> (r: (Vec<Monitor>, Vec<String>))
    ensures
        (monitors_view(r.0@), strings_view(r.1@)) == hl_scan(text@),
{
    let v = chars_of(text);
    let n = v.len();
    let pat = chars_of("hl.monitor(");
    proof {
        reveal_strlit("hl.monitor(");
    }
    let mut ms: Vec<Monitor> = Vec::new();
    let mut ws: Vec<String> = Vec::new();
    let mut rest: usize = 0;
    assert(v@.subrange(0, n as int) =~= text@);
    loop
        invariant
            v@ == text@,
            n == v@.len(),
            pat@ == "hl.monitor("@,
            pat@.len() == 11,
            rest <= n,
            hl_scan(text@) == (
                monitors_view(ms@) + hl_scan(v@.subrange(rest as int, n as int)).0,
                strings_view(ws@) + hl_scan(v@.subrange(rest as int, n as int)).1,
            ),
        decreases n - rest,
    {
        let ghost r = v@.subrange(rest as int, n as int);
        let start = match find_seq_in(&v, rest, n, &pat, rest) {
            Some(s) => s,
            None => {
                assert(monitors_view(ms@) + Seq::<MonitorView>::empty() =~= monitors_view(ms@));
                assert(strings_view(ws@) + Seq::<Seq<char>>::empty() =~= strings_view(ws@));
                return (ms, ws);
            },
        };
        proof {
            lemma_find_seq_from(r, pat@, 0);
        }
        let t0 = start + 11;
        let ghost tail = v@.subrange(t0 as int, n as int);
        assert(r.skip(start - rest + 11) =~= tail);
        let open = match find_char_exec(&v, t0, n, '{') {
            Some(o) => o,
            None => {
                rest = t0;
                continue ;
            },
        };
        let close = match find_char_exec(&v, open, n, '}') {
            Some(c) => c,
            None => {
                assert(tail.skip(open - t0) =~= v@.subrange(open as int, n as int));
                rest = t0;
                continue ;
            },
        };
        assert(tail.skip(open - t0) =~= v@.subrange(open as int, n as int));
        proof {
            lemma_find_char(v@.subrange(open as int, n as int), '}');
            lemma_find_char(tail, '{');
        }
        assert(close > open);
        assert(tail.subrange(open - t0 + 1, close - t0) =~= v@.subrange(open + 1, close as int));
        assert(tail.skip(close - t0) =~= v@.subrange(close as int, n as int));
        let (m, w) = hl_group_in(&v, open + 1, close);
        let ghost m0 = ms@;
        let ghost w0 = ws@;
        let ghost later = hl_scan(v@.subrange(close as int, n as int));
        match m {
            Some(m) => {
                ms.push(m);
                assert(monitors_view(ms@) =~= monitors_view(m0).push(ms@.last()@));
                assert(monitors_view(m0) + prepend_opt(Some(ms@.last()@), later.0) =~= monitors_view(ms@)
                    + later.0);
            },
            None => {},
        }
        match w {
            Some(w) => {
                ws.push(w);
                assert(strings_view(ws@) =~= strings_view(w0).push(ws@.last()@));
                assert(strings_view(w0) + prepend_opt(Some(ws@.last()@), later.1) =~= strings_view(ws@)
                    + later.1);
            },
            None => {},
        }
        rest = close;
    }
}


// ----------------------------------------------------------------------
// The Lua row dialect: `mon.row({ { output = .., w = .., h = .., hz = ..,
// scale = .. }, ... })`.
// ----------------------------------------------------------------------
/// The monitor one innermost `{ .. }` group of a row describes, if it has
/// every field.
pub open spec fn row_entry(g: Seq<char>) -> Option<MonitorView> {
    match (field(g, "output"@), field(g, "w"@), field(g, "h"@), field(g, "hz"@), field(g, "scale"@)) {
        (Some(o), Some(w), Some(h), Some(hz), Some(sc)) => match (parse_u32(w), parse_u32(h)) {
            (Some(wv), Some(hv)) => if is_float_literal(hz) && is_float_literal(sc) {
                Some(
                    MonitorView {
                        output: o,
                        mode: Some(ModeView { width: wv, height: hv, refresh: hz }),
                        scale: sc,
                        position: None,
                        transform: transform_field(field(g, "transform"@)),
                        enabled: true,
                    },
                )
            } else {
                None
            },
            _ => None,
        },
        _ => None,
    }
}

/// The scan of a row's text after `k` characters: the open braces still
/// unmatched (each as the index after it) and the monitors found so far.
pub open spec fn row_state(tail: Seq<char>, k: int) -> (Seq<int>, Seq<MonitorView>)
    decreases k,
{
    if k <= 0 {
        (seq![], seq![])
    } else {
        let (st, out) = row_state(tail, k - 1);
        let i = k - 1;
        let c = tail[i];
        if c == '{' {
            (st.push(i + 1), out)
        } else if c == '}' && st.len() > 0 {
            let g = tail.subrange(st.last(), i);
            if find_char(g, '{') is Some {
                (st.drop_last(), out)
            } else {
                (st.drop_last(), push_opt(out, row_entry(g)))
            }
        } else {
            (st, out)
        }
    }
}

/// `parse_mon_row`: the monitors of the brace groups after `mon.row(`.
pub open spec fn mon_row(text: Seq<char>) -> Seq<MonitorView> {
    match find_seq(text, "mon.row("@) {
        None => seq![],
        Some(start) => {
            let tail = text.skip(start + "mon.row("@.len());
            row_state(tail, tail.len() as int).1
        },
    }
}

/// Every monitor a `mon.row` body gives has a mode, no explicit position,
/// and is enabled: a row is placed left to right from its modes.
pub proof fn mon_row_monitors_are_row_placed(text: Seq<char>)
    ensures
        forall|i: int|
            0 <= i < mon_row(text).len() ==> {
                &&& (#[trigger] mon_row(text)[i]).mode is Some
                &&& mon_row(text)[i].position is None
                &&& mon_row(text)[i].enabled
            },
{
    match find_seq(text, "mon.row("@) {
        None => {},
        Some(start) => {
            let tail = text.skip(start + "mon.row("@.len());
            lemma_row_state_entries(tail, tail.len() as int);
        },
    }
}

proof fn lemma_row_state_entries(tail: Seq<char>, k: int)
    ensures
        forall|i: int|
            0 <= i < row_state(tail, k).1.len() ==> {
                &&& (#[trigger] row_state(tail, k).1[i]).mode is Some
                &&& row_state(tail, k).1[i].position is None
                &&& row_state(tail, k).1[i].enabled
            },
    decreases k,
{
    if k > 0 {
        lemma_row_state_entries(tail, k - 1);
    }
}

/// `row_entry` on `v[lo..hi]`.
fn row_entry_in(v: &Vec<char>, lo: usize, hi: usize) -> (r: Option<Monitor>)
    requires
        lo <= hi <= v@.len(),
    ensures
        match r {
            Some(m) => row_entry(v@.subrange(lo as int, hi as int)) == Some(m@),
            None => row_entry(v@.subrange(lo as int, hi as int)) is None,
        },
{
    let o = field_in(v, lo, hi, "output");
    let w = field_in(v, lo, hi, "w");
    let h = field_in(v, lo, hi, "h");
    let hz = field_in(v, lo, hi, "hz");
    let sc = field_in(v, lo, hi, "scale");
    match (o, w, h, hz, sc) {
        (Some((oa, ob)), Some((wa, wb)), Some((ha, hb)), Some((za, zb)), Some((sa, sb))) => {
            match (parse_u32_exec(v, wa, wb), parse_u32_exec(v, ha, hb)) {
                (Some(wv), Some(hv)) => {
                    if is_float_literal_exec(v, za, zb) && is_float_literal_exec(v, sa, sb) {
                        let transform = transform_in(v, lo, hi);
                        Some(
                            Monitor {
                                output: string_of(v, oa, ob),
                                mode: Some(
                                    Mode { width: wv, height: hv, refresh: number_of(v, za, zb) },
                                ),
                                scale: number_of(v, sa, sb),
                                position: None,
                                transform,
                                enabled: true,
                            },
                        )
                    } else {
                        None
                    }
                },
                _ => None,
            }
        },
        _ => None,
    }
}

pub open spec fn usizes_view(s: Seq<usize>) -> Seq<int> {
    s.map_values(|x: usize| x as int)
}

/// The monitors of a `mon.row(...)` call, in order, with no explicit
/// positions; the second part is always empty.
pub fn parse_mon_row(text: &str) -> (r: (Vec<Monitor>, Vec<String>))
    ensures
        monitors_view(r.0@) == mon_row(text@),
        r.1@.len() == 0,
{
    let v = chars_of(text);
    let n = v.len();
    let pat = chars_of("mon.row(");
    proof {
        reveal_strlit("mon.row(");
    }
    assert(v@.subrange(0, n as int) =~= text@);
    let start = match find_seq_in(&v, 0, n, &pat, 0) {
        Some(s) => s,
        None => {
            return (Vec::new(), Vec::new());
        },
    };
    proof {
        lemma_find_seq_from(v@, pat@, 0);
    }
    let t0 = start + 8;
    let ghost tail = v@.subrange(t0 as int, n as int);
    assert(text@.skip(start + "mon.row("@.len()) =~= tail);
    let mut stack: Vec<usize> = Vec::new();
    let mut out: Vec<Monitor> = Vec::new();
    let mut k: usize = 0;
    while k < n - t0
        invariant
            t0 <= n == v@.len(),
            tail == v@.subrange(t0 as int, n as int),
            k <= n - t0,
            (usizes_view(stack@), monitors_view(out@)) == row_state(tail, k as int),
            forall|j: int| 0 <= j < stack@.len() ==> #[trigger] stack@[j] <= k,
        decreases n - t0 - k,
    {
        let c = v[t0 + k];
        assert(tail[k as int] == c);
        let ghost st0 = stack@;
        let ghost out0 = out@;
        if c == '{' {
            stack.push(k + 1);
            assert(usizes_view(stack@) =~= usizes_view(st0).push(k + 1));
        } else if c == '}' && stack.len() > 0 {
            let begin = stack.pop().unwrap();
            assert(usizes_view(stack@) =~= usizes_view(st0).drop_last());
            assert(begin == st0.last());
            let ghost g = tail.subrange(begin as int, k as int);
            assert(g =~= v@.subrange(t0 + begin, t0 + k));
            if find_char_exec(&v, t0 + begin, t0 + k, '{').is_none() {
                match row_entry_in(&v, t0 + begin, t0 + k) {
                    Some(m) => {
                        out.push(m);
                        assert(monitors_view(out@) =~= monitors_view(out0).push(out@.last()@));
                    },
                    None => {},
                }
            }
        }
        k += 1;
    }
    (out, Vec::new())
}


// ----------------------------------------------------------------------
// The whole file: a directive header, then a body in one of the dialects.
// ----------------------------------------------------------------------
/// The header read so far: the directives' values, the warnings, and
/// whether the header has ended (`done`) or failed (`error`).
#[verifier::ext_equal]
pub struct HeaderView {
    pub matches: Seq<Seq<char>>,
    pub hooks: Seq<Seq<char>>,
    pub edp: EdpPolicy,
    pub gpu: GpuPref,
    pub priority: Option<i64>,
    pub warnings: Seq<Seq<char>>,
    pub description: Seq<char>,
    pub done: bool,
    pub error: Option<Seq<char>>,
}

pub open spec fn header_start() -> HeaderView {
    HeaderView {
        matches: seq![],
        hooks: seq![],
        edp: EdpPolicy::Auto,
        gpu: GpuPref::Auto,
        priority: None,
        warnings: seq![],
        description: seq![],
        done: false,
        error: None,
    }
}

/// What one line does to the header: a `# Profile: `/`-- Profile: ` line
/// sets the description; a `#@`/`--@` line is a directive; blank lines and
/// comments are skipped; any other line ends the header.
pub open spec fn header_step(h: HeaderView, line: Seq<char>) -> HeaderView {
    if h.done || h.error is Some {
        h
    } else {
        let t = trim_start(line);
        let description = match strip_prefix(t, "# Profile: "@) {
            Some(x) => trim(x),
            None => match strip_prefix(t, "-- Profile: "@) {
                Some(x) => trim(x),
                None => h.description,
            },
        };
        let h1 = HeaderView { description, ..h };
        if "#@"@.is_prefix_of(t) || "--@"@.is_prefix_of(t) {
            match directive(t, false) {
                Some((k, v)) => if k == "match"@ {
                    HeaderView { matches: h1.matches.push(v), ..h1 }
                } else if k == "hook"@ {
                    HeaderView { hooks: h1.hooks.push(v), ..h1 }
                } else if k == "edp"@ {
                    match EdpPolicy::from_keyword(v) {
                        Some(e) => HeaderView { edp: e, ..h1 },
                        None => HeaderView { error: Some("invalid edp "@ + debug_text(v)), ..h1 },
                    }
                } else if k == "gpu"@ {
                    match GpuPref::from_keyword(v) {
                        Some(g) => HeaderView { gpu: g, ..h1 },
                        None => HeaderView { error: Some("invalid gpu "@ + debug_text(v)), ..h1 },
                    }
                } else if k == "priority"@ {
                    match parse_i64(v) {
                        Some(p) => HeaderView { priority: Some(p), ..h1 },
                        None => HeaderView {
                            error: Some("invalid priority "@ + debug_text(v)),
                            ..h1
                        },
                    }
                } else {
                    HeaderView {
                        warnings: h1.warnings.push("unknown directive "@ + debug_text(k)),
                        ..h1
                    }
                },
                None => HeaderView {
                    warnings: h1.warnings.push("malformed directive "@ + debug_text(t)),
                    ..h1
                },
            }
        } else if t.len() == 0 || "#"@.is_prefix_of(t) || "--"@.is_prefix_of(t) {
            h1
        } else {
            HeaderView { done: true, ..h1 }
        }
    }
}

/// The header after a sequence of lines.
pub open spec fn header_fold(ls: Seq<Seq<char>>) -> HeaderView
    decreases ls.len(),
{
    if ls.len() == 0 {
        header_start()
    } else {
        header_step(header_fold(ls.drop_last()), ls.last())
    }
}

/// The monitors of the body: the conf lines if there are any, else the
/// `mon.row` groups, else the `hl.monitor` calls, with their warnings.
pub open spec fn body_monitors(text: Seq<char>) -> (Seq<MonitorView>, Seq<Seq<char>>) {
    let conf = conf_monitors(lines(text));
    if conf.0.len() > 0 {
        conf
    } else if mon_row(text).len() > 0 {
        (mon_row(text), seq![])
    } else if hl_scan(text).0.len() > 0 {
        hl_scan(text)
    } else {
        (seq![], seq![])
    }
}

/// `to_profile`: the profile a legacy file describes and the warnings met,
/// or the error that makes it unreadable.
pub open spec fn legacy_profile(name: Seq<char>, text: Seq<char>) -> Result<
    (ProfileView, Seq<Seq<char>>),
    Seq<char>,
> {
    let h = header_fold(lines(text));
    match h.error {
        Some(e) => Err(e),
        None => if h.matches.len() == 0 {
            Err("profile has no `match` entries"@)
        } else {
            let (ms, bw) = body_monitors(text);
            let tail: Seq<Seq<char>> = if ms.len() == 0 {
                seq!["body has no recognisable monitor entries; convert by hand"@]
            } else {
                seq![]
            };
            Ok(
                (
                    ProfileView {
                        name,
                        description: h.description,
                        matches: h.matches,
                        edp: h.edp,
                        gpu: h.gpu,
                        hooks: h.hooks,
                        priority: match h.priority {
                            Some(p) => p,
                            None => h.matches.len() as i64,
                        },
                        monitors: ms,
                        workspaces: workspace_rules(lines(text)),
                    },
                    h.warnings + bw + tail,
                ),
            )
        },
    }
}

/// Once the header has ended or failed, later lines change nothing.
pub proof fn lemma_header_stops(ls: Seq<Seq<char>>, k: int)
    requires
        0 <= k <= ls.len(),
        header_fold(ls.take(k)).done || header_fold(ls.take(k)).error is Some,
    ensures
        header_fold(ls) == header_fold(ls.take(k)),
    decreases ls.len() - k,
{
    if k < ls.len() {
        assert(ls.take(k + 1).drop_last() =~= ls.take(k));
        lemma_header_stops(ls, k + 1);
    } else {
        assert(ls.take(k) =~= ls);
    }
}

/// The header after `ls`, starting from `h`.
pub open spec fn header_run(h: HeaderView, ls: Seq<Seq<char>>) -> HeaderView
    decreases ls.len(),
{
    if ls.len() == 0 {
        h
    } else {
        header_step(header_run(h, ls.drop_last()), ls.last())
    }
}

/// Reading a file's lines is running them from the start state.
pub proof fn lemma_header_run_start(ls: Seq<Seq<char>>)
    ensures
        header_fold(ls) == header_run(header_start(), ls),
    decreases ls.len(),
{
    if ls.len() > 0 {
        lemma_header_run_start(ls.drop_last());
    }
}

/// Reading `a` then `b` is reading `a + b`.
pub proof fn lemma_header_run_append(h: HeaderView, a: Seq<Seq<char>>, b: Seq<Seq<char>>)
    ensures
        header_run(h, a + b) == header_run(header_run(h, a), b),
    decreases b.len(),
{
    if b.len() == 0 {
        assert(a + b =~= a);
    } else {
        lemma_header_run_append(h, a, b.drop_last());
        assert((a + b).drop_last() =~= a + b.drop_last());
        assert((a + b).last() == b.last());
    }
}

/// An ended header reads nothing more.
pub proof fn lemma_header_run_done(h: HeaderView, ls: Seq<Seq<char>>)
    requires
        h.done,
    ensures
        header_run(h, ls) == h,
    decreases ls.len(),
{
    if ls.len() > 0 {
        lemma_header_run_done(h, ls.drop_last());
    }
}

/// A `#@`/`--@` line (after leading whitespace).
pub open spec fn is_directive_line(line: Seq<char>) -> bool {
    "#@"@.is_prefix_of(trim_start(line)) || "--@"@.is_prefix_of(trim_start(line))
}

/// A directive line that names a `match`.
pub open spec fn is_match_directive(line: Seq<char>) -> bool {
    &&& is_directive_line(line)
    &&& directive(trim_start(line), false) matches Some((k, _)) && k == "match"@
}

/// A directive line with an `edp`, `gpu` or `priority` value that does not
/// parse.
pub open spec fn is_bad_directive(line: Seq<char>) -> bool {
    &&& is_directive_line(line)
    &&& directive(trim_start(line), false) matches Some((k, v)) && ((k == "edp"@
        && EdpPolicy::from_keyword(v) is None) || (k == "gpu"@ && GpuPref::from_keyword(v) is None)
        || (k == "priority"@ && parse_i64(v) is None))
}

/// The header is still being read when line `k` comes.
pub open spec fn header_open_at(ls: Seq<Seq<char>>, k: int) -> bool {
    !header_fold(ls.take(k)).done && header_fold(ls.take(k)).error is None
}

pub open spec fn fails_at(ls: Seq<Seq<char>>, k: int) -> bool {
    header_open_at(ls, k) && is_bad_directive(ls[k])
}

pub open spec fn matches_at(ls: Seq<Seq<char>>, k: int) -> bool {
    header_open_at(ls, k) && is_match_directive(ls[k])
}

/// One line read while the header is open fails exactly on a bad directive
/// and adds a `match` exactly on a `match` directive.
#[verifier::spinoff_prover]
#[verifier::rlimit(30)]
proof fn lemma_open_step(h: HeaderView, line: Seq<char>)
    requires
        !h.done,
        h.error is None,
    ensures
        (header_step(h, line).error is Some) == is_bad_directive(line),
        (header_step(h, line).matches.len() > 0) == (h.matches.len() > 0 || is_match_directive(line)),
{
    reveal_strlit("match");
    reveal_strlit("hook");
    reveal_strlit("edp");
    reveal_strlit("gpu");
    reveal_strlit("priority");
    let t = trim_start(line);
    let hs = header_step(h, line);
    if is_directive_line(line) {
        assert("#@"@.is_prefix_of(t) || "--@"@.is_prefix_of(t));
        match directive(t, false) {
            Some((k, v)) => {
                if k == "match"@ {
                    assert(k.len() == 5);
                    assert(hs.error is None && hs.matches.len() > 0);
                    assert(!is_bad_directive(line));
                    assert(is_match_directive(line));
                } else if k == "hook"@ {
                    assert(k.len() == 4);
                    assert(hs.error is None && hs.matches == h.matches);
                    assert(!is_bad_directive(line));
                } else if k == "edp"@ {
                    assert(hs.matches == h.matches);
                    assert((hs.error is Some) == (EdpPolicy::from_keyword(v) is None));
                } else if k == "gpu"@ {
                    assert(k != "edp"@) by {
                        assert(k[0] != "edp"@[0]);
                    }
                    assert(hs.matches == h.matches);
                    assert((hs.error is Some) == (GpuPref::from_keyword(v) is None));
                } else if k == "priority"@ {
                    assert(k.len() == 8);
                    assert(hs.matches == h.matches);
                    assert((hs.error is Some) == (parse_i64(v) is None));
                } else {
                    assert(hs.error is None && hs.matches == h.matches);
                }
            },
            None => {
                assert(hs.error is None && hs.matches == h.matches);
            },
        }
    } else {
        assert(hs.error is None && hs.matches == h.matches);
    }
}

proof fn lemma_header_errors(ls: Seq<Seq<char>>, n: int)
    requires
        0 <= n <= ls.len(),
    ensures
        (header_fold(ls.take(n)).error is Some) == (exists|k: int| 0 <= k < n && #[trigger] fails_at(ls, k)),
        (header_fold(ls.take(n)).matches.len() > 0) == (exists|k: int|
            0 <= k < n && #[trigger] matches_at(ls, k)),
    decreases n,
{
    if n == 0 {
        assert(ls.take(0) =~= Seq::<Seq<char>>::empty());
    } else {
        lemma_header_errors(ls, n - 1);
        assert(ls.take(n).drop_last() =~= ls.take(n - 1));
        assert(ls.take(n).last() == ls[n - 1]);
        let h = header_fold(ls.take(n - 1));
        let h2 = header_fold(ls.take(n));
        assert(h2 == header_step(h, ls[n - 1]));
        if exists|k: int| 0 <= k < n - 1 && #[trigger] fails_at(ls, k) {
            let k = choose|k: int| 0 <= k < n - 1 && #[trigger] fails_at(ls, k);
            assert(0 <= k < n && fails_at(ls, k));
        }
        if exists|k: int| 0 <= k < n - 1 && #[trigger] matches_at(ls, k) {
            let k = choose|k: int| 0 <= k < n - 1 && #[trigger] matches_at(ls, k);
            assert(0 <= k < n && matches_at(ls, k));
        }
        if exists|k: int| 0 <= k < n && #[trigger] fails_at(ls, k) {
            let k = choose|k: int| 0 <= k < n && #[trigger] fails_at(ls, k);
            if k < n - 1 {
                assert(0 <= k < n - 1 && fails_at(ls, k));
            }
        }
        if exists|k: int| 0 <= k < n && #[trigger] matches_at(ls, k) {
            let k = choose|k: int| 0 <= k < n && #[trigger] matches_at(ls, k);
            if k < n - 1 {
                assert(0 <= k < n - 1 && matches_at(ls, k));
            }
        }
        if header_open_at(ls, n - 1) {
            lemma_open_step(h, ls[n - 1]);
        }
        assert(fails_at(ls, n - 1) == (header_open_at(ls, n - 1) && is_bad_directive(ls[n - 1])));
        assert(matches_at(ls, n - 1) == (header_open_at(ls, n - 1) && is_match_directive(
            ls[n - 1],
        )));
    }
}

/// `to_profile` fails exactly when a header directive for `edp`, `gpu` or
/// `priority` has a value that does not parse, or the header holds no
/// `match` directive; a profile it gives is named as asked and has the
/// header's `match` values.
pub proof fn legacy_fails_exactly(name: Seq<char>, text: Seq<char>)
    ensures
        ({
            let ls = lines(text);
            (legacy_profile(name, text) is Err) == ((exists|k: int|
                0 <= k < ls.len() && #[trigger] fails_at(ls, k)) || !(exists|k: int|
                0 <= k < ls.len() && #[trigger] matches_at(ls, k)))
        }),
        legacy_profile(name, text) matches Ok((p, _)) ==> p.name == name && p.matches
            == header_fold(lines(text)).matches && p.matches.len() > 0,
{
    let ls = lines(text);
    lemma_header_errors(ls, ls.len() as int);
    assert(ls.take(ls.len() as int) =~= ls);
}

/// A header read to its end without error.
struct Header {
    matches: Vec<String>,
    hooks: Vec<String>,
    edp: EdpPolicy,
    gpu: GpuPref,
    priority: Option<i64>,
    warnings: Vec<String>,
    description: String,
}

impl Header {
    /// Whether this is the state `h` (apart from `done`).
    spec fn is(&self, h: HeaderView) -> bool {
        &&& strings_view(self.matches@) == h.matches
        &&& strings_view(self.hooks@) == h.hooks
        &&& self.edp == h.edp
        &&& self.gpu == h.gpu
        &&& self.priority == h.priority
        &&& strings_view(self.warnings@) == h.warnings
        &&& self.description@ == h.description
        &&& h.error is None
    }
}

/// Pushes a string onto a vector of strings, keeping the views in step.
fn push_string(v: &mut Vec<String>, s: String)
    ensures
        strings_view(final(v)@) == strings_view(old(v)@).push(s@),
{
    let ghost v0 = v@;
    v.push(s);
    assert(strings_view(v@) =~= strings_view(v0).push(s@));
}

/// Reads the header from the lines `ls` of `v`.
#[verifier::rlimit(60)]
fn read_header(v: &Vec<char>, ls: &Vec<(usize, usize)>) -> (r: Result<Header, String>)
    requires
        ls@.len() == lines(v@).len(),
        forall|j: int|
            0 <= j < ls@.len() ==> {
                &&& (#[trigger] ls@[j]).0 <= ls@[j].1 <= v@.len()
                &&& v@.subrange(ls@[j].0 as int, ls@[j].1 as int) == lines(v@)[j]
            },
    ensures
        match r {
            Ok(h) => h.is(header_fold(lines(v@))),
            Err(e) => header_fold(lines(v@)).error == Some(e@),
        },
{
    let ghost all = lines(v@);
    let mut h = Header {
        matches: Vec::new(),
        hooks: Vec::new(),
        edp: EdpPolicy::Auto,
        gpu: GpuPref::Auto,
        priority: None,
        warnings: Vec::new(),
        description: String::new(),
    };
    proof {
        reveal_strlit("# Profile: ");
        reveal_strlit("-- Profile: ");
        reveal_strlit("#@");
        reveal_strlit("--@");
        assert(all.take(0) =~= Seq::<Seq<char>>::empty());
        assert(strings_view(h.matches@) =~= Seq::<Seq<char>>::empty());
        assert(strings_view(h.hooks@) =~= Seq::<Seq<char>>::empty());
        assert(strings_view(h.warnings@) =~= Seq::<Seq<char>>::empty());
    }
    let mut k: usize = 0;
    while k < ls.len()
        invariant
            all == lines(v@),
            ls@.len() == all.len(),
            forall|j: int|
                0 <= j < ls@.len() ==> {
                    &&& (#[trigger] ls@[j]).0 <= ls@[j].1 <= v@.len()
                    &&& v@.subrange(ls@[j].0 as int, ls@[j].1 as int) == all[j]
                },
            k <= ls@.len(),
            h.is(header_fold(all.take(k as int))),
            !header_fold(all.take(k as int)).done,
        decreases ls@.len() - k,
    {
        let (a, b) = ls[k];
        proof {
            reveal_strlit("# Profile: ");
            reveal_strlit("-- Profile: ");
            reveal_strlit("#@");
            reveal_strlit("--@");
        }
        let ghost prev = header_fold(all.take(k as int));
        assert(all.take(k + 1).drop_last() =~= all.take(k as int));
        assert(all.take(k + 1).last() == all[k as int]);
        let t0 = skip_ws(v, a, b);
        let ghost t = v@.subrange(t0 as int, b as int);
        if starts_with_at(v, t0, b, "# Profile: ") {
            assert(t.skip(11) =~= v@.subrange(t0 + 11, b as int));
            let (x, y) = trim_range(v, t0 + 11, b);
            h.description = string_of(v, x, y);
        } else if starts_with_at(v, t0, b, "-- Profile: ") {
            assert(t.skip(12) =~= v@.subrange(t0 + 12, b as int));
            let (x, y) = trim_range(v, t0 + 12, b);
            h.description = string_of(v, x, y);
        }
        if starts_with_at(v, t0, b, "#@") || starts_with_at(v, t0, b, "--@") {
            match directive_in(v, t0, b, false) {
                Some((ka, kb, va, vb)) => {
                    if range_eq(v, ka, kb, "match") {
                        push_string(&mut h.matches, string_of(v, va, vb));
                    } else if range_eq(v, ka, kb, "hook") {
                        push_string(&mut h.hooks, string_of(v, va, vb));
                    } else if range_eq(v, ka, kb, "edp") {
                        let val = string_of(v, va, vb);
                        match EdpPolicy::parse(val.as_str()) {
                            Some(e) => {
                                h.edp = e;
                            },
                            None => {
                                let e = warning_with("invalid edp ", v, va, vb);
                                proof {
                                    lemma_header_stops(all, k + 1);
                                }
                                return Err(e);
                            },
                        }
                    } else if range_eq(v, ka, kb, "gpu") {
                        let val = string_of(v, va, vb);
                        match GpuPref::parse(val.as_str()) {
                            Some(g) => {
                                h.gpu = g;
                            },
                            None => {
                                let e = warning_with("invalid gpu ", v, va, vb);
                                proof {
                                    lemma_header_stops(all, k + 1);
                                }
                                return Err(e);
                            },
                        }
                    } else if range_eq(v, ka, kb, "priority") {
                        match parse_i64_exec(v, va, vb) {
                            Some(p) => {
                                h.priority = Some(p);
                            },
                            None => {
                                let e = warning_with("invalid priority ", v, va, vb);
                                proof {
                                    lemma_header_stops(all, k + 1);
                                }
                                return Err(e);
                            },
                        }
                    } else {
                        push_string(&mut h.warnings, warning_with("unknown directive ", v, ka, kb));
                    }
                },
                None => {
                    push_string(&mut h.warnings, warning_with("malformed directive ", v, t0, b));
                },
            }
        } else if t0 == b || starts_with_at(v, t0, b, "#") || starts_with_at(v, t0, b, "--") {
        } else {
            proof {
                lemma_header_stops(all, k + 1);
            }
            return Ok(h);
        }
        k += 1;
    }
    assert(all.take(ls@.len() as int) =~= all);
    Ok(h)
}

/// The `to_profile` error for a file without `match` directives.
fn no_match_error() -> (e: String)
    ensures
        e@ == "profile has no `match` entries"@,
{
    String::from_str("profile has no `match` entries")
}

/// Reads a legacy profile: the `#@`/`--@` directive header, then the body
/// as conf `monitor =` lines, else a `mon.row(...)` call, else
/// `hl.monitor(...)` calls, and the workspace rules of either dialect.
pub fn to_profile(name: &str, text: &str) -> (r: Result<(Profile, Vec<String>), String>)
    ensures
        match r {
            Ok((p, w)) => legacy_profile(name@, text@) == Ok::<_, Seq<char>>(
                (p@, strings_view(w@)),
            ),
            Err(e) => legacy_profile(name@, text@) == Err::<(ProfileView, Seq<Seq<char>>), _>(
                e@,
            ),
        },
{
    let v = chars_of(text);
    let ls = line_ranges(&v);
    let h = match read_header(&v, &ls) {
        Ok(h) => h,
        Err(e) => {
            return Err(e);
        },
    };
    if h.matches.len() == 0 {
        return Err(no_match_error());
    }
    let (conf_ms, conf_ws) = parse_conf_monitors(text);
    let mut monitors: Vec<Monitor>;
    let mut body_warnings: Vec<String>;
    if conf_ms.len() > 0 {
        monitors = conf_ms;
        body_warnings = conf_ws;
    } else {
        let (row_ms, row_ws) = parse_mon_row(text);
        if row_ms.len() > 0 {
            monitors = row_ms;
            body_warnings = row_ws;
            assert(strings_view(body_warnings@) =~= Seq::<Seq<char>>::empty());
        } else {
            let (hl_ms, hl_ws) = parse_hl_monitor(text);
            if hl_ms.len() > 0 {
                monitors = hl_ms;
                body_warnings = hl_ws;
            } else {
                monitors = Vec::new();
                body_warnings = Vec::new();
                assert(monitors_view(monitors@) =~= Seq::<MonitorView>::empty());
                assert(strings_view(body_warnings@) =~= Seq::<Seq<char>>::empty());
            }
        }
    }
    let Header { matches, hooks, edp, gpu, priority, mut warnings, description } = h;
    let ghost w0 = warnings@;
    let ghost bw = body_warnings@;
    warnings.append(&mut body_warnings);
    assert(strings_view(warnings@) =~= strings_view(w0) + strings_view(bw));
    if monitors.len() == 0 {
        let ghost w1 = warnings@;
        push_string(
            &mut warnings,
            String::from_str("body has no recognisable monitor entries; convert by hand"),
        );
    }
    let priority = match priority {
        Some(p) => p,
        None => matches.len() as i64,
    };
    let workspaces = parse_workspace_rules(text);
    let p = Profile {
        name: String::from_str(name),
        description,
        matches,
        edp,
        gpu,
        hooks,
        priority,
        monitors,
        workspaces,
    };
    Ok((p, warnings))
}

} // verus!
