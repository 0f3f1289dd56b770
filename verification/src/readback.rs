//! Reading the workspace rules back out of a rendered `.conf` file.
use vstd::prelude::*;
use crate::layout::{MetricsView, ResolvedOutputView, placed, resolve_spec, stand_ins};
use crate::legacy::{trimmed_pieces, workspace_rule_of, workspace_rules, ws_rhs};
use crate::model::{MonitorView, ProfileView, WorkspaceRuleView, mode_text};
use crate::num::{int_text, nat_text};
use crate::render::{
    conf_output_line, conf_workspace_line, header_lines, leader, output_lines, output_metrics,
    position_text, render_text, scale_text_of, workspace_lines,
};
use crate::serialize::optional;
use crate::text::{
    is_ws, lines, occurs_at, split_char, strip_cr, strip_prefix, terminated, trim, trim_end,
    trim_start,
};

verus! {

/// A character that cannot stand in `workspace_rule`.
pub open spec fn outside_rule_word(c: char) -> bool {
    forall|j: int| 0 <= j < "workspace_rule"@.len() ==> "workspace_rule"@[j] != c
}

/// Text with no line break, no carriage return, and no `workspace_rule`.
pub open spec fn clean(s: Seq<char>) -> bool {
    &&& forall|i: int| 0 <= i < s.len() ==> s[i] != '\n' && s[i] != '\r'
    &&& forall|i: int| !occurs_at(s, "workspace_rule"@, i)
}

proof fn lemma_clean_concat(a: Seq<char>, b: Seq<char>)
    requires
        clean(a),
        clean(b),
        a.len() == 0 || b.len() == 0 || outside_rule_word(a.last()) || outside_rule_word(b[0]),
    ensures
        clean(a + b),
{
    reveal_strlit("workspace_rule");
    let s = a + b;
    let p = "workspace_rule"@;
    assert forall|i: int| 0 <= i < s.len() implies s[i] != '\n' && s[i] != '\r' by {
        if i < a.len() {
            assert(s[i] == a[i]);
        } else {
            assert(s[i] == b[i - a.len()]);
        }
    }
    assert forall|i: int| !occurs_at(s, p, i) by {
        if occurs_at(s, p, i) {
            let w = s.subrange(i, i + p.len());
            if i + p.len() <= a.len() {
                assert(a.subrange(i, i + p.len()) =~= w);
                assert(occurs_at(a, p, i));
            } else if i >= a.len() {
                assert(b.subrange(i - a.len(), i - a.len() + p.len()) =~= w);
                assert(occurs_at(b, p, i - a.len()));
            } else {
                assert(w[a.len() - 1 - i] == a.last());
                assert(w[a.len() - i] == b[0]);
                assert(p[a.len() - 1 - i] == a.last());
                assert(p[a.len() - i] == b[0]);
            }
        }
    }
}

/// Text without `w`, line breaks and carriage returns is clean.
proof fn lemma_clean_no_w(s: Seq<char>)
    requires
        forall|i: int| 0 <= i < s.len() ==> s[i] != 'w' && s[i] != '\n' && s[i] != '\r',
    ensures
        clean(s),
{
    reveal_strlit("workspace_rule");
    assert forall|i: int| !occurs_at(s, "workspace_rule"@, i) by {
        if occurs_at(s, "workspace_rule"@, i) {
            assert(s.subrange(i, i + 14)[0] == s[i]);
        }
    }
}

proof fn lemma_clean_sub(s: Seq<char>, a: int, b: int)
    requires
        clean(s),
        0 <= a <= b <= s.len(),
    ensures
        clean(s.subrange(a, b)),
{
    let t = s.subrange(a, b);
    assert forall|i: int| !occurs_at(t, "workspace_rule"@, i) by {
        if occurs_at(t, "workspace_rule"@, i) {
            assert(s.subrange(a + i, a + i + "workspace_rule"@.len()) =~= t.subrange(
                i,
                i + "workspace_rule"@.len(),
            ));
            assert(occurs_at(s, "workspace_rule"@, a + i));
        }
    }
}

proof fn lemma_trim_end_prefix(s: Seq<char>)
    ensures
        trim_end(s).is_prefix_of(s),
    decreases s.len(),
{
    if s.len() > 0 && is_ws(s.last()) {
        lemma_trim_end_prefix(s.drop_last());
    }
}

/// A clean line that is empty or starts with neither whitespace nor `w`
/// declares no workspace rule.
proof fn lemma_no_rule(l: Seq<char>)
    requires
        clean(l),
        l.len() == 0 || (!is_ws(l[0]) && l[0] != 'w'),
    ensures
        workspace_rule_of(l) is None,
{
    reveal_strlit("workspace");
    reveal_strlit("workspace_rule");
    let t = trim(l);
    if l.len() > 0 {
        crate::text::lemma_trim_start_plain(l);
    }
    lemma_trim_end_prefix(trim_start(l));
    assert(t =~= l.subrange(0, t.len() as int));
    lemma_clean_sub(l, 0, t.len() as int);
    if "workspace"@.is_prefix_of(t) {
        assert(t.subrange(0, 9)[0] == t[0]);
        assert(t[0] == 'w');
        assert(l[0] == 'w');
    }
    assert(ws_rhs(t) is None);
    crate::text::lemma_find_seq_from(t, "workspace_rule"@, 0);
}

/// A workspace rule field the conf dialect carries back unchanged:
/// non-empty, no surrounding whitespace, no comma, line break or carriage
/// return.
pub open spec fn rule_field(x: Seq<char>) -> bool {
    &&& x.len() > 0
    &&& trim(x) == x
    &&& forall|i: int| 0 <= i < x.len() ==> x[i] != ',' && x[i] != '\n' && x[i] != '\r'
}

proof fn lemma_trimmed_ends(v: Seq<char>)
    requires
        v.len() > 0,
        trim(v) == v,
    ensures
        !is_ws(v[0]),
        !is_ws(v.last()),
        trim_start(v) == v,
        trim_end(v) == v,
{
    crate::render::lemma_trimmed_last(v);
    crate::render::lemma_trim_lengths(v);
    crate::render::lemma_trim_lengths(trim_start(v));
    crate::render::lemma_trim_start_suffix(v);
    if trim_start(v).len() < v.len() {
        assert(trim(v).len() < v.len());
    }
    assert(trim_start(v) =~= v.skip(0));
    assert(v.skip(0) =~= v);
    if is_ws(v[0]) {
        crate::render::lemma_trim_lengths(v.drop_first());
        assert(trim_start(v) == trim_start(v.drop_first()));
    }
}

/// `trim` of a space then text with no surrounding whitespace is that text.
proof fn lemma_trim_space_then(v: Seq<char>)
    requires
        v.len() > 0,
        trim(v) == v,
    ensures
        trim(seq![' '] + v) == v,
{
    lemma_trimmed_ends(v);
    assert((seq![' '] + v).drop_first() =~= v);
    assert(is_ws(' '));
}

/// Splitting `a,b` where `a` has no comma.
proof fn lemma_split_field(a: Seq<char>, b: Seq<char>)
    requires
        forall|i: int| 0 <= i < a.len() ==> a[i] != ',',
    ensures
        split_char(a + seq![','] + b, ',') == seq![a] + split_char(b, ','),
{
    crate::text::lemma_split_none(a, ',');
    let a1 = a + seq![','];
    assert(a1.drop_last() =~= a);
    assert(split_char(a1, ',') == seq![a].push(Seq::<char>::empty()));
    crate::text::lemma_split_append(a1, b, ',');
    crate::text::lemma_split_nonempty(b, ',');
    let sb = split_char(b, ',');
    assert(Seq::<char>::empty() + sb[0] =~= sb[0]);
    assert(sb =~= seq![sb[0]] + sb.skip(1));
    assert(split_char(a1 + b, ',') =~= seq![a] + sb);
}

/// A rendered conf workspace line (without its newline) reads back as the
/// rule.
#[verifier::rlimit(80)]
#[verifier::spinoff_prover]
proof fn lemma_workspace_line_reads(w: WorkspaceRuleView)
    requires
        rule_field(w.workspace),
        rule_field(w.monitor),
        w.workspace != "default:true"@,
    ensures
        workspace_rule_of(conf_workspace_line(w).drop_last()) == Some(w),
{
    reveal_strlit("workspace = ");
    reveal_strlit("workspace");
    reveal_strlit(", monitor:");
    reveal_strlit("monitor:");
    reveal_strlit(", default:true");
    reveal_strlit("default:true");
    let ws = w.workspace;
    let mon = w.monitor;
    lemma_trimmed_ends(ws);
    lemma_trimmed_ends(mon);
    let opt = optional(w.default, ", default:true"@);
    let l = "workspace = "@ + ws + ", monitor:"@ + mon + opt;
    assert(conf_workspace_line(w).drop_last() =~= l);
    let r = ws + ", monitor:"@ + mon + opt;
    let b1 = " monitor:"@ + mon;
    assert(", monitor:"@ =~= seq![','] + " monitor:"@) by {
        reveal_strlit(" monitor:");
    }
    reveal_strlit(" monitor:");
    reveal_strlit(" default:true");
    // The line is its own trim.
    assert(l[0] == 'w');
    crate::text::lemma_trim_start_plain(l);
    if w.default {
        assert(l.last() == 'e');
    } else {
        assert(l.last() == mon.last());
    }
    assert(trim_end(l) == l);
    // The right-hand side.
    let x = " = "@ + r;
    assert(l =~= "workspace"@ + x) by {
        reveal_strlit(" = ");
    }
    reveal_strlit(" = ");
    assert(strip_prefix(l, "workspace"@) == Some(x)) by {
        assert(l.skip(9) =~= x);
    }
    assert(x.drop_first() =~= seq!['='] + seq![' '] + r);
    crate::text::lemma_trim_start_plain(x.drop_first());
    assert(is_ws(' '));
    assert(trim_start(x) == x.drop_first());
    let y = x.drop_first();
    assert(y.drop_first() =~= seq![' '] + r);
    assert(r[0] == ws[0]);
    if w.default {
        assert(r.last() == 'e');
    } else {
        assert(r.last() == mon.last());
    }
    crate::text::lemma_trim_start_plain(r);
    assert(trim_end(r) == r);
    assert(trim(r) == r);
    lemma_trim_space_then(r);
    assert(ws_rhs(l) == Some(r));
    // The pieces.
    assert forall|i: int| 0 <= i < b1.len() implies b1[i] != ',' by {
        if i >= 9 {
            assert(b1[i] == mon[i - 9]);
        }
    }
    assert(("monitor:"@ + mon)[0] == 'm');
    crate::text::lemma_trim_start_plain("monitor:"@ + mon);
    assert(("monitor:"@ + mon).last() == mon.last());
    assert(trim_end("monitor:"@ + mon) == "monitor:"@ + mon);
    lemma_trim_space_then("monitor:"@ + mon);
    assert(b1 =~= seq![' '] + ("monitor:"@ + mon));
    let p = trimmed_pieces(r);
    if w.default {
        let c = " default:true"@;
        assert(r =~= ws + seq![','] + (b1 + seq![','] + c));
        lemma_split_field(ws, b1 + seq![','] + c);
        lemma_split_field(b1, c);
        crate::text::lemma_split_none(c, ',');
        assert(split_char(r, ',') =~= seq![ws, b1, c]);
        assert(c =~= seq![' '] + "default:true"@);
        lemma_trim_space_then("default:true"@);
        assert(p =~= seq![ws, "monitor:"@ + mon, "default:true"@]);
        assert(p[2] == "default:true"@);
    } else {
        assert(r =~= ws + seq![','] + b1);
        lemma_split_field(ws, b1);
        crate::text::lemma_split_none(b1, ',');
        assert(split_char(r, ',') =~= seq![ws, b1]);
        assert(p =~= seq![ws, "monitor:"@ + mon]);
        assert(!p.contains("default:true"@)) by {
            if p.contains("default:true"@) {
                let k = choose|k: int| 0 <= k < p.len() && p[k] == "default:true"@;
                if k == 1 {
                    assert(p[1][0] != "default:true"@[0]);
                }
            }
        }
    }
    assert("monitor:"@.is_prefix_of(p[1]));
    assert(p[1].skip(8) =~= mon);
}

proof fn lemma_terminated_append(a: Seq<Seq<char>>, b: Seq<Seq<char>>)
    ensures
        terminated(a + b) == terminated(a) + terminated(b),
    decreases b.len(),
{
    if b.len() == 0 {
        assert(a + b =~= a);
        assert(terminated(a) + terminated(b) =~= terminated(a));
    } else {
        lemma_terminated_append(a, b.drop_last());
        assert((a + b).drop_last() =~= a + b.drop_last());
        assert((a + b).last() == b.last());
        assert(terminated(a + b) =~= terminated(a) + terminated(b));
    }
}

/// The conf lines (without newlines) of the first `n` outputs whose
/// `enabled` is `pass`.
pub open spec fn conf_output_seq(
    outs: Seq<ResolvedOutputView>,
    om: Seq<MetricsView>,
    pass: bool,
    n: int,
) -> Seq<Seq<char>>
    decreases n,
{
    if n <= 0 {
        Seq::empty()
    } else if outs[n - 1].enabled == pass {
        conf_output_seq(outs, om, pass, n - 1).push(conf_output_line(outs[n - 1], om[n - 1]).drop_last())
    } else {
        conf_output_seq(outs, om, pass, n - 1)
    }
}

proof fn lemma_conf_output_line_ends(o: ResolvedOutputView, mt: MetricsView)
    ensures
        conf_output_line(o, mt) == conf_output_line(o, mt).drop_last() + seq!['\n'],
{
    reveal_strlit(",disable\n");
    let l = conf_output_line(o, mt);
    assert(l.len() > 0 && l.last() == '\n');
    assert(l =~= l.drop_last() + seq!['\n']);
}

proof fn lemma_output_lines_terminated(
    outs: Seq<ResolvedOutputView>,
    om: Seq<MetricsView>,
    pass: bool,
    n: int,
)
    ensures
        output_lines(outs, om, pass, false, n) == terminated(conf_output_seq(outs, om, pass, n)),
    decreases n,
{
    if n > 0 {
        lemma_output_lines_terminated(outs, om, pass, n - 1);
        let prev = conf_output_seq(outs, om, pass, n - 1);
        if outs[n - 1].enabled == pass {
            lemma_conf_output_line_ends(outs[n - 1], om[n - 1]);
            let l = conf_output_line(outs[n - 1], om[n - 1]).drop_last();
            assert(prev.push(l).drop_last() =~= prev);
            assert(terminated(prev.push(l)) =~= terminated(prev) + conf_output_line(
                outs[n - 1],
                om[n - 1],
            ));
        } else {
            assert(terminated(prev) + Seq::<char>::empty() =~= terminated(prev));
        }
    }
}

/// The conf workspace lines (without newlines) of the first `n` rules.
pub open spec fn conf_workspace_seq(ws: Seq<WorkspaceRuleView>, n: int) -> Seq<Seq<char>>
    decreases n,
{
    if n <= 0 {
        Seq::empty()
    } else {
        conf_workspace_seq(ws, n - 1).push(conf_workspace_line(ws[n - 1]).drop_last())
    }
}

proof fn lemma_workspace_lines_terminated(ws: Seq<WorkspaceRuleView>, n: int)
    ensures
        workspace_lines(ws, false, n) == terminated(conf_workspace_seq(ws, n)),
    decreases n,
{
    if n > 0 {
        lemma_workspace_lines_terminated(ws, n - 1);
        let l = conf_workspace_line(ws[n - 1]);
        assert(l.len() > 0 && l.last() == '\n');
        assert(l =~= l.drop_last() + seq!['\n']);
        let prev = conf_workspace_seq(ws, n - 1);
        assert(prev.push(l.drop_last()).drop_last() =~= prev);
        assert(terminated(prev.push(l.drop_last())) =~= terminated(prev) + l);
    }
}

proof fn lemma_rules_append(a: Seq<Seq<char>>, b: Seq<Seq<char>>)
    ensures
        workspace_rules(a + b) == workspace_rules(a) + workspace_rules(b),
    decreases b.len(),
{
    if b.len() == 0 {
        assert(a + b =~= a);
        assert(workspace_rules(a) + workspace_rules(b) =~= workspace_rules(a));
    } else {
        lemma_rules_append(a, b.drop_last());
        assert((a + b).drop_last() =~= a + b.drop_last());
        assert((a + b).last() == b.last());
        match workspace_rule_of(b.last()) {
            Some(w) => {
                assert(workspace_rules(a) + workspace_rules(b.drop_last()).push(w) =~= (
                workspace_rules(a) + workspace_rules(b.drop_last())).push(w));
            },
            None => {},
        }
    }
}

/// Lines that declare no rule give none.
proof fn lemma_rules_none(ls: Seq<Seq<char>>)
    requires
        forall|k: int| 0 <= k < ls.len() ==> workspace_rule_of(#[trigger] ls[k]) is None,
    ensures
        workspace_rules(ls) == Seq::<WorkspaceRuleView>::empty(),
    decreases ls.len(),
{
    if ls.len() > 0 {
        assert forall|k: int| 0 <= k < ls.drop_last().len() implies workspace_rule_of(
            #[trigger] ls.drop_last()[k],
        ) is None by {
            assert(ls.drop_last()[k] == ls[k]);
        }
        lemma_rules_none(ls.drop_last());
        assert(workspace_rule_of(ls[ls.len() - 1]) is None);
    }
}

proof fn lemma_rules_of_workspace_seq(ws: Seq<WorkspaceRuleView>, n: int)
    requires
        0 <= n <= ws.len(),
        forall|k: int|
            0 <= k < ws.len() ==> rule_field((#[trigger] ws[k]).workspace) && rule_field(ws[k].monitor)
                && ws[k].workspace != "default:true"@,
    ensures
        workspace_rules(conf_workspace_seq(ws, n)) == ws.take(n),
    decreases n,
{
    if n == 0 {
        assert(ws.take(0) =~= Seq::<WorkspaceRuleView>::empty());
    } else {
        lemma_rules_of_workspace_seq(ws, n - 1);
        let s = conf_workspace_seq(ws, n);
        assert(s.drop_last() == conf_workspace_seq(ws, n - 1));
        lemma_workspace_line_reads(ws[n - 1]);
        assert(ws.take(n) =~= ws.take(n - 1).push(ws[n - 1]));
    }
}

proof fn lemma_outside_chars()
    ensures
        outside_rule_word('#'),
        outside_rule_word(' '),
        outside_rule_word('.'),
        outside_rule_word(','),
        outside_rule_word('x'),
        outside_rule_word('@'),
{
    reveal_strlit("workspace_rule");
}

proof fn lemma_literals_clean()
    ensures
        clean(seq!['#']),
        clean(seq![',']),
        clean(seq!['x']),
        clean(seq!['@']),
        clean(" Profile: "@),
        clean(" — generated from "@),
        clean(".toml. Do not edit; edit the TOML."@),
        clean("@ "@),
        clean(" = "@),
        clean("match"@),
        clean("edp"@),
        clean("gpu"@),
        clean("priority"@),
        clean("auto"@),
        clean("enable"@),
        clean("disable"@),
        clean("igpu"@),
        clean("dgpu"@),
        clean("monitor = "@),
        clean(",disable"@),
        clean(",preferred,auto,"@),
        clean(",transform,"@),
        clean(Seq::<char>::empty()),
{
    reveal_strlit(" Profile: ");
    reveal_strlit(" — generated from ");
    reveal_strlit(".toml. Do not edit; edit the TOML.");
    reveal_strlit("@ ");
    reveal_strlit(" = ");
    reveal_strlit("match");
    reveal_strlit("edp");
    reveal_strlit("gpu");
    reveal_strlit("priority");
    reveal_strlit("auto");
    reveal_strlit("enable");
    reveal_strlit("disable");
    reveal_strlit("igpu");
    reveal_strlit("dgpu");
    reveal_strlit("monitor = ");
    reveal_strlit(",disable");
    reveal_strlit(",preferred,auto,");
    reveal_strlit(",transform,");
    lemma_clean_no_w(seq!['#']);
    lemma_clean_no_w(seq![',']);
    lemma_clean_no_w(seq!['x']);
    lemma_clean_no_w(seq!['@']);
    lemma_clean_no_w(" Profile: "@);
    lemma_clean_no_w(" — generated from "@);
    lemma_clean_no_w(".toml. Do not edit; edit the TOML."@);
    lemma_clean_no_w("@ "@);
    lemma_clean_no_w(" = "@);
    lemma_clean_no_w("match"@);
    lemma_clean_no_w("edp"@);
    lemma_clean_no_w("gpu"@);
    lemma_clean_no_w("priority"@);
    lemma_clean_no_w("auto"@);
    lemma_clean_no_w("enable"@);
    lemma_clean_no_w("disable"@);
    lemma_clean_no_w("igpu"@);
    lemma_clean_no_w("dgpu"@);
    lemma_clean_no_w("monitor = "@);
    lemma_clean_no_w(",disable"@);
    lemma_clean_no_w(",preferred,auto,"@);
    lemma_clean_no_w(",transform,"@);
    lemma_clean_no_w(Seq::<char>::empty());
}

proof fn lemma_numbers_clean(i: int, n: nat)
    ensures
        clean(int_text(i)),
        clean(nat_text(n)),
{
    crate::num::lemma_int_text_digits(i);
    crate::num::lemma_nat_text(n);
    lemma_clean_no_w(int_text(i));
    lemma_clean_no_w(nat_text(n));
}

/// A directive line of the conf header is clean when its value is.
proof fn lemma_directive_clean(key: Seq<char>, val: Seq<char>)
    requires
        clean(key),
        clean(val),
    ensures
        clean(crate::render::directive_line(seq!['#'], key, val)),
{
    reveal_strlit("@ ");
    reveal_strlit(" = ");
    lemma_literals_clean();
    lemma_outside_chars();
    lemma_clean_concat(seq!['#'], "@ "@);
    lemma_clean_concat(seq!['#'] + "@ "@, key);
    lemma_clean_concat(seq!['#'] + "@ "@ + key, " = "@);
    lemma_clean_concat(seq!['#'] + "@ "@ + key + " = "@, val);
}

/// The conf header lines are clean when the name and `match` entries are.
proof fn lemma_header_clean(p: ProfileView)
    requires
        clean(p.name),
        forall|k: int| 0 <= k < p.matches.len() ==> clean(#[trigger] p.matches[k]),
    ensures
        forall|k: int| 0 <= k < header_lines(p, seq!['#']).len() ==> {
            &&& clean(#[trigger] header_lines(p, seq!['#'])[k])
            &&& header_lines(p, seq!['#'])[k].len() == 0 || header_lines(p, seq!['#'])[k][0] == '#'
        },
{
    reveal_strlit(" Profile: ");
    reveal_strlit(" — generated from ");
    reveal_strlit(".toml. Do not edit; edit the TOML.");
    reveal_strlit("@ ");
    let hl = header_lines(p, seq!['#']);
    lemma_literals_clean();
    lemma_outside_chars();
    let t = crate::render::title_line(p, seq!['#']);
    lemma_clean_concat(seq!['#'], " Profile: "@);
    lemma_clean_concat(seq!['#'] + " Profile: "@, p.name);
    lemma_clean_concat(seq!['#'] + " Profile: "@ + p.name, " — generated from "@);
    lemma_clean_concat(seq!['#'] + " Profile: "@ + p.name + " — generated from "@, p.name);
    lemma_clean_concat(
        seq!['#'] + " Profile: "@ + p.name + " — generated from "@ + p.name,
        ".toml. Do not edit; edit the TOML."@,
    );
    assert(clean(t));
    lemma_numbers_clean(p.priority as int, 0);
    assert(clean(p.edp.keyword()));
    assert(clean(p.gpu.keyword()));
    lemma_directive_clean("edp"@, p.edp.keyword());
    lemma_directive_clean("gpu"@, p.gpu.keyword());
    lemma_directive_clean("priority"@, int_text(p.priority as int));
    let nm = p.matches.len() as int;
    assert forall|k: int| 0 <= k < hl.len() implies {
        &&& clean(#[trigger] hl[k])
        &&& hl[k].len() == 0 || hl[k][0] == '#'
    } by {
        if 2 <= k < 2 + nm {
            assert(hl[k] == crate::render::directive_line(seq!['#'], "match"@, p.matches[k - 2]));
            lemma_directive_clean("match"@, p.matches[k - 2]);
        }
    }
}

/// The text of an output's scale, mode and position are clean when the
/// metrics texts are.
pub open spec fn clean_metrics(mt: MetricsView) -> bool {
    &&& clean(mt.scale_text)
    &&& (mt.refresh_text matches Some(r) ==> clean(r))
    &&& (mt.snapped matches Some(z) ==> clean(z.scale_text))
}

proof fn lemma_mode_text_clean(m: crate::model::ModeView, r: Option<Seq<char>>)
    requires
        r matches Some(t) ==> clean(t),
    ensures
        clean(mode_text(m, r)),
{
    lemma_literals_clean();
    lemma_outside_chars();
    lemma_numbers_clean(0, m.width as nat);
    lemma_numbers_clean(0, m.height as nat);
    let w = nat_text(m.width as nat);
    let h = nat_text(m.height as nat);
    lemma_clean_concat(w, seq!['x']);
    lemma_clean_concat(w + seq!['x'], h);
    match r {
        Some(t) => {
            lemma_clean_concat(seq!['@'], t);
            lemma_clean_concat(w + seq!['x'] + h, seq!['@'] + t);
        },
        None => {
            assert(w + seq!['x'] + h + Seq::<char>::empty() =~= w + seq!['x'] + h);
        },
    }
}

/// An output's conf line (without its newline) is clean and starts with
/// `m`.
proof fn lemma_output_line_clean(o: ResolvedOutputView, mt: MetricsView)
    requires
        clean(o.selector),
        clean_metrics(mt),
    ensures
        clean(conf_output_line(o, mt).drop_last()),
        conf_output_line(o, mt).drop_last().len() > 0,
        conf_output_line(o, mt).drop_last()[0] == 'm',
{
    reveal_strlit("monitor = ");
    reveal_strlit(",disable");
    reveal_strlit(",disable\n");
    reveal_strlit(",preferred,auto,");
    reveal_strlit(",transform,");
    lemma_literals_clean();
    lemma_outside_chars();
    let a = "monitor = "@ + o.selector;
    lemma_clean_concat("monitor = "@, o.selector);
    let st = scale_text_of(o, mt);
    assert(clean(st));
    let l = conf_output_line(o, mt);
    if !o.enabled {
        lemma_clean_concat(a, ",disable"@);
        assert(l.drop_last() =~= a + ",disable"@);
    } else if o.mode is Some {
        let mt_text = mode_text(o.mode.unwrap(), mt.refresh_text);
        lemma_mode_text_clean(o.mode.unwrap(), mt.refresh_text);
        let pt = position_text(o.position);
        lemma_numbers_clean(o.position.0 as int, 0);
        lemma_numbers_clean(o.position.1 as int, o.transform as nat);
        lemma_clean_concat(int_text(o.position.0 as int), seq!['x']);
        lemma_clean_concat(int_text(o.position.0 as int) + seq!['x'], int_text(o.position.1 as int));
        let tail = optional(o.transform != 0, ",transform,"@ + nat_text(o.transform as nat));
        lemma_clean_concat(",transform,"@, nat_text(o.transform as nat));
        assert(clean(tail));
        lemma_clean_concat(a, seq![',']);
        lemma_clean_concat(a + seq![','], mt_text);
        lemma_clean_concat(a + seq![','] + mt_text, seq![',']);
        lemma_clean_concat(a + seq![','] + mt_text + seq![','], pt);
        lemma_clean_concat(a + seq![','] + mt_text + seq![','] + pt, seq![',']);
        lemma_clean_concat(a + seq![','] + mt_text + seq![','] + pt + seq![','], st);
        let body = a + seq![','] + mt_text + seq![','] + pt + seq![','] + st;
        if tail.len() > 0 {
            assert(tail[0] == ',');
        }
        lemma_clean_concat(body, tail);
        assert(l.drop_last() =~= body + tail);
    } else {
        lemma_clean_concat(a, ",preferred,auto,"@);
        lemma_clean_concat(a + ",preferred,auto,"@, st);
        assert(l.drop_last() =~= a + ",preferred,auto,"@ + st);
    }
}

proof fn lemma_output_seq_clean(
    outs: Seq<ResolvedOutputView>,
    om: Seq<MetricsView>,
    pass: bool,
    n: int,
)
    requires
        0 <= n <= outs.len(),
        n <= om.len(),
        forall|k: int| 0 <= k < n ==> clean((#[trigger] outs[k]).selector) && clean_metrics(om[k]),
    ensures
        forall|j: int|
            0 <= j < conf_output_seq(outs, om, pass, n).len() ==> {
                &&& clean(#[trigger] conf_output_seq(outs, om, pass, n)[j])
                &&& conf_output_seq(outs, om, pass, n)[j].len() > 0
                &&& conf_output_seq(outs, om, pass, n)[j][0] == 'm'
            },
    decreases n,
{
    if n > 0 {
        lemma_output_seq_clean(outs, om, pass, n - 1);
        assert(clean(outs[n - 1].selector) && clean_metrics(om[n - 1]));
        lemma_output_line_clean(outs[n - 1], om[n - 1]);
        let prev = conf_output_seq(outs, om, pass, n - 1);
        let cur = conf_output_seq(outs, om, pass, n);
        assert forall|j: int| 0 <= j < cur.len() implies {
            &&& clean(#[trigger] cur[j])
            &&& cur[j].len() > 0
            &&& cur[j][0] == 'm'
        } by {
            if j < prev.len() {
                assert(cur[j] == prev[j]);
            }
        }
    }
}

/// Lines without breaks are plain: the line reader takes them as they are.
proof fn lemma_clean_plain(ls: Seq<Seq<char>>)
    requires
        forall|k: int| 0 <= k < ls.len() ==> no_break(#[trigger] ls[k]),
    ensures
        crate::text::plain_lines(ls),
{
    assert forall|k: int| 0 <= k < ls.len() implies {
        &&& forall|i: int| 0 <= i < (#[trigger] ls[k]).len() ==> ls[k][i] != '\n'
        &&& strip_cr(ls[k]) == ls[k]
    } by {
        assert(no_break(ls[k]));
        if ls[k].len() > 0 {
            assert(ls[k].last() == ls[k][ls[k].len() - 1]);
        }
    }
}

/// A rendered `.conf` file reads back through the workspace-rule reader as
/// the profile's rules. It holds when no name, `match` entry, selector or
/// floating-point text holds a line break, a carriage return or the word
/// `workspace_rule`, and every rule's workspace and monitor are non-empty,
/// without surrounding whitespace, commas or line breaks, the workspace not
/// being `default:true` (the conf dialect splits a rule at commas and
/// flags a default by that piece).
pub proof fn rendered_workspace_rules_read_back(p: ProfileView, mts: Seq<MetricsView>)
    requires
        mts.len() == p.monitors.len(),
        clean(p.name),
        forall|k: int| 0 <= k < p.matches.len() ==> clean(#[trigger] p.matches[k]),
        forall|i: int| 0 <= i < p.monitors.len() ==> clean((#[trigger] p.monitors[i]).output),
        forall|i: int| 0 <= i < mts.len() ==> clean_metrics(#[trigger] mts[i]),
        forall|k: int|
            0 <= k < p.workspaces.len() ==> rule_field((#[trigger] p.workspaces[k]).workspace)
                && rule_field(p.workspaces[k].monitor) && p.workspaces[k].workspace
                != "default:true"@,
    ensures
        workspace_rules(lines(render_text(p, mts, false))) == p.workspaces,
{
    let ms = p.monitors;
    let c = stand_ins(ms);
    let l = resolve_spec(ms, mts, c);
    let ps = placed(ms, c, ms.len() as int);
    let om = output_metrics(mts, ps);
    let n = l.outputs.len() as int;
    crate::layout::resolve_partitions_monitors(ms, mts, c, ms.len() as int);
    assert forall|k: int| 0 <= k < n implies clean((#[trigger] l.outputs[k]).selector)
        && clean_metrics(om[k]) by {
        let i = ps[k];
        assert(0 <= i < ms.len());
        assert(l.outputs[k].selector == ms[i].output);
        assert(om[k] == mts[i]);
    }
    let hl = header_lines(p, seq!['#']);
    let o1 = conf_output_seq(l.outputs, om, true, n);
    let o2 = conf_output_seq(l.outputs, om, false, n);
    let b: Seq<Seq<char>> = if p.workspaces.len() > 0 {
        seq![Seq::<char>::empty()]
    } else {
        Seq::empty()
    };
    let w = conf_workspace_seq(p.workspaces, p.workspaces.len() as int);
    let all = hl + o1 + o2 + b + w;
    lemma_output_lines_terminated(l.outputs, om, true, n);
    lemma_output_lines_terminated(l.outputs, om, false, n);
    lemma_workspace_lines_terminated(p.workspaces, p.workspaces.len() as int);
    lemma_terminated_append(hl + o1 + o2 + b, w);
    lemma_terminated_append(hl + o1 + o2, b);
    lemma_terminated_append(hl + o1, o2);
    lemma_terminated_append(hl, o1);
    assert(terminated(b) == optional(p.workspaces.len() > 0, seq!['\n'])) by {
        if p.workspaces.len() > 0 {
            assert(b.drop_last() =~= Seq::<Seq<char>>::empty());
            assert(terminated(Seq::<Seq<char>>::empty()) =~= Seq::<char>::empty());
            assert(terminated(b) =~= seq!['\n']);
        }
    }
    assert(leader(false) == seq!['#']);
    assert(render_text(p, mts, false) =~= terminated(all));
    // Every line but the rules' is clean and declares none.
    lemma_header_clean(p);
    lemma_output_seq_clean(l.outputs, om, true, n);
    lemma_output_seq_clean(l.outputs, om, false, n);
    lemma_literals_clean();
    let front = hl + o1 + o2 + b;
    assert forall|k: int| 0 <= k < front.len() implies workspace_rule_of(#[trigger] front[k])
        is None && clean(front[k]) by {
        if k < hl.len() {
            assert(front[k] == hl[k]);
            lemma_no_rule(hl[k]);
        } else if k < hl.len() + o1.len() {
            assert(front[k] == o1[k - hl.len()]);
            lemma_no_rule(o1[k - hl.len()]);
        } else if k < hl.len() + o1.len() + o2.len() {
            assert(front[k] == o2[k - hl.len() - o1.len()]);
            lemma_no_rule(o2[k - hl.len() - o1.len()]);
        } else {
            assert(front[k] == Seq::<char>::empty());
            lemma_no_rule(Seq::<char>::empty());
        }
    }
    lemma_rules_none(front);
    // The rules' lines have no breaks either.
    lemma_workspace_seq_len(p.workspaces, p.workspaces.len() as int);
    assert forall|k: int| 0 <= k < w.len() implies no_break(#[trigger] w[k]) by {
        lemma_workspace_seq_plain(p.workspaces, p.workspaces.len() as int, k);
    }
    assert forall|k: int| 0 <= k < all.len() implies no_break(#[trigger] all[k]) by {
        if k < front.len() {
            assert(all[k] == front[k]);
            assert(clean(front[k]));
        } else {
            assert(all[k] == w[k - front.len()]);
        }
    }
    lemma_clean_plain(all);
    crate::text::lemma_lines_after_terminated(all, Seq::empty());
    assert(terminated(all) + Seq::<char>::empty() =~= terminated(all));
    assert(lines(Seq::<char>::empty()) =~= Seq::<Seq<char>>::empty());
    assert(all + Seq::<Seq<char>>::empty() =~= all);
    lemma_rules_append(front, w);
    lemma_rules_of_workspace_seq(p.workspaces, p.workspaces.len() as int);
    assert(p.workspaces.take(p.workspaces.len() as int) =~= p.workspaces);
    assert(Seq::<WorkspaceRuleView>::empty() + p.workspaces =~= p.workspaces);
}

proof fn lemma_workspace_seq_len(ws: Seq<WorkspaceRuleView>, n: int)
    requires
        0 <= n,
    ensures
        conf_workspace_seq(ws, n).len() == n,
    decreases n,
{
    if n > 0 {
        lemma_workspace_seq_len(ws, n - 1);
    }
}

proof fn lemma_workspace_seq_plain(ws: Seq<WorkspaceRuleView>, n: int, k: int)
    requires
        0 <= k < n <= ws.len(),
        forall|j: int|
            0 <= j < ws.len() ==> rule_field((#[trigger] ws[j]).workspace) && rule_field(ws[j].monitor),
    ensures
        no_break(conf_workspace_seq(ws, n)[k]),
    decreases n,
{
    lemma_workspace_seq_len(ws, n - 1);
    if k < n - 1 {
        lemma_workspace_seq_plain(ws, n - 1, k);
        assert(conf_workspace_seq(ws, n)[k] == conf_workspace_seq(ws, n - 1)[k]);
    } else {
        reveal_strlit("workspace = ");
        reveal_strlit(", monitor:");
        reveal_strlit(", default:true");
        let w = ws[n - 1];
        assert(rule_field(w.workspace) && rule_field(w.monitor));
        let line = conf_workspace_line(w).drop_last();
        assert(line =~= "workspace = "@ + w.workspace + ", monitor:"@ + w.monitor + optional(
            w.default,
            ", default:true"@,
        ));
        assert(conf_workspace_seq(ws, n)[k] == line);
    }
}

/// No line break and no carriage return.
pub open spec fn no_break(s: Seq<char>) -> bool {
    forall|i: int| 0 <= i < s.len() ==> s[i] != '\n' && s[i] != '\r'
}

} // verus!
