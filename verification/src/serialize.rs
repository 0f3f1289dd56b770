//! Writes a [`Profile`] back to the neutral TOML dialect.
//!
//! TOML is the only hand-edited source of truth: session managers and tools
//! write through [`to_toml`] rather than emitting compositor dialects.
use vstd::prelude::*;
use crate::layout::{Metrics, MetricsView, metrics_fit, metrics_view};
use crate::model::{EdpPolicy, GpuPref, MonitorView, Profile, ProfileView, WorkspaceRuleView, mode_text};
use crate::num::{int_text, nat_text, push_int, push_nat};
use crate::text::{push_char, push_str};

verus! {

/// A character as it stands inside a TOML basic string of ours: `\` and `"`
/// escaped with a backslash, anything else as it is.
pub open spec fn escape_char(c: char) -> Seq<char> {
    if c == '\\' {
        seq!['\\', '\\']
    } else if c == '"' {
        seq!['\\', '"']
    } else {
        seq![c]
    }
}

pub open spec fn escape(s: Seq<char>) -> Seq<char>
    decreases s.len(),
{
    if s.len() == 0 {
        Seq::empty()
    } else {
        escape(s.drop_last()) + escape_char(s.last())
    }
}

/// `s` as a TOML basic string (no multi-line values occur).
pub open spec fn quoted(s: Seq<char>) -> Seq<char> {
    seq!['"'] + escape(s) + seq!['"']
}

/// Undoes `escape`: a backslash takes the character after it literally.
pub open spec fn unescape(s: Seq<char>) -> Seq<char>
    decreases s.len(),
{
    if s.len() == 0 {
        Seq::empty()
    } else if s[0] == '\\' && s.len() >= 2 {
        seq![s[1]] + unescape(s.skip(2))
    } else {
        seq![s[0]] + unescape(s.skip(1))
    }
}

/// `s` as a TOML basic string.
pub fn quote(value: &str) -> (r: String)
    ensures
        r@ == quoted(value@),
{
    let v = crate::text::chars_of(value);
    let mut r = String::new();
    push_char(&mut r, '"');
    let mut i: usize = 0;
    while i < v.len()
        invariant
            i <= v@.len(),
            v@ == value@,
            r@ == seq!['"'] + escape(v@.take(i as int)),
        decreases v@.len() - i,
    {
        let c = v[i];
        if c == '\\' {
            push_char(&mut r, '\\');
            push_char(&mut r, '\\');
        } else if c == '"' {
            push_char(&mut r, '\\');
            push_char(&mut r, '"');
        } else {
            push_char(&mut r, c);
        }
        assert(v@.take(i + 1).drop_last() =~= v@.take(i as int));
        i += 1;
        assert(r@ =~= seq!['"'] + escape(v@.take(i as int)));
    }
    push_char(&mut r, '"');
    assert(v@.take(v@.len() as int) =~= v@);
    assert(r@ =~= quoted(value@));
    r
}

proof fn lemma_escape_append(a: Seq<char>, b: Seq<char>)
    ensures
        escape(a + b) == escape(a) + escape(b),
    decreases b.len(),
{
    if b.len() == 0 {
        assert(a + b =~= a);
    } else {
        lemma_escape_append(a, b.drop_last());
        assert((a + b).drop_last() =~= a + b.drop_last());
        assert(escape(a + b) =~= escape(a) + escape(b));
    }
}

/// Quoting loses nothing: unescaping the escaped text gives the text back.
pub proof fn escape_round_trip(s: Seq<char>)
    ensures
        unescape(escape(s)) == s,
    decreases s.len(),
{
    if s.len() > 0 {
        let rest = s.drop_first();
        escape_round_trip(rest);
        assert(s =~= seq![s[0]] + rest);
        lemma_escape_append(seq![s[0]], rest);
        assert(escape(seq![s[0]]) =~= escape_char(s[0])) by {
            assert(seq![s[0]].drop_last() =~= Seq::<char>::empty());
            assert(escape(Seq::<char>::empty()) =~= Seq::<char>::empty());
            assert(seq![s[0]].last() == s[0]);
        }
        let e = escape_char(s[0]) + escape(rest);
        if s[0] == '\\' || s[0] == '"' {
            assert(e.skip(2) =~= escape(rest));
        } else {
            assert(e.skip(1) =~= escape(rest));
        }
        assert(unescape(e) =~= s);
    }
}

/// Items quoted and joined by `, `.
pub open spec fn quoted_list(items: Seq<Seq<char>>) -> Seq<char>
    decreases items.len(),
{
    if items.len() == 0 {
        Seq::empty()
    } else if items.len() == 1 {
        quoted(items[0])
    } else {
        quoted_list(items.drop_last()) + ", "@ + quoted(items.last())
    }
}

/// `key = "value"` and a newline.
pub open spec fn string_line(key: Seq<char>, value: Seq<char>) -> Seq<char> {
    key + " = "@ + quoted(value) + seq!['\n']
}

pub open spec fn optional(cond: bool, text: Seq<char>) -> Seq<char> {
    if cond {
        text
    } else {
        Seq::empty()
    }
}

pub open spec fn description_line(p: ProfileView) -> Seq<char> {
    optional(p.description.len() > 0, string_line("description"@, p.description))
}

pub open spec fn match_line(p: ProfileView) -> Seq<char> {
    "match = ["@ + quoted_list(p.matches) + "]\n"@
}

pub open spec fn edp_line(p: ProfileView) -> Seq<char> {
    optional(p.edp != EdpPolicy::Auto, string_line("edp"@, p.edp.keyword()))
}

pub open spec fn gpu_line(p: ProfileView) -> Seq<char> {
    optional(p.gpu != GpuPref::Auto, string_line("gpu"@, p.gpu.keyword()))
}

pub open spec fn hooks_line(p: ProfileView) -> Seq<char> {
    optional(p.hooks.len() > 0, "hooks = ["@ + quoted_list(p.hooks) + "]\n"@)
}

/// The priority is written only when it is not the default, the number of
/// `match` entries.
pub open spec fn priority_line(p: ProfileView) -> Seq<char> {
    optional(
        p.priority != p.matches.len(),
        "priority = "@ + int_text(p.priority as int) + seq!['\n'],
    )
}

/// The top-level keys of the TOML form; defaults are left out.
pub open spec fn toml_head(p: ProfileView) -> Seq<char> {
    description_line(p) + match_line(p) + edp_line(p) + gpu_line(p) + hooks_line(p)
        + priority_line(p)
}

pub open spec fn mode_line(m: MonitorView, mt: MetricsView) -> Seq<char> {
    match m.mode {
        Some(md) => string_line("mode"@, mode_text(md, mt.refresh_text)),
        None => Seq::empty(),
    }
}

pub open spec fn scale_line(mt: MetricsView) -> Seq<char> {
    optional(!mt.scale_is_default, "scale = "@ + mt.scale_text + seq!['\n'])
}

pub open spec fn position_line(m: MonitorView) -> Seq<char> {
    match m.position {
        Some((x, y)) => "position = ["@ + int_text(x as int) + ", "@ + int_text(y as int) + "]\n"@,
        None => Seq::empty(),
    }
}

pub open spec fn transform_line(m: MonitorView) -> Seq<char> {
    optional(m.transform != 0, "transform = "@ + nat_text(m.transform as nat) + seq!['\n'])
}

pub open spec fn enabled_line(m: MonitorView) -> Seq<char> {
    optional(!m.enabled, "enabled = false\n"@)
}

/// The `[[monitor]]` table of one monitor; defaults are left out.
pub open spec fn monitor_table(m: MonitorView, mt: MetricsView) -> Seq<char> {
    "\n[[monitor]]\n"@ + string_line("output"@, m.output) + mode_line(m, mt) + scale_line(mt)
        + position_line(m) + transform_line(m) + enabled_line(m)
}

pub open spec fn monitor_tables(ms: Seq<MonitorView>, mts: Seq<MetricsView>, n: int) -> Seq<char>
    decreases n,
{
    if n <= 0 {
        Seq::empty()
    } else {
        monitor_tables(ms, mts, n - 1) + monitor_table(ms[n - 1], mts[n - 1])
    }
}

/// The `[[workspace]]` table of one rule.
pub open spec fn workspace_table(w: WorkspaceRuleView) -> Seq<char> {
    "\n[[workspace]]\n"@ + string_line("workspace"@, w.workspace) + string_line(
        "monitor"@,
        w.monitor,
    ) + optional(w.default, "default = true\n"@)
}

pub open spec fn workspace_tables(ws: Seq<WorkspaceRuleView>, n: int) -> Seq<char>
    decreases n,
{
    if n <= 0 {
        Seq::empty()
    } else {
        workspace_tables(ws, n - 1) + workspace_table(ws[n - 1])
    }
}

/// The canonical TOML form of a profile (its name is the file's stem and is
/// not written).
pub open spec fn toml_text(p: ProfileView, mts: Seq<MetricsView>) -> Seq<char> {
    toml_head(p) + monitor_tables(p.monitors, mts, p.monitors.len() as int) + workspace_tables(
        p.workspaces,
        p.workspaces.len() as int,
    )
}

/// Appends `key = "value"` and a newline.
fn push_string_line(out: &mut String, key: &str, value: &str)
    ensures
        final(out)@ == old(out)@ + string_line(key@, value@),
{
    let ghost o = out@;
    push_str(out, key);
    push_str(out, " = ");
    let q = quote(value);
    push_str(out, q.as_str());
    push_char(out, '\n');
    assert(out@ =~= o + string_line(key@, value@));
}

/// Appends the items quoted and joined by `, `.
fn push_quoted_list(out: &mut String, items: &Vec<String>)
    ensures
        final(out)@ == old(out)@ + quoted_list(crate::model::strings_view(items@)),
{
    let ghost o = out@;
    let ghost xs = crate::model::strings_view(items@);
    let mut i: usize = 0;
    while i < items.len()
        invariant
            i <= items@.len(),
            xs == crate::model::strings_view(items@),
            out@ == o + quoted_list(xs.take(i as int)),
        decreases items@.len() - i,
    {
        let ghost before = out@;
        if i > 0 {
            push_str(out, ", ");
        }
        let q = quote(items[i].as_str());
        push_str(out, q.as_str());
        assert(xs.take(i + 1).drop_last() =~= xs.take(i as int));
        assert(xs[i as int] == items@[i as int]@);
        if i == 0 {
            assert(quoted_list(xs.take(1)) == quoted(xs[0]));
        }
        i += 1;
        assert(out@ =~= o + quoted_list(xs.take(i as int)));
    }
    assert(xs.take(items@.len() as int) =~= xs);
}

fn push_description_line(out: &mut String, profile: &Profile)
    ensures
        final(out)@ == old(out)@ + description_line(profile@),
{
    if !profile.description.as_str().is_empty() {
        push_string_line(out, "description", profile.description.as_str());
    } else {
        assert(old(out)@ + description_line(profile@) =~= old(out)@);
    }
}

fn push_match_line(out: &mut String, profile: &Profile)
    ensures
        final(out)@ == old(out)@ + match_line(profile@),
{
    let ghost o = out@;
    push_str(out, "match = [");
    push_quoted_list(out, &profile.matches);
    push_str(out, "]\n");
    assert(out@ =~= o + match_line(profile@));
}

fn push_policy_lines(out: &mut String, profile: &Profile)
    ensures
        final(out)@ == old(out)@ + edp_line(profile@) + gpu_line(profile@),
{
    let ghost o = out@;
    if profile.edp != EdpPolicy::Auto {
        push_string_line(out, "edp", profile.edp.as_str());
    }
    assert(out@ =~= o + edp_line(profile@));
    let ghost o2 = out@;
    if profile.gpu != GpuPref::Auto {
        push_string_line(out, "gpu", profile.gpu.as_str());
    }
    assert(out@ =~= o2 + gpu_line(profile@));
}

fn push_hooks_line(out: &mut String, profile: &Profile)
    ensures
        final(out)@ == old(out)@ + hooks_line(profile@),
{
    let ghost o = out@;
    if profile.hooks.len() > 0 {
        push_str(out, "hooks = [");
        push_quoted_list(out, &profile.hooks);
        push_str(out, "]\n");
    }
    assert(out@ =~= o + hooks_line(profile@));
}

fn push_priority_line(out: &mut String, profile: &Profile)
    ensures
        final(out)@ == old(out)@ + priority_line(profile@),
{
    let ghost o = out@;
    let count = profile.matches.len() as u64;
    if count > i64::MAX as u64 || profile.priority != count as i64 {
        push_str(out, "priority = ");
        push_int(out, profile.priority);
        push_char(out, '\n');
    }
    assert(out@ =~= o + priority_line(profile@));
}

/// Appends the top-level keys of `profile`.
fn push_head(out: &mut String, profile: &Profile)
    ensures
        final(out)@ == old(out)@ + toml_head(profile@),
{
    let ghost o = out@;
    let ghost p = profile@;
    push_description_line(out, profile);
    push_match_line(out, profile);
    push_policy_lines(out, profile);
    push_hooks_line(out, profile);
    push_priority_line(out, profile);
    assert(out@ =~= o + toml_head(p));
}

fn push_mode_line(out: &mut String, m: &crate::model::Monitor, t: &Metrics)
    ensures
        final(out)@ == old(out)@ + mode_line(m@, t@),
{
    let ghost o = out@;
    match &m.mode {
        Some(md) => {
            let text = md.text(&t.refresh_text);
            push_string_line(out, "mode", text.as_str());
        },
        None => {},
    }
    assert(out@ =~= o + mode_line(m@, t@));
}

fn push_scale_line(out: &mut String, t: &Metrics)
    ensures
        final(out)@ == old(out)@ + scale_line(t@),
{
    let ghost o = out@;
    if !t.scale_is_default {
        push_str(out, "scale = ");
        push_str(out, t.scale_text.as_str());
        push_char(out, '\n');
    }
    assert(out@ =~= o + scale_line(t@));
}

fn push_position_line(out: &mut String, m: &crate::model::Monitor)
    ensures
        final(out)@ == old(out)@ + position_line(m@),
{
    let ghost o = out@;
    match m.position {
        Some((x, y)) => {
            push_str(out, "position = [");
            push_int(out, x as i64);
            push_str(out, ", ");
            push_int(out, y as i64);
            push_str(out, "]\n");
        },
        None => {},
    }
    assert(out@ =~= o + position_line(m@));
}

fn push_flag_lines(out: &mut String, m: &crate::model::Monitor)
    ensures
        final(out)@ == old(out)@ + transform_line(m@) + enabled_line(m@),
{
    let ghost o = out@;
    if m.transform != 0 {
        push_str(out, "transform = ");
        push_nat(out, m.transform as u64);
        push_char(out, '\n');
    }
    assert(out@ =~= o + transform_line(m@));
    let ghost o2 = out@;
    if !m.enabled {
        push_str(out, "enabled = false\n");
    }
    assert(out@ =~= o2 + enabled_line(m@));
}

/// Appends the `[[monitor]]` table of `m`.
fn push_monitor_table(out: &mut String, m: &crate::model::Monitor, t: &Metrics)
    ensures
        final(out)@ == old(out)@ + monitor_table(m@, t@),
{
    let ghost before = out@;
    push_str(out, "\n[[monitor]]\n");
    push_string_line(out, "output", m.output.as_str());
    push_mode_line(out, m, t);
    push_scale_line(out, t);
    push_position_line(out, m);
    push_flag_lines(out, m);
    assert(out@ =~= before + monitor_table(m@, t@));
}

/// Appends the `[[workspace]]` table of `w`.
fn push_workspace_table(out: &mut String, w: &crate::model::WorkspaceRule)
    ensures
        final(out)@ == old(out)@ + workspace_table(w@),
{
    let ghost before = out@;
    push_str(out, "\n[[workspace]]\n");
    push_string_line(out, "workspace", w.workspace.as_str());
    push_string_line(out, "monitor", w.monitor.as_str());
    if w.default {
        push_str(out, "default = true\n");
    }
    assert(out@ =~= before + workspace_table(w@));
}

/// The canonical TOML form of `profile`, given the floating-point texts of
/// its monitors.
pub fn to_toml(profile: &Profile, metrics: &[Metrics]) -> (s: String)
    requires
        metrics_fit(profile@.monitors, metrics_view(metrics@)),
    ensures
        s@ == toml_text(profile@, metrics_view(metrics@)),
{
    let ghost p = profile@;
    let ghost mts = metrics_view(metrics@);
    let mut out = String::new();
    push_head(&mut out, profile);
    assert(out@ =~= toml_head(p));
    let mut i: usize = 0;
    while i < profile.monitors.len()
        invariant
            i <= p.monitors.len(),
            p == profile@,
            mts == metrics_view(metrics@),
            metrics_fit(p.monitors, mts),
            out@ == toml_head(p) + monitor_tables(p.monitors, mts, i as int),
        decreases p.monitors.len() - i,
    {
        assert(p.monitors[i as int] == profile.monitors[i as int]@);
        assert(mts[i as int] == metrics[i as int]@);
        push_monitor_table(&mut out, &profile.monitors[i], &metrics[i]);
        i += 1;
        assert(out@ =~= toml_head(p) + monitor_tables(p.monitors, mts, i as int));
    }
    let mut j: usize = 0;
    while j < profile.workspaces.len()
        invariant
            j <= p.workspaces.len(),
            p == profile@,
            mts == metrics_view(metrics@),
            out@ == toml_head(p) + monitor_tables(p.monitors, mts, p.monitors.len() as int)
                + workspace_tables(p.workspaces, j as int),
        decreases p.workspaces.len() - j,
    {
        assert(p.workspaces[j as int] == profile.workspaces[j as int]@);
        push_workspace_table(&mut out, &profile.workspaces[j]);
        j += 1;
        assert(out@ =~= toml_head(p) + monitor_tables(p.monitors, mts, p.monitors.len() as int)
            + workspace_tables(p.workspaces, j as int));
    }
    out
}

/// The TOML form does not carry the profile's name: two profiles that
/// differ only in name, with the same metrics, have the same text.
pub proof fn toml_ignores_name(p: ProfileView, q: ProfileView, mts: Seq<MetricsView>)
    requires
        q == (ProfileView { name: q.name, ..p }),
    ensures
        toml_text(p, mts) == toml_text(q, mts),
{
    assert(toml_head(p) == toml_head(q));
}

/// The priority survives the TOML form: a profile whose priority differs
/// from its number of `match` entries, above or below, is written as the
/// same profile at the default priority with the line `priority = N` added,
/// `N` the decimal text of its priority, which reads back as it; a profile
/// at the default priority gets no such line.
pub proof fn toml_keeps_priority(p: ProfileView, mts: Seq<MetricsView>)
    requires
        p.matches.len() <= i64::MAX,
    ensures
        ({
            let d = ProfileView { priority: p.matches.len() as i64, ..p };
            &&& p.priority != p.matches.len() ==> exists|a: Seq<char>, b: Seq<char>|
                toml_text(p, mts) == a + "priority = "@ + int_text(p.priority as int) + seq!['\n']
                    + b && #[trigger] toml_text(d, mts) == a + b
            &&& p.priority == p.matches.len() ==> toml_text(p, mts) == toml_text(d, mts)
            &&& crate::num::parse_i64(int_text(p.priority as int)) == Some(p.priority)
        }),
{
    let d = ProfileView { priority: p.matches.len() as i64, ..p };
    crate::num::int_text_parses(p.priority);
    let a = description_line(p) + match_line(p) + edp_line(p) + gpu_line(p) + hooks_line(p);
    let b = monitor_tables(p.monitors, mts, p.monitors.len() as int) + workspace_tables(
        p.workspaces,
        p.workspaces.len() as int,
    );
    assert(priority_line(d) =~= Seq::<char>::empty());
    assert(toml_text(d, mts) =~= a + b);
    if p.priority != p.matches.len() {
        assert(toml_text(p, mts) =~= a + "priority = "@ + int_text(p.priority as int) + seq!['\n']
            + b);
    } else {
        assert(p == d);
    }
}

} // verus!
