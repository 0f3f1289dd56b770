//! Turning a decoded TOML profile into a [`Profile`]. Every failure is
//! contained: a bad value is a warning or an error, never a panic.
//!
//! The TOML text itself is decoded (with `deny_unknown_fields`) into a
//! [`RawProfile`] by the caller; everything decided after that is here.
use vstd::prelude::*;
use crate::model::{
    EdpPolicy, GpuPref, Mode, Monitor, MonitorView, Number, Profile, ProfileView, WorkspaceRule,
    WorkspaceRuleView, mode_opt_view, mode_parse, monitors_view, rules_view, strings_view,
};
use crate::num::{debug_quoted, debug_text, nat_text, push_nat};
use crate::text::{chars_of, push_str, trim, trim_range};

verus! {

/// A problem met while loading profiles, and where.
#[derive(Debug, Clone, PartialEq)]
pub struct Diagnostic {
    pub source: String,
    pub message: String,
}

#[verifier::ext_equal]
pub struct DiagnosticView {
    pub source: Seq<char>,
    pub message: Seq<char>,
}

impl View for Diagnostic {
    type V = DiagnosticView;

    open spec fn view(&self) -> DiagnosticView {
        DiagnosticView { source: self.source@, message: self.message@ }
    }
}

pub open spec fn diagnostics_view(d: Seq<Diagnostic>) -> Seq<DiagnosticView> {
    d.map_values(|x: Diagnostic| x@)
}

/// A `scale` as decoded: the `f64`'s `Display` text, and whether it is
/// finite and positive.
#[derive(Debug, Clone, PartialEq)]
pub struct RawScale {
    pub text: String,
    pub valid: bool,
}

/// A `[[monitor]]` table as decoded.
#[derive(Debug, Clone, PartialEq)]
pub struct RawMonitor {
    pub output: String,
    pub mode: Option<String>,
    pub scale: Option<RawScale>,
    pub position: Option<[i32; 2]>,
    pub transform: Option<u8>,
    pub enabled: Option<bool>,
}

/// A `[[workspace]]` table as decoded.
#[derive(Debug, Clone, PartialEq)]
pub struct RawWorkspace {
    pub workspace: String,
    pub monitor: String,
    pub default: bool,
}

/// A profile file as decoded, each key at its default when absent.
#[derive(Debug, Clone, PartialEq)]
pub struct RawProfile {
    pub description: String,
    pub matches: Vec<String>,
    pub edp: Option<String>,
    pub gpu: Option<String>,
    pub hooks: Vec<String>,
    pub priority: Option<i64>,
    pub monitor: Vec<RawMonitor>,
    pub workspace: Vec<RawWorkspace>,
}

#[verifier::ext_equal]
pub struct RawMonitorView {
    pub output: Seq<char>,
    pub mode: Option<Seq<char>>,
    pub scale: Option<(Seq<char>, bool)>,
    pub position: Option<(i32, i32)>,
    pub transform: Option<u8>,
    pub enabled: Option<bool>,
}

impl View for RawMonitor {
    type V = RawMonitorView;

    open spec fn view(&self) -> RawMonitorView {
        RawMonitorView {
            output: self.output@,
            mode: match self.mode {
                Some(m) => Some(m@),
                None => None,
            },
            scale: match self.scale {
                Some(s) => Some((s.text@, s.valid)),
                None => None,
            },
            position: match self.position {
                Some(p) => Some((p[0], p[1])),
                None => None,
            },
            transform: self.transform,
            enabled: self.enabled,
        }
    }
}

#[verifier::ext_equal]
pub struct RawProfileView {
    pub description: Seq<char>,
    pub matches: Seq<Seq<char>>,
    pub edp: Option<Seq<char>>,
    pub gpu: Option<Seq<char>>,
    pub hooks: Seq<Seq<char>>,
    pub priority: Option<i64>,
    pub monitor: Seq<RawMonitorView>,
    pub workspace: Seq<WorkspaceRuleView>,
}

impl View for RawProfile {
    type V = RawProfileView;

    open spec fn view(&self) -> RawProfileView {
        RawProfileView {
            description: self.description@,
            matches: strings_view(self.matches@),
            edp: match self.edp {
                Some(e) => Some(e@),
                None => None,
            },
            gpu: match self.gpu {
                Some(g) => Some(g@),
                None => None,
            },
            hooks: strings_view(self.hooks@),
            priority: self.priority,
            monitor: self.monitor@.map_values(|m: RawMonitor| m@),
            workspace: self.workspace@.map_values(
                |w: RawWorkspace|
                    WorkspaceRuleView {
                        workspace: w.workspace@,
                        monitor: w.monitor@,
                        default: w.default,
                    },
            ),
        }
    }
}

/// One decoded monitor: the monitor it gives, if any, and its warnings.
pub open spec fn raw_monitor(m: RawMonitorView) -> (Option<MonitorView>, Seq<Seq<char>>) {
    if trim(m.output).len() == 0 {
        (None, seq!["skipping monitor with empty output"@])
    } else {
        let (mode, mode_warn): (Option<crate::model::ModeView>, Seq<Seq<char>>) = match m.mode {
            None => (None, seq![]),
            Some(s) => match mode_parse(s) {
                Some(x) => (Some(x), seq![]),
                None => (
                    None,
                    seq![m.output + ": unparseable mode "@ + debug_text(s) + "; using preferred"@],
                ),
            },
        };
        let (scale, scale_warn): (Seq<char>, Seq<Seq<char>>) = match m.scale {
            None => (seq!['1'], seq![]),
            Some((text, valid)) => if valid {
                (text, seq![])
            } else {
                (seq!['1'], seq![m.output + ": invalid scale "@ + text + "; using 1.0"@])
            },
        };
        let (transform, transform_warn): (u8, Seq<Seq<char>>) = match m.transform {
            None => (0, seq![]),
            Some(t) => if t <= 7 {
                (t, seq![])
            } else {
                (
                    0,
                    seq![
                        m.output + ": transform "@ + nat_text(t as nat)
                            + " out of range 0..=7; using 0"@,
                    ],
                )
            },
        };
        (
            Some(
                MonitorView {
                    output: m.output,
                    mode,
                    scale,
                    position: m.position,
                    transform,
                    enabled: match m.enabled {
                        Some(e) => e,
                        None => true,
                    },
                },
            ),
            mode_warn + scale_warn + transform_warn,
        )
    }
}

/// The monitors of the first `n` decoded ones, and their warnings.
pub open spec fn raw_monitors(ms: Seq<RawMonitorView>, n: int) -> (Seq<MonitorView>, Seq<Seq<char>>)
    decreases n,
{
    if n <= 0 {
        (seq![], seq![])
    } else {
        let (out, warns) = raw_monitors(ms, n - 1);
        let (m, w) = raw_monitor(ms[n - 1]);
        (
            match m {
                Some(x) => out.push(x),
                None => out,
            },
            warns + w,
        )
    }
}

/// `from_toml` after decoding: the profile and its warnings, or the error
/// that makes the file unusable.
pub open spec fn profile_from_raw(name: Seq<char>, raw: RawProfileView) -> Result<
    (ProfileView, Seq<Seq<char>>),
    Seq<char>,
> {
    if raw.matches.len() == 0 {
        Err("profile has no `match` entries"@)
    } else {
        let edp = match raw.edp {
            None => Some(EdpPolicy::Auto),
            Some(v) => EdpPolicy::from_keyword(v),
        };
        let gpu = match raw.gpu {
            None => Some(GpuPref::Auto),
            Some(v) => GpuPref::from_keyword(v),
        };
        match (edp, gpu) {
            (None, _) => Err("edp must be auto|enable|disable, got "@ + debug_text(raw.edp.unwrap())),
            (_, None) => Err("gpu must be auto|igpu|dgpu, got "@ + debug_text(raw.gpu.unwrap())),
            (Some(e), Some(g)) => {
                let (monitors, warnings) = raw_monitors(raw.monitor, raw.monitor.len() as int);
                Ok(
                    (
                        ProfileView {
                            name,
                            description: raw.description,
                            matches: raw.matches,
                            edp: e,
                            gpu: g,
                            hooks: raw.hooks,
                            priority: match raw.priority {
                                Some(p) => p,
                                None => raw.matches.len() as i64,
                            },
                            monitors,
                            workspaces: raw.workspace,
                        },
                        warnings,
                    ),
                )
            },
        }
    }
}

fn message(a: &String, b: &str, c: &str, d: &str) -> (s: String)
    ensures
        s@ == a@ + b@ + c@ + d@,
{
    let mut s = a.clone();
    push_str(&mut s, b);
    push_str(&mut s, c);
    push_str(&mut s, d);
    assert(s@ =~= a@ + b@ + c@ + d@);
    s
}

/// One decoded monitor, as `raw_monitor` says.
fn monitor_from_raw(m: &RawMonitor, warnings: &mut Vec<String>) -> (r: Option<Monitor>)
    ensures
        match r {
            Some(x) => raw_monitor(m@).0 == Some(x@),
            None => raw_monitor(m@).0 is None,
        },
        final(warnings)@.map_values(|s: String| s@) == old(warnings)@.map_values(|s: String| s@)
            + raw_monitor(m@).1,
{
    let ghost w0 = warnings@.map_values(|s: String| s@);
    let v = chars_of(m.output.as_str());
    let (a, b) = trim_range(&v, 0, v.len());
    assert(v@.subrange(0, v@.len() as int) =~= m.output@);
    if a == b {
        warnings.push(String::from_str("skipping monitor with empty output"));
        proof {
            reveal_strlit("skipping monitor with empty output");
        }
        assert(warnings@.map_values(|s: String| s@) =~= w0 + raw_monitor(m@).1);
        return None;
    }
    let ghost w1 = warnings@.map_values(|s: String| s@);
    let mode = match &m.mode {
        None => None,
        Some(s) => match Mode::parse(s.as_str()) {
            Some(x) => Some(x),
            None => {
                let q = debug_quoted(s.as_str());
                warnings.push(message(&m.output, ": unparseable mode ", q.as_str(), "; using preferred"));
                None
            },
        },
    };
    let scale = match &m.scale {
        None => Number::one(),
        Some(s) => if s.valid {
            Number { literal: s.text.clone() }
        } else {
            warnings.push(message(&m.output, ": invalid scale ", s.text.as_str(), "; using 1.0"));
            Number::one()
        },
    };
    let transform = match m.transform {
        None => 0,
        Some(t) => if t <= 7 {
            t
        } else {
            let mut digits = String::new();
            push_nat(&mut digits, t as u64);
            warnings.push(message(&m.output, ": transform ", digits.as_str(), " out of range 0..=7; using 0"));
            0
        },
    };
    let position = match m.position {
        Some(p) => Some((p[0], p[1])),
        None => None,
    };
    let enabled = match m.enabled {
        Some(e) => e,
        None => true,
    };
    let r = Monitor { output: m.output.clone(), mode, scale, position, transform, enabled };
    assert(warnings@.map_values(|s: String| s@) =~= w0 + raw_monitor(m@).1);
    Some(r)
}

/// The profile a decoded TOML file describes, named `name`, with the
/// warnings met; or the error that makes it unusable.
pub fn from_raw(name: &str, raw: RawProfile) -> (r: Result<(Profile, Vec<String>), String>)
    ensures
        match r {
            Ok((p, w)) => profile_from_raw(name@, raw@) == Ok::<_, Seq<char>>(
                (p@, strings_view(w@)),
            ),
            Err(e) => profile_from_raw(name@, raw@) == Err::<(ProfileView, Seq<Seq<char>>), _>(
                e@,
            ),
        },
{
    let ghost rv = raw@;
    if raw.matches.len() == 0 {
        return Err(String::from_str("profile has no `match` entries"));
    }
    let edp = match &raw.edp {
        None => EdpPolicy::Auto,
        Some(v) => match EdpPolicy::parse(v.as_str()) {
            Some(e) => e,
            None => {
                let mut s = String::from_str("edp must be auto|enable|disable, got ");
                let q = debug_quoted(v.as_str());
                push_str(&mut s, q.as_str());
                return Err(s);
            },
        },
    };
    let gpu = match &raw.gpu {
        None => GpuPref::Auto,
        Some(v) => match GpuPref::parse(v.as_str()) {
            Some(g) => g,
            None => {
                let mut s = String::from_str("gpu must be auto|igpu|dgpu, got ");
                let q = debug_quoted(v.as_str());
                push_str(&mut s, q.as_str());
                return Err(s);
            },
        },
    };
    let mut warnings: Vec<String> = Vec::new();
    let mut monitors: Vec<Monitor> = Vec::new();
    let mut i: usize = 0;
    while i < raw.monitor.len()
        invariant
            i <= rv.monitor.len(),
            rv == raw@,
            (monitors_view(monitors@), strings_view(warnings@)) == raw_monitors(
                rv.monitor,
                i as int,
            ),
        decreases rv.monitor.len() - i,
    {
        let ghost before = monitors_view(monitors@);
        assert(rv.monitor[i as int] == raw.monitor@[i as int]@);
        match monitor_from_raw(&raw.monitor[i], &mut warnings) {
            Some(m) => {
                monitors.push(m);
                assert(monitors_view(monitors@) =~= before.push(m@));
            },
            None => {},
        }
        i += 1;
    }
    let priority = match raw.priority {
        Some(p) => p,
        None => raw.matches.len() as i64,
    };
    let RawProfile { description, matches, hooks, workspace, .. } = raw;
    let mut workspaces: Vec<WorkspaceRule> = Vec::new();
    let mut j: usize = 0;
    while j < workspace.len()
        invariant
            j <= workspace@.len(),
            rv.workspace == workspace@.map_values(
                |w: RawWorkspace|
                    WorkspaceRuleView {
                        workspace: w.workspace@,
                        monitor: w.monitor@,
                        default: w.default,
                    },
            ),
            rules_view(workspaces@) == rv.workspace.take(j as int),
        decreases workspace@.len() - j,
    {
        let w = &workspace[j];
        let ghost before = rules_view(workspaces@);
        let rule = WorkspaceRule {
            workspace: w.workspace.clone(),
            monitor: w.monitor.clone(),
            default: w.default,
        };
        assert(rule@ == rv.workspace[j as int]);
        workspaces.push(rule);
        assert(rules_view(workspaces@) =~= before.push(rule@));
        assert(rv.workspace.take(j + 1) =~= rv.workspace.take(j as int).push(rv.workspace[j as int]));
        j += 1;
        assert(rules_view(workspaces@) =~= rv.workspace.take(j as int));
    }
    assert(rv.workspace.take(workspace@.len() as int) =~= rv.workspace);
    let p = Profile {
        name: String::from_str(name),
        description,
        matches,
        edp,
        gpu,
        hooks,
        priority,
        monitors,
        workspaces,
    };
    Ok((p, warnings))
}

/// The outputs of the first `n` decoded monitor tables that are not blank.
pub open spec fn nonblank_outputs(ms: Seq<RawMonitorView>, n: int) -> Seq<Seq<char>>
    decreases n,
{
    if n <= 0 {
        Seq::empty()
    } else if trim(ms[n - 1].output).len() == 0 {
        nonblank_outputs(ms, n - 1)
    } else {
        nonblank_outputs(ms, n - 1).push(ms[n - 1].output)
    }
}

/// A scale a loaded monitor may carry: `1`, or a decoded scale that is
/// finite and positive.
pub open spec fn loaded_scale(s: Seq<char>, ms: Seq<RawMonitorView>) -> bool {
    s == seq!['1'] || exists|i: int|
        0 <= i < ms.len() && #[trigger] ms[i].scale == Some((s, true))
}

/// What a loaded profile is: named as asked, with at least one `match`
/// entry, the decoded priority or else the number of `match` entries, and
/// exactly the monitor tables whose output is not blank, in order; every
/// monitor has a transform in `0..=7`, a mode (if any) with a positive
/// width and height, and a scale that is `1` or a decoded finite positive
/// one.
pub proof fn loaded_profile_shape(name: Seq<char>, raw: RawProfileView)
    ensures
        profile_from_raw(name, raw) matches Ok((p, _)) ==> {
            &&& p.name == name
            &&& p.matches == raw.matches
            &&& p.matches.len() > 0
            &&& p.priority == match raw.priority {
                Some(q) => q,
                None => raw.matches.len() as i64,
            }
            &&& p.monitors.map_values(|m: MonitorView| m.output) == nonblank_outputs(
                raw.monitor,
                raw.monitor.len() as int,
            )
            &&& forall|i: int|
                0 <= i < p.monitors.len() ==> {
                    &&& trim((#[trigger] p.monitors[i]).output).len() > 0
                    &&& p.monitors[i].transform <= 7
                    &&& (p.monitors[i].mode matches Some(z) ==> z.width > 0 && z.height > 0)
                    &&& loaded_scale(p.monitors[i].scale, raw.monitor)
                }
        },
{
    lemma_raw_monitors_shape(raw.monitor, raw.monitor.len() as int);
}

proof fn lemma_raw_monitors_shape(ms: Seq<RawMonitorView>, n: int)
    requires
        0 <= n <= ms.len(),
    ensures
        raw_monitors(ms, n).0.map_values(|m: MonitorView| m.output) == nonblank_outputs(ms, n),
        forall|i: int|
            0 <= i < raw_monitors(ms, n).0.len() ==> {
                &&& trim((#[trigger] raw_monitors(ms, n).0[i]).output).len() > 0
                &&& raw_monitors(ms, n).0[i].transform <= 7
                &&& (raw_monitors(ms, n).0[i].mode matches Some(z) ==> z.width > 0 && z.height > 0)
                &&& loaded_scale(raw_monitors(ms, n).0[i].scale, ms)
            },
    decreases n,
{
    if n > 0 {
        lemma_raw_monitors_shape(ms, n - 1);
        let prev = raw_monitors(ms, n - 1).0;
        let cur = raw_monitors(ms, n).0;
        let m = ms[n - 1];
        if trim(m.output).len() > 0 {
            assert(cur == prev.push(raw_monitor(m).0.unwrap()));
            assert(cur.map_values(|x: MonitorView| x.output) =~= prev.map_values(
                |x: MonitorView| x.output,
            ).push(m.output));
            match m.scale {
                Some((t, v)) => {
                    if v {
                        assert(ms[n - 1].scale == Some((t, true)));
                    }
                },
                None => {},
            }
            assert forall|i: int| 0 <= i < cur.len() implies {
                &&& trim((#[trigger] cur[i]).output).len() > 0
                &&& cur[i].transform <= 7
                &&& (cur[i].mode matches Some(z) ==> z.width > 0 && z.height > 0)
                &&& loaded_scale(cur[i].scale, ms)
            } by {
                if i < prev.len() {
                    assert(cur[i] == prev[i]);
                }
            }
        } else {
            assert(cur == prev);
        }
    }
}

/// A profile without an explicit priority ranks by its number of `match`
/// entries.
pub proof fn default_priority_is_match_count(name: Seq<char>, raw: RawProfileView)
    requires
        raw.priority is None,
        raw.matches.len() <= i64::MAX,
    ensures
        profile_from_raw(name, raw) matches Ok((p, _)) ==> p.priority == p.matches.len(),
{
}

/// The positions, among the first `n` decoded monitor tables, of those
/// whose output is not blank.
pub open spec fn kept_tables(ms: Seq<RawMonitorView>, n: int) -> Seq<int>
    decreases n,
{
    if n <= 0 {
        Seq::empty()
    } else if trim(ms[n - 1].output).len() == 0 {
        kept_tables(ms, n - 1)
    } else {
        kept_tables(ms, n - 1).push(n - 1)
    }
}

/// Monitor `k` as the decoded table `j` describes it: its output and
/// position as written, its mode the parse of the mode text (none when
/// there is no text or it does not parse), the transform when in `0..=7`
/// (else 0), the scale when valid (else 1), enabled unless it says not.
pub open spec fn loaded_from_table(m: MonitorView, r: RawMonitorView) -> bool {
    &&& m.output == r.output
    &&& m.mode == match r.mode {
        Some(s) => mode_parse(s),
        None => None,
    }
    &&& m.position == r.position
    &&& m.enabled == match r.enabled {
        Some(e) => e,
        None => true,
    }
    &&& m.transform == match r.transform {
        Some(t) => if t <= 7 {
            t
        } else {
            0
        },
        None => 0,
    }
    &&& m.scale == match r.scale {
        Some((t, v)) => if v {
            t
        } else {
            seq!['1']
        },
        None => seq!['1'],
    }
}

/// A loaded profile's monitors are the non-blank decoded tables, in order,
/// each read field by field: in particular a monitor's mode is exactly what
/// its mode text parses to, width, height and refresh alike.
pub proof fn loaded_monitors_follow_their_tables(name: Seq<char>, raw: RawProfileView)
    ensures
        profile_from_raw(name, raw) matches Ok((p, _)) ==> {
            let ks = kept_tables(raw.monitor, raw.monitor.len() as int);
            &&& p.monitors.len() == ks.len()
            &&& forall|k: int|
                0 <= k < ks.len() ==> {
                    &&& 0 <= #[trigger] ks[k] < raw.monitor.len()
                    &&& trim(raw.monitor[ks[k]].output).len() > 0
                    &&& loaded_from_table(p.monitors[k], raw.monitor[ks[k]])
                }
            &&& forall|a: int, b: int| 0 <= a < b < ks.len() ==> #[trigger] ks[a] < #[trigger] ks[b]
            &&& forall|j: int|
                0 <= j < raw.monitor.len() && trim(#[trigger] raw.monitor[j].output).len() > 0
                    ==> ks.contains(j)
        },
{
    lemma_kept_tables(raw.monitor, raw.monitor.len() as int);
}

proof fn lemma_kept_tables(ms: Seq<RawMonitorView>, n: int)
    requires
        0 <= n <= ms.len(),
    ensures
        raw_monitors(ms, n).0.len() == kept_tables(ms, n).len(),
        forall|k: int|
            0 <= k < kept_tables(ms, n).len() ==> {
                &&& 0 <= #[trigger] kept_tables(ms, n)[k] < n
                &&& trim(ms[kept_tables(ms, n)[k]].output).len() > 0
                &&& loaded_from_table(raw_monitors(ms, n).0[k], ms[kept_tables(ms, n)[k]])
            },
        forall|a: int, b: int|
            0 <= a < b < kept_tables(ms, n).len() ==> #[trigger] kept_tables(ms, n)[a]
                < #[trigger] kept_tables(ms, n)[b],
        forall|j: int|
            0 <= j < n && trim(#[trigger] ms[j].output).len() > 0 ==> kept_tables(ms, n).contains(j),
    decreases n,
{
    if n > 0 {
        lemma_kept_tables(ms, n - 1);
        let ks0 = kept_tables(ms, n - 1);
        let ks = kept_tables(ms, n);
        let prev = raw_monitors(ms, n - 1).0;
        let cur = raw_monitors(ms, n).0;
        let r = ms[n - 1];
        if trim(r.output).len() > 0 {
            assert(cur == prev.push(raw_monitor(r).0.unwrap()));
            assert(ks == ks0.push(n - 1));
            assert(loaded_from_table(raw_monitor(r).0.unwrap(), r));
            assert forall|k: int| 0 <= k < ks.len() implies {
                &&& 0 <= #[trigger] ks[k] < n
                &&& trim(ms[ks[k]].output).len() > 0
                &&& loaded_from_table(cur[k], ms[ks[k]])
            } by {
                if k < ks0.len() {
                    assert(ks[k] == ks0[k]);
                    assert(cur[k] == prev[k]);
                }
            }
            assert forall|j: int| 0 <= j < n && trim(#[trigger] ms[j].output).len() > 0 implies ks.contains(j) by {
                if j < n - 1 {
                    let k = choose|k: int| 0 <= k < ks0.len() && ks0[k] == j;
                    assert(ks[k] == j);
                } else {
                    assert(ks[ks0.len() as int] == j);
                }
            }
        } else {
            assert(cur == prev);
            assert(ks == ks0);
            assert forall|j: int| 0 <= j < n && trim(#[trigger] ms[j].output).len() > 0 implies ks.contains(j) by {
                if j < n - 1 {
                    let k = choose|k: int| 0 <= k < ks0.len() && ks0[k] == j;
                    assert(ks[k] == j);
                }
            }
        }
    }
}

} // verus!
