//! Hyprland configuration generated from a profile: the `.conf` dialect and
//! the Lua one. Both are artifacts; the TOML stays the source of truth.
use vstd::prelude::*;
use crate::layout::{
    Metrics, MetricsView, ResolvedOutput, ResolvedOutputView, metrics_fit, metrics_view, placed,
    resolve_placed, resolve_spec, row_in_range, stand_in_outputs, stand_ins,
};
use crate::model::{EdpPolicy, GpuPref, MonitorView, Profile, ProfileView, WorkspaceRuleView, mode_text};
use crate::num::{debug_quoted, debug_text, int_text, nat_text, push_int, push_nat};
use crate::serialize::optional;
use crate::legacy::{
    HeaderView, directive, header_fold, header_run, header_start, header_step, is_ascii_lower,
    legacy_profile, lemma_header_run_append, lemma_header_run_done, lemma_header_run_start,
};
use crate::text::{
    is_ws, lemma_find_first, lemma_first_line, lemma_trim_start_plain, lemma_lines_after_terminated, lines, plain_lines, strip_cr, trim,
    trim_end, trim_start,
};
use crate::text::{terminated, chars_of, find_char, find_char_exec, push_char, push_str, starts_with_at, strip_prefix};

verus! {

/// One line when `cond` holds, none otherwise.
pub open spec fn line_if(cond: bool, line: Seq<char>) -> Seq<Seq<char>> {
    if cond {
        seq![line]
    } else {
        Seq::empty()
    }
}

/// `#@ key = value` (or with `--@`): a directive of the legacy dialects.
pub open spec fn directive_line(leader: Seq<char>, key: Seq<char>, value: Seq<char>) -> Seq<char> {
    leader + "@ "@ + key + " = "@ + value
}

/// The title line of the header.
pub open spec fn title_line(p: ProfileView, leader: Seq<char>) -> Seq<char> {
    leader + " Profile: "@ + p.name + " — generated from "@ + p.name
        + ".toml. Do not edit; edit the TOML."@
}

/// The comment header: a title line, an empty comment, the directives a
/// legacy reader takes back (`match` entries, non-default `edp`, `gpu` and
/// priority), and a blank line.
pub open spec fn header_lines(p: ProfileView, leader: Seq<char>) -> Seq<Seq<char>> {
    seq![title_line(p, leader), leader] + p.matches.map_values(
        |m: Seq<char>| directive_line(leader, "match"@, m),
    ) + line_if(p.edp != EdpPolicy::Auto, directive_line(leader, "edp"@, p.edp.keyword()))
        + line_if(p.gpu != GpuPref::Auto, directive_line(leader, "gpu"@, p.gpu.keyword()))
        + line_if(
        p.priority != p.matches.len(),
        directive_line(leader, "priority"@, int_text(p.priority as int)),
    ) + seq![Seq::<char>::empty()]
}

/// The metrics of the monitor behind each output.
pub open spec fn output_metrics(mts: Seq<MetricsView>, ps: Seq<int>) -> Seq<MetricsView> {
    ps.map_values(|i: int| mts[i])
}

/// `fmt_num` of the scale an output was given.
pub open spec fn scale_text_of(o: ResolvedOutputView, mt: MetricsView) -> Seq<char> {
    match (o.mode, mt.snapped) {
        (Some(_), Some(s)) => s.scale_text,
        _ => mt.scale_text,
    }
}

/// `XxY` of a position.
pub open spec fn position_text(p: (i32, i32)) -> Seq<char> {
    int_text(p.0 as int) + seq!['x'] + int_text(p.1 as int)
}

/// The `monitor =` line of one output.
pub open spec fn conf_output_line(o: ResolvedOutputView, mt: MetricsView) -> Seq<char> {
    if !o.enabled {
        "monitor = "@ + o.selector + ",disable\n"@
    } else if o.mode is Some {
        "monitor = "@ + o.selector + seq![','] + mode_text(o.mode.unwrap(), mt.refresh_text)
            + seq![','] + position_text(
            o.position,
        ) + seq![','] + scale_text_of(o, mt) + optional(
            o.transform != 0,
            ",transform,"@ + nat_text(o.transform as nat),
        ) + seq!['\n']
    } else {
        "monitor = "@ + o.selector + ",preferred,auto,"@ + scale_text_of(o, mt) + seq!['\n']
    }
}

/// The `hl.monitor` call of one output.
pub open spec fn lua_output_line(o: ResolvedOutputView, mt: MetricsView) -> Seq<char> {
    if !o.enabled {
        "hl.monitor({ output = "@ + debug_text(o.selector) + ", disabled = true })\n"@
    } else {
        let has_mode = o.mode is Some;
        let mode = if has_mode {
            mode_text(o.mode.unwrap(), mt.refresh_text)
        } else {
            "preferred"@
        };
        let pos = if has_mode {
            position_text(o.position)
        } else {
            "auto"@
        };
        "hl.monitor({ output = "@ + debug_text(o.selector) + ", mode = "@ + debug_text(mode)
            + ", position = "@ + debug_text(pos) + ", scale = "@ + debug_text(
            scale_text_of(o, mt),
        ) + optional(o.transform != 0, ", transform = "@ + nat_text(o.transform as nat))
            + " })\n"@
    }
}

/// The lines of the first `n` outputs whose `enabled` is `pass`, in the
/// dialect `lua` says.
pub open spec fn output_lines(
    outs: Seq<ResolvedOutputView>,
    mts: Seq<MetricsView>,
    pass: bool,
    lua: bool,
    n: int,
) -> Seq<char>
    decreases n,
{
    if n <= 0 {
        Seq::empty()
    } else {
        output_lines(outs, mts, pass, lua, n - 1) + optional(
            outs[n - 1].enabled == pass,
            if lua {
                lua_output_line(outs[n - 1], mts[n - 1])
            } else {
                conf_output_line(outs[n - 1], mts[n - 1])
            },
        )
    }
}

pub open spec fn conf_workspace_line(w: WorkspaceRuleView) -> Seq<char> {
    "workspace = "@ + w.workspace + ", monitor:"@ + w.monitor + optional(
        w.default,
        ", default:true"@,
    ) + seq!['\n']
}

pub open spec fn lua_workspace_line(w: WorkspaceRuleView) -> Seq<char> {
    "hl.workspace_rule({ workspace = "@ + debug_text(w.workspace) + ", monitor = "@ + debug_text(
        w.monitor,
    ) + optional(w.default, ", default = true"@) + " })\n"@
}

pub open spec fn workspace_lines(ws: Seq<WorkspaceRuleView>, lua: bool, n: int) -> Seq<char>
    decreases n,
{
    if n <= 0 {
        Seq::empty()
    } else {
        workspace_lines(ws, lua, n - 1) + if lua {
            lua_workspace_line(ws[n - 1])
        } else {
            conf_workspace_line(ws[n - 1])
        }
    }
}

/// The comment leader of a dialect.
pub open spec fn leader(lua: bool) -> Seq<char> {
    if lua {
        "--"@
    } else {
        seq!['#']
    }
}

/// A rendered profile: the header, the enabled outputs, the disabled ones,
/// and the workspace rules after a blank line.
pub open spec fn render_text(p: ProfileView, mts: Seq<MetricsView>, lua: bool) -> Seq<char> {
    let c = stand_ins(p.monitors);
    let l = resolve_spec(p.monitors, mts, c);
    let om = output_metrics(mts, placed(p.monitors, c, p.monitors.len() as int));
    let n = l.outputs.len() as int;
    terminated(header_lines(p, leader(lua))) + output_lines(l.outputs, om, true, lua, n)
        + output_lines(l.outputs, om, false, lua, n) + optional(
        p.workspaces.len() > 0,
        seq!['\n'],
    ) + workspace_lines(p.workspaces, lua, p.workspaces.len() as int)
}

/// A `desc:` selector whose description holds a comma, which the conf
/// dialect cannot express.
pub open spec fn has_comma(selector: Seq<char>) -> bool {
    strip_prefix(selector, "desc:"@) matches Some(d) && find_char(d, ',') is Some
}

pub open spec fn comma_warnings(ms: Seq<MonitorView>, n: int) -> Seq<Seq<char>>
    decreases n,
{
    if n <= 0 {
        Seq::empty()
    } else {
        comma_warnings(ms, n - 1) + line_if(
            has_comma(ms[n - 1].output),
            ms[n - 1].output + ": description contains a comma; the conf dialect cannot express it"@,
        )
    }
}

/// The warnings of a rendering: the layout's, then one per comma
/// description.
pub open spec fn render_warnings(p: ProfileView, mts: Seq<MetricsView>) -> Seq<Seq<char>> {
    resolve_spec(p.monitors, mts, stand_ins(p.monitors)).warnings + comma_warnings(
        p.monitors,
        p.monitors.len() as int,
    )
}

// ----------------------------------------------------------------------
fn push_line(out: &mut String, line: &String)
    ensures
        final(out)@ == old(out)@ + line@ + seq!['\n'],
{
    push_str(out, line.as_str());
    push_char(out, '\n');
}

/// A `String` holding `lead@ key = ` followed by `value`.
fn directive_string(lead: &str, key: &str, value: &str) -> (l: String)
    ensures
        l@ == directive_line(lead@, key@, value@),
{
    let mut l = String::new();
    push_str(&mut l, lead);
    push_str(&mut l, "@ ");
    push_str(&mut l, key);
    push_str(&mut l, " = ");
    push_str(&mut l, value);
    assert(l@ =~= directive_line(lead@, key@, value@));
    l
}

/// Appends the comment header.
fn push_header(out: &mut String, profile: &Profile, lead: &str)
    ensures
        final(out)@ == old(out)@ + terminated(header_lines(profile@, lead@)),
{
    let ghost p = profile@;
    let ghost ls = header_lines(p, lead@);
    let ghost o = out@;
    let mut lines: Vec<String> = Vec::new();
    let mut title = String::new();
    push_str(&mut title, lead);
    push_str(&mut title, " Profile: ");
    push_str(&mut title, profile.name.as_str());
    push_str(&mut title, " — generated from ");
    push_str(&mut title, profile.name.as_str());
    push_str(&mut title, ".toml. Do not edit; edit the TOML.");
    assert(title@ =~= title_line(p, lead@));
    lines.push(title);
    let mut second = String::new();
    push_str(&mut second, lead);
    assert(second@ =~= lead@);
    lines.push(second);
    let mut i: usize = 0;
    while i < profile.matches.len()
        invariant
            i <= p.matches.len(),
            p == profile@,
            lines@.map_values(|s: String| s@) == seq![ls[0], ls[1]] + p.matches.take(
                i as int,
            ).map_values(|m: Seq<char>| directive_line(lead@, "match"@, m)),
            ls == header_lines(p, lead@),
        decreases p.matches.len() - i,
    {
        let l = directive_string(lead, "match", profile.matches[i].as_str());
        assert(p.matches[i as int] == profile.matches@[i as int]@);
        let ghost before = lines@.map_values(|s: String| s@);
        lines.push(l);
        assert(lines@.map_values(|s: String| s@) =~= before.push(
            directive_line(lead@, "match"@, p.matches[i as int]),
        ));
        assert(p.matches.take(i + 1) =~= p.matches.take(i as int).push(p.matches[i as int]));
        i += 1;
        assert(lines@.map_values(|s: String| s@) =~= seq![ls[0], ls[1]] + p.matches.take(
            i as int,
        ).map_values(|m: Seq<char>| directive_line(lead@, "match"@, m)));
    }
    assert(p.matches.take(p.matches.len() as int) =~= p.matches);
    let ghost base = lines@.map_values(|s: String| s@);
    if profile.edp != EdpPolicy::Auto {
        lines.push(directive_string(lead, "edp", profile.edp.as_str()));
    }
    let ghost b1 = lines@.map_values(|s: String| s@);
    assert(b1 =~= base + line_if(
        p.edp != EdpPolicy::Auto,
        directive_line(lead@, "edp"@, p.edp.keyword()),
    ));
    if profile.gpu != GpuPref::Auto {
        lines.push(directive_string(lead, "gpu", profile.gpu.as_str()));
    }
    let ghost b2 = lines@.map_values(|s: String| s@);
    assert(b2 =~= b1 + line_if(
        p.gpu != GpuPref::Auto,
        directive_line(lead@, "gpu"@, p.gpu.keyword()),
    ));
    let count = profile.matches.len() as u64;
    if count > i64::MAX as u64 || profile.priority != count as i64 {
        let mut digits = String::new();
        push_int(&mut digits, profile.priority);
        lines.push(directive_string(lead, "priority", digits.as_str()));
    }
    let ghost b3 = lines@.map_values(|s: String| s@);
    assert(b3 =~= b2 + line_if(
        p.priority != p.matches.len(),
        directive_line(lead@, "priority"@, int_text(p.priority as int)),
    ));
    lines.push(String::new());
    assert(lines@.map_values(|s: String| s@) =~= ls);
    let mut k: usize = 0;
    while k < lines.len()
        invariant
            k <= lines@.len(),
            ls == lines@.map_values(|s: String| s@),
            out@ == o + terminated(ls.take(k as int)),
        decreases lines@.len() - k,
    {
        push_line(out, &lines[k]);
        assert(ls.take(k + 1).drop_last() =~= ls.take(k as int));
        k += 1;
    }
    assert(ls.take(ls.len() as int) =~= ls);
}

/// Appends the conf line of one output.
#[verifier::rlimit(40)]
#[verifier::spinoff_prover]
fn push_conf_output(out: &mut String, o: &ResolvedOutput, t: &Metrics)
    ensures
        final(out)@ == old(out)@ + conf_output_line(o@, t@),
{
    let ghost before = out@;
    let scale_text = match (&o.mode, &t.snapped) {
        (Some(_), Some(s)) => &s.scale_text,
        _ => &t.scale_text,
    };
    assert(scale_text@ == scale_text_of(o@, t@));
    if !o.enabled {
        push_str(out, "monitor = ");
        push_str(out, o.selector.as_str());
        push_str(out, ",disable\n");
        assert(out@ =~= before + conf_output_line(o@, t@));
    } else {
        match &o.mode {
            Some(md) => {
                let mode = md.text(&t.refresh_text);
                push_str(out, "monitor = ");
                push_str(out, o.selector.as_str());
                push_char(out, ',');
                push_str(out, mode.as_str());
                push_char(out, ',');
                push_int(out, o.position.0 as i64);
                push_char(out, 'x');
                push_int(out, o.position.1 as i64);
                push_char(out, ',');
                push_str(out, scale_text.as_str());
                let ghost mid = out@;
                if o.transform != 0 {
                    push_str(out, ",transform,");
                    push_nat(out, o.transform as u64);
                }
                assert(out@ =~= mid + optional(
                    o.transform != 0,
                    ",transform,"@ + nat_text(o.transform as nat),
                ));
                push_char(out, '\n');
                assert(out@ =~= before + conf_output_line(o@, t@));
            },
            _ => {
                push_str(out, "monitor = ");
                push_str(out, o.selector.as_str());
                push_str(out, ",preferred,auto,");
                push_str(out, scale_text.as_str());
                push_char(out, '\n');
                assert(out@ =~= before + conf_output_line(o@, t@));
            },
        }
    }
}

/// Appends the `hl.monitor` call of one output.
fn push_lua_output_line(out: &mut String, o: &ResolvedOutput, t: &Metrics)
    ensures
        final(out)@ == old(out)@ + lua_output_line(o@, t@),
{
    let ghost before = out@;
    let scale_text = match (&o.mode, &t.snapped) {
        (Some(_), Some(s)) => &s.scale_text,
        _ => &t.scale_text,
    };
    assert(scale_text@ == scale_text_of(o@, t@));
    if !o.enabled {
        push_str(out, "hl.monitor({ output = ");
        let q = debug_quoted(o.selector.as_str());
        push_str(out, q.as_str());
        push_str(out, ", disabled = true })\n");
        assert(out@ =~= before + lua_output_line(o@, t@));
    } else {
        match &o.mode {
            Some(md) => {
                let mode = md.text(&t.refresh_text);
                let mut pos = String::new();
                push_int(&mut pos, o.position.0 as i64);
                push_char(&mut pos, 'x');
                push_int(&mut pos, o.position.1 as i64);
                assert(pos@ =~= position_text(o.position));
                push_lua_output(out, o, mode.as_str(), pos.as_str(), scale_text.as_str());
            },
            _ => {
                proof {
                    reveal_strlit("preferred");
                    reveal_strlit("auto");
                }
                push_lua_output(out, o, "preferred", "auto", scale_text.as_str());
            },
        }
    }
}

/// Appends the line of one output.
fn push_output_line(out: &mut String, o: &ResolvedOutput, t: &Metrics, lua: bool)
    ensures
        final(out)@ == old(out)@ + if lua {
            lua_output_line(o@, t@)
        } else {
            conf_output_line(o@, t@)
        },
{
    if lua {
        push_lua_output_line(out, o, t);
    } else {
        push_conf_output(out, o, t);
    }
}

/// Appends an enabled `hl.monitor` call with the given mode, position and
/// scale texts.
fn push_lua_output(out: &mut String, o: &ResolvedOutput, mode: &str, pos: &str, scale: &str)
    ensures
        final(out)@ == old(out)@ + "hl.monitor({ output = "@ + debug_text(o.selector@)
            + ", mode = "@ + debug_text(mode@) + ", position = "@ + debug_text(pos@)
            + ", scale = "@ + debug_text(scale@) + optional(
            o.transform != 0,
            ", transform = "@ + nat_text(o.transform as nat),
        ) + " })\n"@,
{
    let ghost before = out@;
    push_str(out, "hl.monitor({ output = ");
    let q = debug_quoted(o.selector.as_str());
    push_str(out, q.as_str());
    push_str(out, ", mode = ");
    let q = debug_quoted(mode);
    push_str(out, q.as_str());
    push_str(out, ", position = ");
    let q = debug_quoted(pos);
    push_str(out, q.as_str());
    push_str(out, ", scale = ");
    let q = debug_quoted(scale);
    push_str(out, q.as_str());
    if o.transform != 0 {
        push_str(out, ", transform = ");
        push_nat(out, o.transform as u64);
    }
    push_str(out, " })\n");
    assert(out@ =~= before + "hl.monitor({ output = "@ + debug_text(o.selector@)
        + ", mode = "@ + debug_text(mode@) + ", position = "@ + debug_text(pos@)
        + ", scale = "@ + debug_text(scale@) + optional(
        o.transform != 0,
        ", transform = "@ + nat_text(o.transform as nat),
    ) + " })\n"@);
}

/// Appends the workspace rule line of `w`.
fn push_workspace_line(out: &mut String, w: &crate::model::WorkspaceRule, lua: bool)
    ensures
        final(out)@ == old(out)@ + if lua {
            lua_workspace_line(w@)
        } else {
            conf_workspace_line(w@)
        },
{
    let ghost before = out@;
    if lua {
        push_str(out, "hl.workspace_rule({ workspace = ");
        let q = debug_quoted(w.workspace.as_str());
        push_str(out, q.as_str());
        push_str(out, ", monitor = ");
        let q = debug_quoted(w.monitor.as_str());
        push_str(out, q.as_str());
        if w.default {
            push_str(out, ", default = true");
        }
        push_str(out, " })\n");
    } else {
        push_str(out, "workspace = ");
        push_str(out, w.workspace.as_str());
        push_str(out, ", monitor:");
        push_str(out, w.monitor.as_str());
        if w.default {
            push_str(out, ", default:true");
        }
        push_char(out, '\n');
    }
    assert(out@ =~= before + if lua {
        lua_workspace_line(w@)
    } else {
        conf_workspace_line(w@)
    });
}

/// The comma warnings of `profile`'s monitors, appended to `w`.
fn push_comma_warnings(w: &mut Vec<String>, profile: &Profile)
    ensures
        final(w)@.map_values(|s: String| s@) == old(w)@.map_values(|s: String| s@)
            + comma_warnings(profile@.monitors, profile@.monitors.len() as int),
{
    let ghost ms = profile@.monitors;
    let ghost w0 = w@.map_values(|s: String| s@);
    let mut i: usize = 0;
    while i < profile.monitors.len()
        invariant
            i <= ms.len(),
            ms == profile@.monitors,
            w@.map_values(|s: String| s@) == w0 + comma_warnings(ms, i as int),
        decreases ms.len() - i,
    {
        let out = &profile.monitors[i].output;
        assert(ms[i as int].output == out@);
        proof {
            reveal_strlit("desc:");
        }
        let v = chars_of(out.as_str());
        let n = v.len();
        assert(v@.subrange(0, n as int) =~= out@);
        let ghost before = w@.map_values(|s: String| s@);
        if starts_with_at(&v, 0, n, "desc:") {
            assert(out@.skip(5) =~= v@.subrange(5, n as int));
            if find_char_exec(&v, 5, n, ',').is_some() {
                let mut msg = out.clone();
                push_str(&mut msg, ": description contains a comma; the conf dialect cannot express it");
                w.push(msg);
                assert(w@.map_values(|s: String| s@) =~= before.push(msg@));
            }
        }
        i += 1;
        assert(w@.map_values(|s: String| s@) =~= w0 + comma_warnings(ms, i as int));
    }
}

/// Renders `profile` in the conf dialect (`lua` false) or the Lua one.
fn render(profile: &Profile, metrics: &[Metrics], lua: bool) -> (r: (String, Vec<String>))
    requires
        metrics_fit(profile@.monitors, metrics_view(metrics@)),
        row_in_range(profile@.monitors, metrics_view(metrics@), stand_ins(profile@.monitors)),
    ensures
        r.0@ == render_text(profile@, metrics_view(metrics@), lua),
        r.1@.map_values(|s: String| s@) == render_warnings(profile@, metrics_view(metrics@)),
{
    let ghost p = profile@;
    let ghost mts = metrics_view(metrics@);
    let ghost c = stand_ins(p.monitors);
    let connected = stand_in_outputs(profile);
    let (layout, idx) = resolve_placed(profile, &connected, metrics);
    let ghost l = resolve_spec(p.monitors, mts, c);
    let ghost ps = placed(p.monitors, c, p.monitors.len() as int);
    let ghost om = output_metrics(mts, ps);
    proof {
        crate::layout::lemma_placed(p.monitors, mts, c, p.monitors.len() as int);
        assert(layout@.outputs.len() == layout.outputs@.len());
    }
    let mut out = String::new();
    let lead = if lua {
        "--"
    } else {
        "#"
    };
    proof {
        reveal_strlit("--");
        reveal_strlit("#");
    }
    push_header(&mut out, profile, lead);
    assert(lead@ == leader(lua));
    let ghost head = out@;
    let mut pass_index: usize = 0;
    while pass_index < 2
        invariant
            pass_index <= 2,
            layout@ == l,
            idx@.map_values(|i: usize| i as int) == ps,
            om == output_metrics(mts, ps),
            mts == metrics_view(metrics@),
            ps.len() == l.outputs.len(),
            forall|k: int| 0 <= k < ps.len() ==> 0 <= #[trigger] ps[k] < metrics@.len(),
            out@ == head + optional(
                pass_index >= 1,
                output_lines(l.outputs, om, true, lua, l.outputs.len() as int),
            ) + optional(
                pass_index >= 2,
                output_lines(l.outputs, om, false, lua, l.outputs.len() as int),
            ),
        decreases 2 - pass_index,
    {
        let pass = pass_index == 0;
        let ghost start = out@;
        let mut k: usize = 0;
        while k < layout.outputs.len()
            invariant
                k <= l.outputs.len(),
                layout@ == l,
                idx@.map_values(|i: usize| i as int) == ps,
                om == output_metrics(mts, ps),
                mts == metrics_view(metrics@),
                ps.len() == l.outputs.len(),
                forall|j: int| 0 <= j < ps.len() ==> 0 <= #[trigger] ps[j] < metrics@.len(),
                out@ == start + output_lines(l.outputs, om, pass, lua, k as int),
            decreases l.outputs.len() - k,
        {
            let o = &layout.outputs[k];
            assert(l.outputs[k as int] == o@);
            assert(ps[k as int] == idx@[k as int] as int);
            let i = idx[k];
            assert(om[k as int] == metrics@[i as int]@);
            if o.enabled == pass {
                push_output_line(&mut out, o, &metrics[i], lua);
            }
            k += 1;
            assert(out@ =~= start + output_lines(l.outputs, om, pass, lua, k as int));
        }
        pass_index += 1;
        assert(out@ =~= head + optional(
            pass_index >= 1,
            output_lines(l.outputs, om, true, lua, l.outputs.len() as int),
        ) + optional(
            pass_index >= 2,
            output_lines(l.outputs, om, false, lua, l.outputs.len() as int),
        ));
    }
    let ghost body = out@;
    if profile.workspaces.len() > 0 {
        push_char(&mut out, '\n');
    }
    let ghost ws_start = out@;
    assert(ws_start =~= body + optional(p.workspaces.len() > 0, seq!['\n']));
    let mut j: usize = 0;
    while j < profile.workspaces.len()
        invariant
            j <= p.workspaces.len(),
            p == profile@,
            out@ == ws_start + workspace_lines(p.workspaces, lua, j as int),
        decreases p.workspaces.len() - j,
    {
        assert(p.workspaces[j as int] == profile.workspaces[j as int]@);
        push_workspace_line(&mut out, &profile.workspaces[j], lua);
        j += 1;
    }
    assert(out@ =~= render_text(p, mts, lua));
    let mut w = layout.warnings;
    assert(w@.map_values(|s: String| s@) == l.warnings);
    push_comma_warnings(&mut w, profile);
    (out, w)
}

/// The profile in Hyprland's conf dialect, with the warnings met.
pub fn render_conf(profile: &Profile, metrics: &[Metrics]) -> (r: (String, Vec<String>))
    requires
        metrics_fit(profile@.monitors, metrics_view(metrics@)),
        row_in_range(profile@.monitors, metrics_view(metrics@), stand_ins(profile@.monitors)),
    ensures
        r.0@ == render_text(profile@, metrics_view(metrics@), false),
        r.1@.map_values(|s: String| s@) == render_warnings(profile@, metrics_view(metrics@)),
{
    render(profile, metrics, false)
}

/// The profile in Hyprland's Lua dialect, with the warnings met.
pub fn render_lua(profile: &Profile, metrics: &[Metrics]) -> (r: (String, Vec<String>))
    requires
        metrics_fit(profile@.monitors, metrics_view(metrics@)),
        row_in_range(profile@.monitors, metrics_view(metrics@), stand_ins(profile@.monitors)),
    ensures
        r.0@ == render_text(profile@, metrics_view(metrics@), true),
        r.1@.map_values(|s: String| s@) == render_warnings(profile@, metrics_view(metrics@)),
{
    render(profile, metrics, true)
}

// ----------------------------------------------------------------------
// Reading a rendered header back with the legacy reader.
// ----------------------------------------------------------------------
/// A directive key: lower-case ASCII letters.
pub open spec fn key_word(k: Seq<char>) -> bool {
    k.len() > 0 && forall|i: int| 0 <= i < k.len() ==> is_ascii_lower(#[trigger] k[i])
}

/// A directive value that reads back unchanged: non-empty, with no
/// surrounding whitespace and no line break.
pub open spec fn directive_value(v: Seq<char>) -> bool {
    &&& v.len() > 0
    &&& trim(v) == v
    &&& forall|i: int| 0 <= i < v.len() ==> v[i] != '\n'
}

/// What follows the leader of a directive line.
proof fn lemma_directive_rest(lead: Seq<char>, key: Seq<char>, val: Seq<char>)
    requires
        lead == seq!['#'] || lead == seq!['-', '-'],
        key_word(key),
    ensures
        trim_start(directive_line(lead, key, val)) == directive_line(lead, key, val),
        "#@"@.is_prefix_of(directive_line(lead, key, val)) || "--@"@.is_prefix_of(
            directive_line(lead, key, val),
        ),
        crate::legacy::directive_rest(directive_line(lead, key, val)) == Some(key + " = "@ + val),
{
    reveal_strlit("#@");
    reveal_strlit("--@");
    reveal_strlit("@ ");
    let line = directive_line(lead, key, val);
    let n: int = lead.len() as int + 1;
    assert(line[0] == lead[0]);
    lemma_trim_start_plain(line);
    let rest = key + " = "@ + val;
    let after = seq![' '] + rest;
    assert(line =~= lead + seq!['@'] + after);
    assert(line.skip(n) =~= after);
    assert(after.drop_first() =~= rest);
    assert(is_ws(' '));
    assert(rest[0] == key[0]);
    assert(!is_ws(key[0])) by {
        assert(is_ascii_lower(key[0]));
    }
    lemma_trim_start_plain(rest);
    assert(trim_start(after) == rest);
    if lead == seq!['#'] {
        assert("#@"@.is_prefix_of(line));
        assert(strip_prefix(line, "#@"@) == Some(after));
    } else {
        assert(!"#@"@.is_prefix_of(line)) by {
            assert(line[0] != "#@"@[0]);
        }
        assert("--@"@.is_prefix_of(line));
        assert(strip_prefix(line, "--@"@) == Some(after));
    }
}

/// A directive line is no title line.
proof fn lemma_directive_not_title(lead: Seq<char>, key: Seq<char>, val: Seq<char>)
    requires
        lead == seq!['#'] || lead == seq!['-', '-'],
    ensures
        strip_prefix(directive_line(lead, key, val), "# Profile: "@) is None,
        strip_prefix(directive_line(lead, key, val), "-- Profile: "@) is None,
{
    reveal_strlit("@ ");
    reveal_strlit("# Profile: ");
    reveal_strlit("-- Profile: ");
    let line = directive_line(lead, key, val);
    assert(line[0] == lead[0]);
    assert(line[lead.len() as int] == '@');
    assert(!"# Profile: "@.is_prefix_of(line)) by {
        if lead == seq!['#'] {
            assert(line[1] != "# Profile: "@[1]);
        } else {
            assert(line[0] != "# Profile: "@[0]);
        }
    }
    assert(!"-- Profile: "@.is_prefix_of(line)) by {
        if lead == seq!['#'] {
            assert(line[0] != "-- Profile: "@[0]);
        } else {
            assert(line[2] != "-- Profile: "@[2]);
        }
    }
}

/// `key = value` splits at its first `=` into the key and the value.
proof fn lemma_directive_split(key: Seq<char>, val: Seq<char>)
    requires
        key_word(key),
        directive_value(val),
    ensures
        crate::text::find_char(key + " = "@ + val, '=') == Some(key.len() as int + 1),
        trim_end((key + " = "@ + val).take(key.len() as int + 1)) == key,
        trim((key + " = "@ + val).skip(key.len() as int + 2)) == val,
{
    reveal_strlit(" = ");
    let rest = key + " = "@ + val;
    let eq = key.len() as int + 1;
    assert(rest[eq] == '=');
    assert forall|k: int| 0 <= k < eq implies rest[k] != '=' by {
        if k < key.len() {
            assert(rest[k] == key[k]);
            assert(is_ascii_lower(key[k]));
        } else {
            assert(rest[k] == ' ');
        }
    }
    lemma_find_first(rest, '=', 0, eq);
    assert(rest.take(eq) =~= key.push(' '));
    assert(key.push(' ').drop_last() =~= key);
    assert(is_ws(' '));
    assert(!is_ws(key.last())) by {
        assert(is_ascii_lower(key[key.len() - 1]));
    }
    assert(trim_end(key.push(' ')) == trim_end(key));
    assert(trim_end(key) == key);
    assert(rest.skip(eq + 1) =~= seq![' '] + val);
    assert((seq![' '] + val).drop_first() =~= val);
    assert(trim_start(seq![' '] + val) == trim_start(val));
    assert(trim(seq![' '] + val) == trim(val));
}

/// A directive line carries its key and value back through the legacy
/// directive grammar.
proof fn lemma_directive_parses(lead: Seq<char>, key: Seq<char>, val: Seq<char>)
    requires
        lead == seq!['#'] || lead == seq!['-', '-'],
        key_word(key),
        directive_value(val),
    ensures
        trim_start(directive_line(lead, key, val)) == directive_line(lead, key, val),
        "#@"@.is_prefix_of(directive_line(lead, key, val)) || "--@"@.is_prefix_of(
            directive_line(lead, key, val),
        ),
        strip_prefix(directive_line(lead, key, val), "# Profile: "@) is None,
        strip_prefix(directive_line(lead, key, val), "-- Profile: "@) is None,
        directive(directive_line(lead, key, val), false) == Some((key, val)),
{
    lemma_directive_rest(lead, key, val);
    lemma_directive_not_title(lead, key, val);
    lemma_directive_split(key, val);
    assert(crate::legacy::key_ok(key, false)) by {
        assert forall|i: int| 0 <= i < key.len() implies is_ascii_lower(#[trigger] key[i]) by {}
    }
}

/// Two header states that agree on what a profile takes from them.
pub open spec fn same_reading(a: HeaderView, b: HeaderView) -> bool {
    &&& a.matches == b.matches
    &&& a.edp == b.edp
    &&& a.gpu == b.gpu
    &&& a.priority == b.priority
    &&& a.error == b.error
}

/// A header still being read.
pub open spec fn reading(h: HeaderView) -> bool {
    !h.done && h.error is None
}

pub open spec fn is_leader(lead: Seq<char>) -> bool {
    lead == seq!['#'] || lead == seq!['-', '-']
}

proof fn lemma_match_step(h: HeaderView, lead: Seq<char>, m: Seq<char>)
    requires
        reading(h),
        is_leader(lead),
        directive_value(m),
    ensures
        ({
            let r = header_step(h, directive_line(lead, "match"@, m));
            &&& reading(r)
            &&& r.matches == h.matches.push(m)
            &&& r.edp == h.edp
            &&& r.gpu == h.gpu
            &&& r.priority == h.priority
        }),
{
    reveal_strlit("match");
    assert(key_word("match"@));
    lemma_directive_parses(lead, "match"@, m);
}

proof fn lemma_edp_step(h: HeaderView, lead: Seq<char>, e: EdpPolicy)
    requires
        reading(h),
        is_leader(lead),
    ensures
        ({
            let r = header_step(h, directive_line(lead, "edp"@, e.keyword()));
            &&& reading(r)
            &&& r.matches == h.matches
            &&& r.edp == e
            &&& r.gpu == h.gpu
            &&& r.priority == h.priority
        }),
{
    reveal_strlit("edp");
    reveal_strlit("match");
    reveal_strlit("hook");
    reveal_strlit("auto");
    reveal_strlit("enable");
    reveal_strlit("disable");
    assert(key_word("edp"@));
    assert(directive_value(e.keyword()));
    lemma_directive_parses(lead, "edp"@, e.keyword());
    crate::model::edp_keyword_round_trip(e);
}

proof fn lemma_gpu_step(h: HeaderView, lead: Seq<char>, g: GpuPref)
    requires
        reading(h),
        is_leader(lead),
    ensures
        ({
            let r = header_step(h, directive_line(lead, "gpu"@, g.keyword()));
            &&& reading(r)
            &&& r.matches == h.matches
            &&& r.edp == h.edp
            &&& r.gpu == g
            &&& r.priority == h.priority
        }),
{
    reveal_strlit("gpu");
    reveal_strlit("edp");
    reveal_strlit("match");
    reveal_strlit("hook");
    reveal_strlit("auto");
    reveal_strlit("igpu");
    reveal_strlit("dgpu");
    assert(key_word("gpu"@));
    assert(directive_value(g.keyword()));
    assert("gpu"@ != "edp"@) by {
        assert("gpu"@[0] != "edp"@[0]);
    }
    lemma_directive_parses(lead, "gpu"@, g.keyword());
    crate::model::gpu_keyword_round_trip(g);
}

proof fn lemma_priority_step(h: HeaderView, lead: Seq<char>, p: i64)
    requires
        reading(h),
        is_leader(lead),
    ensures
        ({
            let r = header_step(h, directive_line(lead, "priority"@, int_text(p as int)));
            &&& reading(r)
            &&& r.matches == h.matches
            &&& r.edp == h.edp
            &&& r.gpu == h.gpu
            &&& r.priority == Some(p)
        }),
{
    reveal_strlit("priority");
    reveal_strlit("gpu");
    reveal_strlit("edp");
    reveal_strlit("match");
    reveal_strlit("hook");
    assert(key_word("priority"@));
    crate::num::int_text_parses(p);
    lemma_int_text_value(p as int);
    lemma_directive_parses(lead, "priority"@, int_text(p as int));
}

/// The decimal text of an integer is a directive value.
proof fn lemma_int_text_value(i: int)
    ensures
        directive_value(int_text(i)),
{
    crate::num::lemma_int_text_digits(i);
    let t = int_text(i);
    assert(!is_ws(t[0]));
    assert(!is_ws(t.last()));
    lemma_trim_start_plain(t);
    assert(crate::text::trim_end(t) == t);
}

/// A comment line that is no directive changes nothing a profile takes.
proof fn lemma_comment_step(h: HeaderView, line: Seq<char>)
    requires
        reading(h),
        line.len() > 0,
        line[0] == '#' || (line.len() >= 2 && line[0] == '-' && line[1] == '-'),
        !"#@"@.is_prefix_of(line),
        !"--@"@.is_prefix_of(line),
    ensures
        reading(header_step(h, line)),
        same_reading(header_step(h, line), h),
{
    reveal_strlit("#");
    reveal_strlit("--");
    assert(!is_ws(line[0]));
    lemma_trim_start_plain(line);
    if line[0] == '#' {
        assert("#"@.is_prefix_of(line));
    } else {
        assert("--"@.is_prefix_of(line));
    }
}

/// A blank line changes nothing.
proof fn lemma_blank_step(h: HeaderView)
    requires
        reading(h),
    ensures
        header_step(h, Seq::<char>::empty()) == h,
{
    reveal_strlit("# Profile: ");
    reveal_strlit("-- Profile: ");
    reveal_strlit("#@");
    reveal_strlit("--@");
    let e = Seq::<char>::empty();
    assert(trim_start(e) == e);
    assert(strip_prefix(e, "# Profile: "@) is None);
    assert(strip_prefix(e, "-- Profile: "@) is None);
    assert(HeaderView { description: h.description, ..h } == h);
}

/// A line that starts with neither whitespace, `#` nor `-` ends the header.
proof fn lemma_end_step(h: HeaderView, line: Seq<char>)
    requires
        reading(h),
        line.len() > 0,
        !is_ws(line[0]),
        line[0] != '#',
        line[0] != '-',
    ensures
        header_step(h, line).done,
        same_reading(header_step(h, line), h),
{
    reveal_strlit("#");
    reveal_strlit("--");
    reveal_strlit("#@");
    reveal_strlit("--@");
    reveal_strlit("# Profile: ");
    reveal_strlit("-- Profile: ");
    lemma_trim_start_plain(line);
    assert(!"#@"@.is_prefix_of(line)) by {
        assert(line[0] != "#@"@[0]);
    }
    assert(!"--@"@.is_prefix_of(line)) by {
        assert(line[0] != "--@"@[0]);
    }
    assert(!"#"@.is_prefix_of(line)) by {
        assert(line[0] != "#"@[0]);
    }
    assert(!"--"@.is_prefix_of(line)) by {
        assert(line[0] != "--"@[0]);
    }
    assert(!"--"@.is_prefix_of(line));
    assert(strip_prefix(line, "# Profile: "@) is None);
    assert(strip_prefix(line, "-- Profile: "@) is None) by {
        assert(line[0] != "-- Profile: "@[0]);
    }
}

/// Reading the `match` directive lines of `ms` appends `ms`.
proof fn lemma_match_lines(h: HeaderView, lead: Seq<char>, ms: Seq<Seq<char>>)
    requires
        reading(h),
        is_leader(lead),
        forall|k: int| 0 <= k < ms.len() ==> directive_value(#[trigger] ms[k]),
    ensures
        ({
            let r = header_run(h, ms.map_values(|m: Seq<char>| directive_line(lead, "match"@, m)));
            &&& reading(r)
            &&& r.matches == h.matches + ms
            &&& r.edp == h.edp
            &&& r.gpu == h.gpu
            &&& r.priority == h.priority
        }),
    decreases ms.len(),
{
    let ls = ms.map_values(|m: Seq<char>| directive_line(lead, "match"@, m));
    if ms.len() == 0 {
        assert(h.matches + ms =~= h.matches);
    } else {
        let init = ms.drop_last();
        assert forall|k: int| 0 <= k < init.len() implies directive_value(#[trigger] init[k]) by {
            assert(init[k] == ms[k]);
        }
        lemma_match_lines(h, lead, init);
        assert(ls.drop_last() =~= init.map_values(
            |m: Seq<char>| directive_line(lead, "match"@, m),
        ));
        let mid = header_run(h, ls.drop_last());
        assert(directive_value(ms[ms.len() - 1]));
        lemma_match_step(mid, lead, ms.last());
        assert(ls.last() == directive_line(lead, "match"@, ms.last()));
        assert(h.matches + init.push(ms.last()) =~= (h.matches + init).push(ms.last()));
        assert(init.push(ms.last()) =~= ms);
    }
}

/// The title and the bare leader are comments.
proof fn lemma_title_steps(h: HeaderView, p: ProfileView, lead: Seq<char>)
    requires
        reading(h),
        is_leader(lead),
    ensures
        reading(header_run(h, seq![title_line(p, lead), lead])),
        same_reading(header_run(h, seq![title_line(p, lead), lead]), h),
{
    reveal_strlit("#@");
    reveal_strlit("--@");
    reveal_strlit(" Profile: ");
    let t = title_line(p, lead);
    let two = seq![t, lead];
    assert(t[0] == lead[0]);
    assert(t[lead.len() as int] == ' ');
    if lead == seq!['#'] {
        assert(!"#@"@.is_prefix_of(t)) by {
            assert(t[1] != "#@"@[1]);
        }
        assert(!"--@"@.is_prefix_of(t)) by {
            assert(t[0] != "--@"@[0]);
        }
        assert(!"#@"@.is_prefix_of(lead));
        assert(!"--@"@.is_prefix_of(lead)) by {
            assert(lead[0] != "--@"@[0]);
        }
    } else {
        assert(t[1] == '-');
        assert(!"#@"@.is_prefix_of(t)) by {
            assert(t[0] != "#@"@[0]);
        }
        assert(!"--@"@.is_prefix_of(t)) by {
            assert(t[2] != "--@"@[2]);
        }
        assert(!"#@"@.is_prefix_of(lead)) by {
            assert(lead[0] != "#@"@[0]);
        }
        assert(!"--@"@.is_prefix_of(lead));
    }
    lemma_comment_step(h, t);
    let h1 = header_step(h, t);
    lemma_comment_step(h1, lead);
    assert(two.drop_last() =~= seq![t]);
    lemma_one_line(h, t);
}

/// Reading one line is one step.
proof fn lemma_one_line(h: HeaderView, l: Seq<char>)
    ensures
        header_run(h, seq![l]) == header_step(h, l),
{
    assert(seq![l].drop_last() =~= Seq::<Seq<char>>::empty());
    assert(header_run(h, Seq::<Seq<char>>::empty()) == h);
}

/// The optional `edp`, `gpu` and priority directives.
proof fn lemma_optional_lines(h: HeaderView, p: ProfileView, lead: Seq<char>)
    requires
        reading(h),
        is_leader(lead),
    ensures
        ({
            let e = line_if(p.edp != EdpPolicy::Auto, directive_line(lead, "edp"@, p.edp.keyword()));
            let g = line_if(p.gpu != GpuPref::Auto, directive_line(lead, "gpu"@, p.gpu.keyword()));
            let q = line_if(
                p.priority != p.matches.len(),
                directive_line(lead, "priority"@, int_text(p.priority as int)),
            );
            let r = header_run(h, e + g + q);
            &&& reading(r)
            &&& r.matches == h.matches
            &&& r.edp == if p.edp != EdpPolicy::Auto {
                p.edp
            } else {
                h.edp
            }
            &&& r.gpu == if p.gpu != GpuPref::Auto {
                p.gpu
            } else {
                h.gpu
            }
            &&& r.priority == if p.priority != p.matches.len() {
                Some(p.priority)
            } else {
                h.priority
            }
        }),
{
    let e = line_if(p.edp != EdpPolicy::Auto, directive_line(lead, "edp"@, p.edp.keyword()));
    let g = line_if(p.gpu != GpuPref::Auto, directive_line(lead, "gpu"@, p.gpu.keyword()));
    let q = line_if(
        p.priority != p.matches.len(),
        directive_line(lead, "priority"@, int_text(p.priority as int)),
    );
    lemma_header_run_append(h, e + g, q);
    lemma_header_run_append(h, e, g);
    let h3 = header_run(h, e);
    if p.edp != EdpPolicy::Auto {
        lemma_edp_step(h, lead, p.edp);
        lemma_one_line(h, directive_line(lead, "edp"@, p.edp.keyword()));
    }
    let h4 = header_run(h3, g);
    if p.gpu != GpuPref::Auto {
        lemma_gpu_step(h3, lead, p.gpu);
        lemma_one_line(h3, directive_line(lead, "gpu"@, p.gpu.keyword()));
    }
    if p.priority != p.matches.len() {
        lemma_priority_step(h4, lead, p.priority);
        lemma_one_line(h4, directive_line(lead, "priority"@, int_text(p.priority as int)));
    }
}

/// The directive header of a rendering reads back as the profile's
/// `match` entries, `edp`, `gpu` and (when not the default) priority.
proof fn lemma_header_lines_read(p: ProfileView, lead: Seq<char>)
    requires
        is_leader(lead),
        forall|k: int| 0 <= k < p.matches.len() ==> directive_value(#[trigger] p.matches[k]),
    ensures
        ({
            let r = header_run(header_start(), header_lines(p, lead));
            &&& reading(r)
            &&& r.matches == p.matches
            &&& r.edp == p.edp
            &&& r.gpu == p.gpu
            &&& r.priority == if p.priority != p.matches.len() {
                Some(p.priority)
            } else {
                None
            }
        }),
{
    let h0 = header_start();
    let a = seq![title_line(p, lead), lead];
    let m = p.matches.map_values(|x: Seq<char>| directive_line(lead, "match"@, x));
    let e = line_if(p.edp != EdpPolicy::Auto, directive_line(lead, "edp"@, p.edp.keyword()));
    let g = line_if(p.gpu != GpuPref::Auto, directive_line(lead, "gpu"@, p.gpu.keyword()));
    let q = line_if(
        p.priority != p.matches.len(),
        directive_line(lead, "priority"@, int_text(p.priority as int)),
    );
    let z = seq![Seq::<char>::empty()];
    assert(header_lines(p, lead) =~= (a + m) + (e + g + q) + z);
    lemma_header_run_append(h0, (a + m) + (e + g + q), z);
    lemma_header_run_append(h0, a + m, e + g + q);
    lemma_header_run_append(h0, a, m);
    lemma_title_steps(h0, p, lead);
    let h1 = header_run(h0, a);
    lemma_match_lines(h1, lead, p.matches);
    assert(Seq::<Seq<char>>::empty() + p.matches =~= p.matches);
    let h2 = header_run(h1, m);
    lemma_optional_lines(h2, p, lead);
    let h5 = header_run(h2, e + g + q);
    lemma_blank_step(h5);
    lemma_one_line(h5, Seq::<char>::empty());
}

/// No line break in `s`.
pub open spec fn no_newline(s: Seq<char>) -> bool {
    forall|i: int| 0 <= i < s.len() ==> s[i] != '\n'
}

proof fn lemma_no_newline_concat(a: Seq<char>, b: Seq<char>)
    requires
        no_newline(a),
        no_newline(b),
    ensures
        no_newline(a + b),
{
    assert forall|i: int| 0 <= i < (a + b).len() implies (a + b)[i] != '\n' by {
        if i < a.len() {
            assert((a + b)[i] == a[i]);
        } else {
            assert((a + b)[i] == b[i - a.len()]);
        }
    }
}

/// `trim_start` and `trim_end` never lengthen, and `trim_end` shortens text
/// that ends in whitespace.
pub proof fn lemma_trim_lengths(s: Seq<char>)
    ensures
        trim_start(s).len() <= s.len(),
        trim_end(s).len() <= s.len(),
        s.len() > 0 && is_ws(s.last()) ==> trim_end(s).len() < s.len(),
    decreases s.len(),
{
    if s.len() > 0 {
        lemma_trim_lengths(s.drop_first());
        lemma_trim_lengths(s.drop_last());
    }
}

/// A value with no surrounding whitespace does not end in a carriage
/// return.
pub proof fn lemma_trimmed_last(v: Seq<char>)
    requires
        v.len() > 0,
        trim(v) == v,
    ensures
        !is_ws(v.last()),
{
    lemma_trim_lengths(v);
    lemma_trim_lengths(trim_start(v));
    if trim_start(v).len() < v.len() {
        assert(trim(v).len() < v.len());
    } else {
        assert(trim_start(v) == v) by {
            lemma_trim_start_suffix(v);
        }
    }
}

/// `trim_start` keeps a suffix of the text.
pub proof fn lemma_trim_start_suffix(s: Seq<char>)
    ensures
        trim_start(s) == s.skip(s.len() - trim_start(s).len()),
        trim_start(s).len() <= s.len(),
    decreases s.len(),
{
    lemma_trim_lengths(s);
    if s.len() > 0 && is_ws(s[0]) {
        lemma_trim_start_suffix(s.drop_first());
        assert(s.drop_first().skip(s.drop_first().len() - trim_start(s).len()) =~= s.skip(
            s.len() - trim_start(s).len(),
        ));
    } else {
        assert(s.skip(0) =~= s);
    }
}

/// A line the legacy reader sees as it is: no line break, no trailing
/// carriage return.
pub open spec fn plain_line(l: Seq<char>) -> bool {
    no_newline(l) && strip_cr(l) == l
}

proof fn lemma_leader_plain(lead: Seq<char>)
    requires
        is_leader(lead),
    ensures
        no_newline(lead),
        plain_line(lead),
        lead.len() > 0,
{
}

proof fn lemma_literal_no_newline()
    ensures
        no_newline("@ "@),
        no_newline(" = "@),
        no_newline(" Profile: "@),
        no_newline(" — generated from "@),
        no_newline(".toml. Do not edit; edit the TOML."@),
        no_newline("match"@),
        no_newline("edp"@),
        no_newline("gpu"@),
        no_newline("priority"@),
        ".toml. Do not edit; edit the TOML."@.last() == '.',
        ".toml. Do not edit; edit the TOML."@.len() > 0,
{
    reveal_strlit("@ ");
    reveal_strlit(" = ");
    reveal_strlit(" Profile: ");
    reveal_strlit(" — generated from ");
    reveal_strlit(".toml. Do not edit; edit the TOML.");
    reveal_strlit("match");
    reveal_strlit("edp");
    reveal_strlit("gpu");
    reveal_strlit("priority");
}

/// A directive line with a plain value is a plain line.
proof fn lemma_directive_line_plain(lead: Seq<char>, key: Seq<char>, val: Seq<char>)
    requires
        is_leader(lead),
        no_newline(key),
        directive_value(val),
    ensures
        plain_line(directive_line(lead, key, val)),
{
    lemma_literal_no_newline();
    lemma_leader_plain(lead);
    lemma_no_newline_concat(lead, "@ "@);
    lemma_no_newline_concat(lead + "@ "@, key);
    lemma_no_newline_concat(lead + "@ "@ + key, " = "@);
    lemma_no_newline_concat(lead + "@ "@ + key + " = "@, val);
    lemma_trimmed_last(val);
    assert(directive_line(lead, key, val).last() == val.last());
}

/// Every line of a rendered header is plain.
proof fn lemma_header_plain(p: ProfileView, lead: Seq<char>)
    requires
        is_leader(lead),
        no_newline(p.name),
        forall|k: int| 0 <= k < p.matches.len() ==> directive_value(#[trigger] p.matches[k]),
    ensures
        plain_lines(header_lines(p, lead)),
{
    reveal_strlit("auto");
    reveal_strlit("enable");
    reveal_strlit("disable");
    reveal_strlit("igpu");
    reveal_strlit("dgpu");
    let ls = header_lines(p, lead);
    lemma_literal_no_newline();
    lemma_leader_plain(lead);
    let t = title_line(p, lead);
    lemma_no_newline_concat(lead, " Profile: "@);
    lemma_no_newline_concat(lead + " Profile: "@, p.name);
    lemma_no_newline_concat(lead + " Profile: "@ + p.name, " — generated from "@);
    lemma_no_newline_concat(lead + " Profile: "@ + p.name + " — generated from "@, p.name);
    lemma_no_newline_concat(
        lead + " Profile: "@ + p.name + " — generated from "@ + p.name,
        ".toml. Do not edit; edit the TOML."@,
    );
    assert(t.last() == '.');
    assert(plain_line(t));
    assert(directive_value(p.edp.keyword()));
    assert(directive_value(p.gpu.keyword()));
    lemma_int_text_value(p.priority as int);
    lemma_directive_line_plain(lead, "edp"@, p.edp.keyword());
    lemma_directive_line_plain(lead, "gpu"@, p.gpu.keyword());
    lemma_directive_line_plain(lead, "priority"@, int_text(p.priority as int));
    assert forall|k: int| 0 <= k < ls.len() implies plain_line(#[trigger] ls[k]) by {
        let nm = p.matches.len() as int;
        if 2 <= k < 2 + nm {
            assert(ls[k] == directive_line(lead, "match"@, p.matches[k - 2]));
            lemma_directive_line_plain(lead, "match"@, p.matches[k - 2]);
        }
    }
    assert forall|k: int| 0 <= k < ls.len() implies {
        &&& forall|i: int| 0 <= i < (#[trigger] ls[k]).len() ==> ls[k][i] != '\n'
        &&& strip_cr(ls[k]) == ls[k]
    } by {
        assert(plain_line(ls[k]));
    }
}

/// The first character of a dialect's output and workspace lines.
pub open spec fn body_initial(lua: bool) -> char {
    if lua {
        'h'
    } else {
        'm'
    }
}

proof fn lemma_output_line_initial(o: ResolvedOutputView, mt: MetricsView, lua: bool)
    ensures
        ({
            let l = if lua {
                lua_output_line(o, mt)
            } else {
                conf_output_line(o, mt)
            };
            l.len() > 0 && l[0] == body_initial(lua)
        }),
{
    reveal_strlit("monitor = ");
    reveal_strlit("hl.monitor({ output = ");
}

proof fn lemma_output_lines_initial(
    outs: Seq<ResolvedOutputView>,
    om: Seq<MetricsView>,
    pass: bool,
    lua: bool,
    n: int,
)
    ensures
        output_lines(outs, om, pass, lua, n).len() > 0 ==> output_lines(outs, om, pass, lua, n)[0]
            == body_initial(lua),
    decreases n,
{
    if n > 0 {
        lemma_output_lines_initial(outs, om, pass, lua, n - 1);
        lemma_output_line_initial(outs[n - 1], om[n - 1], lua);
    }
}

proof fn lemma_workspace_lines_initial(ws: Seq<WorkspaceRuleView>, lua: bool, n: int)
    requires
        n > 0,
    ensures
        workspace_lines(ws, lua, n).len() > 0,
        workspace_lines(ws, lua, n)[0] == if lua {
            'h'
        } else {
            'w'
        },
    decreases n,
{
    reveal_strlit("workspace = ");
    reveal_strlit("hl.workspace_rule({ workspace = ");
    if n > 1 {
        lemma_workspace_lines_initial(ws, lua, n - 1);
    } else {
        let line = if lua {
            lua_workspace_line(ws[0])
        } else {
            conf_workspace_line(ws[0])
        };
        assert(workspace_lines(ws, lua, 0) == Seq::<char>::empty());
        assert(workspace_lines(ws, lua, 1) =~= line);
    }
}

/// Once the header has been read, a body that starts with an output or a
/// workspace line (after at most one blank line) changes nothing.
proof fn lemma_body_ends_header(h: HeaderView, b: Seq<char>, blank: bool)
    requires
        reading(h),
        b.len() > 0,
        !is_ws(b[0]),
        b[0] != '#',
        b[0] != '-',
    ensures
        same_reading(
            header_run(
                h,
                lines(
                    if blank {
                        seq!['\n'] + b
                    } else {
                        b
                    },
                ),
            ),
            h,
        ),
{
    assert(b[0] != '\n' && b[0] != '\r') by {
        assert(is_ws('\n'));
        assert(is_ws('\r'));
    }
    lemma_first_line(b);
    let ls = lines(b);
    let l0 = ls[0];
    assert(ls =~= seq![l0] + ls.skip(1));
    lemma_header_run_append(h, seq![l0], ls.skip(1));
    lemma_one_line(h, l0);
    lemma_end_step(h, l0);
    lemma_header_run_done(header_step(h, l0), ls.skip(1));
    if blank {
        let e = seq![Seq::<char>::empty()];
        assert(terminated(e) =~= seq!['\n']) by {
            assert(e.drop_last() =~= Seq::<Seq<char>>::empty());
            assert(terminated(Seq::<Seq<char>>::empty()) =~= Seq::<char>::empty());
        }
        assert(plain_lines(e));
        lemma_lines_after_terminated(e, b);
        lemma_header_run_append(h, e, ls);
        lemma_one_line(h, Seq::<char>::empty());
        lemma_blank_step(h);
    }
}

/// A rendering reads back through the legacy reader: it takes from the
/// `.conf` or `.lua` text the profile's `match` entries, `edp`, `gpu` and
/// priority. It holds when the name has no line break and every `match`
/// entry is non-empty, without surrounding whitespace or a line break (a
/// reader takes directive values trimmed, one per line).
#[verifier::rlimit(40)]
#[verifier::spinoff_prover]
pub proof fn rendering_reads_back(p: ProfileView, mts: Seq<MetricsView>, lua: bool)
    requires
        p.matches.len() > 0,
        p.matches.len() <= i64::MAX,
        no_newline(p.name),
        forall|k: int| 0 <= k < p.matches.len() ==> directive_value(#[trigger] p.matches[k]),
    ensures
        legacy_profile(p.name, render_text(p, mts, lua)) matches Ok((q, _)) && q.matches
            == p.matches && q.edp == p.edp && q.gpu == p.gpu && q.priority == p.priority,
{
    let lead = leader(lua);
    reveal_strlit("--");
    assert(lua ==> "--"@ =~= seq!['-', '-']);
    assert(is_leader(lead));
    let hl = header_lines(p, lead);
    let c = stand_ins(p.monitors);
    let l = resolve_spec(p.monitors, mts, c);
    let om = output_metrics(mts, placed(p.monitors, c, p.monitors.len() as int));
    let n = l.outputs.len() as int;
    let o = output_lines(l.outputs, om, true, lua, n) + output_lines(l.outputs, om, false, lua, n);
    let w = workspace_lines(p.workspaces, lua, p.workspaces.len() as int);
    let nl = optional(p.workspaces.len() > 0, seq!['\n']);
    let b = o + nl + w;
    let text = render_text(p, mts, lua);
    assert(text =~= terminated(hl) + b);
    lemma_header_plain(p, lead);
    lemma_lines_after_terminated(hl, b);
    lemma_header_run_start(lines(text));
    lemma_header_run_append(header_start(), hl, lines(b));
    lemma_header_lines_read(p, lead);
    let h = header_run(header_start(), hl);
    lemma_output_lines_initial(l.outputs, om, true, lua, n);
    lemma_output_lines_initial(l.outputs, om, false, lua, n);
    if o.len() > 0 {
        assert(b[0] == o[0]);
        assert(o[0] == body_initial(lua));
        lemma_body_ends_header(h, b, false);
    } else if p.workspaces.len() > 0 {
        lemma_workspace_lines_initial(p.workspaces, lua, p.workspaces.len() as int);
        assert(b =~= seq!['\n'] + w);
        lemma_body_ends_header(h, w, true);
    } else {
        assert(w =~= Seq::<char>::empty());
        assert(b =~= Seq::<char>::empty());
        assert(lines(b) =~= Seq::<Seq<char>>::empty());
    }
}

/// The default flag of a workspace rule is written exactly when it is set:
/// a rule's line, Lua or conf, is its non-default line with the flag
/// (`, default = true` or `, default:true`) put in before the line's end.
pub proof fn default_flag_written_exactly_when_set(w: WorkspaceRuleView)
    ensures
        ({
            let on = WorkspaceRuleView { default: true, ..w };
            let off = WorkspaceRuleView { default: false, ..w };
            let lo = lua_workspace_line(off);
            let co = conf_workspace_line(off);
            &&& lo.len() >= 4
            &&& lo.skip(lo.len() - 4) == " })\n"@
            &&& lua_workspace_line(on) == lo.take(lo.len() - 4) + ", default = true })\n"@
            &&& co.len() >= 1
            &&& co.last() == '\n'
            &&& conf_workspace_line(on) == co.drop_last() + ", default:true\n"@
        }),
{
    reveal_strlit(" })\n");
    reveal_strlit(", default = true })\n");
    reveal_strlit(", default = true");
    reveal_strlit(", default:true\n");
    reveal_strlit(", default:true");
    let on = WorkspaceRuleView { default: true, ..w };
    let off = WorkspaceRuleView { default: false, ..w };
    let pre = "hl.workspace_rule({ workspace = "@ + debug_text(w.workspace) + ", monitor = "@
        + debug_text(w.monitor);
    let lo = lua_workspace_line(off);
    assert(lo =~= pre + " })\n"@);
    assert(lo.take(lo.len() - 4) =~= pre);
    assert(lo.skip(lo.len() - 4) =~= " })\n"@);
    assert(lua_workspace_line(on) =~= pre + ", default = true })\n"@);
    let cpre = "workspace = "@ + w.workspace + ", monitor:"@ + w.monitor;
    let co = conf_workspace_line(off);
    assert(co =~= cpre + seq!['\n']);
    assert(co.drop_last() =~= cpre);
    assert(conf_workspace_line(on) =~= cpre + ", default:true\n"@);
}

} // verus!
