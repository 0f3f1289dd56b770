use monitor_profiles::legacy::{
    parse_conf_monitors, parse_directive, parse_hl_monitor, parse_mon_row, parse_workspace_rules,
    to_profile,
};
use monitor_profiles::model::{EdpPolicy, GpuPref, Mode};

fn num(literal: &str) -> f64 {
    literal.parse().unwrap()
}

fn fmt_num(v: f64) -> String {
    let s = format!("{v:.2}");
    s.trim_end_matches('0').trim_end_matches('.').to_string()
}

fn mode_display(m: &Mode) -> String {
    let refresh = num(&m.refresh.literal);
    m.text(&if refresh > 0.0 { Some(fmt_num(refresh)) } else { None })
}

#[test]
fn directive_key_charsets() {
    assert_eq!(parse_directive("#@ battery-low = x", false), None);
    assert_eq!(
        parse_directive("#@ battery-low = x", true),
        Some(("battery-low", "x"))
    );
    assert_eq!(parse_directive("#@match=x", false), Some(("match", "x")));
    assert_eq!(parse_directive("#@ match = ", false), None);
    assert_eq!(parse_directive("#@ Match = x", false), None)
}

#[test]
fn directive_lua_leader() {
    assert_eq!(
        parse_directive("--@ match = desc:X", false),
        Some(("match", "desc:X"))
    );
    assert_eq!(parse_directive("-- match = x", false), None)
}

#[test]
fn directives_stop_at_body() {
    let (p, _) = to_profile("x", "#@ match = A\nmonitor = A,disable\n#@ edp = disable").unwrap();
    assert_eq!(p.edp, EdpPolicy::Auto)
}

#[test]
fn lua_comments_do_not_end_the_header() {
    let (p, _) = to_profile(
        "x",
        "-- Profile: Dual Dell S2725QC 4K @ 120Hz + built-in, side-by-side, target 150%.\n--\n--@ match = A\n--@ match = B\n--@ edp = auto\nmon.row({})",
    )
    .unwrap();
    assert_eq!(p.matches.len(), 2);
    assert_eq!(
        p.description,
        "Dual Dell S2725QC 4K @ 120Hz + built-in, side-by-side, target 150%."
    )
}

#[test]
fn malformed_header_is_fatal() {
    assert!(to_profile("x", "monitor=A,disable").is_err());
    assert!(to_profile("x", "#@ match=A\n#@ edp=sideways").is_err());
    assert!(to_profile("x", "#@ match=A\n#@ priority=high").is_err())
}

#[test]
fn conf_body_yields_explicit_positions() {
    let (m, _) = parse_conf_monitors(
        "monitor = desc:Dell A,3840x2160@120,0x0,1.5\nmonitor = eDP-2,disable",
    );
    assert_eq!(m[0].position, Some((0, 0)));
    assert_eq!(num(&m[0].scale.literal), 1.5);
    assert!(!m[1].enabled)
}

/// Shape taken from a real profile: a portrait monitor centred against a
/// shorter one, which is exactly the arrangement `mon.row` cannot express
/// -- so the positions are written out and the row parser finds nothing.
#[test]
fn lua_body_reads_explicit_hl_monitor_calls() {
    let text = r#"
-- Profile: HP rotated portrait (left) + Dell (middle) + panel (right).
--@ match = desc:HP Inc. HP E243 CNK7510Y4B
hl.monitor({ output = "desc:HP Inc. HP E243 CNK7510Y4B",  mode = "1920x1080@60",  position = "0x0",      scale = 1,    transform = 1 })
hl.monitor({ output = "desc:Dell Inc. DELL S2721HGF 85YF", mode = "1920x1080@144", position = "1080x420", scale = 1 })
hl.monitor({ output = "eDP-2",                             mode = "2560x1600@165", position = "3000x420", scale = 1.25 })
"#;
    let (profile, warnings) = to_profile("hp-portrait", text).unwrap();
    assert!(warnings.is_empty(), "{warnings:?}");
    assert_eq!(profile.monitors.len(), 3, "all three monitors must parse");

    let hp = &profile.monitors[0];
    assert_eq!(hp.transform, 1, "the portrait rotation must survive");
    assert_eq!(hp.position, Some((0, 0)));
    assert_eq!(hp.mode.as_ref().map(|m| num(&m.refresh.literal)), Some(60.0));

    let dell = &profile.monitors[1];
    assert_eq!(
        dell.position,
        Some((1080, 420)),
        "the y offset is the whole reason this profile is not a row"
    );
    assert_eq!(dell.mode.as_ref().map(|m| num(&m.refresh.literal)), Some(144.0));

    assert_eq!(num(&profile.monitors[2].scale.literal), 1.25);
    assert_eq!(profile.monitors[2].position, Some((3000, 420)));
}

#[test]
fn conf_body_accepts_hyprland_keywords() {
    // Real profile line from the reference machine: scale `auto`. A strict
    // numeric parse dropped the monitor entirely and the whole profile
    // migrated empty.
    let text = "monitor = desc:Dell Inc. DELL S3422DWG HSRTS63,3440x1440@144,0x0,auto";
    let (mons, warns) = parse_conf_monitors(text);
    assert_eq!(mons.len(), 1, "keyword scale must not drop the monitor");
    assert!(warns.is_empty(), "{warns:?}");
    assert_eq!(num(&mons[0].scale.literal), 1.0);
    assert_eq!(mons[0].position, Some((0, 0)));
    assert_eq!(mons[0].mode.as_ref().map(|m| m.width), Some(3440));
}

#[test]
fn conf_body_accepts_preferred_and_auto_position() {
    let (mons, warns) = parse_conf_monitors("monitor = eDP-2,preferred,auto,1.25");
    assert_eq!(mons.len(), 1);
    assert!(warns.is_empty(), "{warns:?}");
    assert_eq!(mons[0].mode, None, "preferred means the compositor picks");
    assert_eq!(mons[0].position, None, "auto position is row-derived");
    assert_eq!(num(&mons[0].scale.literal), 1.25);
}

#[test]
fn conf_body_reads_transform() {
    assert_eq!(
        parse_conf_monitors("monitor = desc:Dell A,3840x2160@60,0x0,1,transform,1").0[0].transform,
        1
    )
}

#[test]
fn mon_row_body_yields_targets_without_positions() {
    let s = r#"mon.row({ { output="A", w=3840, h=2160, hz=120, scale=1.5 }, { output="B", w=3840, h=2160, hz=120, scale=1.5 }, { output="eDP-2", w=2560, h=1600, hz=165, scale=1.5 } })"#;
    let (m, _) = parse_mon_row(s);
    assert_eq!(m.len(), 3);
    assert!(m
        .iter()
        .all(|x| x.position.is_none() && num(&x.scale.literal) == 1.5));
    assert_eq!(mode_display(m[2].mode.as_ref().unwrap()), "2560x1600@165")
}

#[test]
fn mon_row_reads_transform() {
    let (m, _) = parse_mon_row(
        r#"mon.row({ { output="A", w=3440, h=1440, hz=144, scale=1, transform=3 } })"#,
    );
    assert_eq!(m[0].transform, 3)
}

#[test]
fn workspace_rules_from_both_dialects() {
    let a = parse_workspace_rules(
        r#"hl.workspace_rule({ workspace = "1", monitor = "desc:X", default = true })"#,
    );
    let b = parse_workspace_rules("workspace = 1, monitor:desc:X, default:true");
    assert_eq!(a, b);
    assert!(a[0].default)
}

#[test]
fn unrecognised_body_warns_but_keeps_header() {
    let (p, w) = to_profile("x", "#@ match = A\nsome_unknown_call()").unwrap();
    assert!(p.monitors.is_empty());
    assert_eq!(w.len(), 1)
}

// ---------------------------------------------------------------------------

#[test]
fn header_reads_every_directive() {
    let (p, w) = to_profile(
        "n",
        "#@ match = A\n#@ match = B\n#@ hook = h\n#@ edp = disable\n#@ gpu = dgpu\n#@ priority = -7\nmonitor = A,disable",
    )
    .unwrap();
    assert!(w.is_empty(), "{w:?}");
    assert_eq!(p.name, "n");
    assert_eq!(p.matches, vec!["A", "B"]);
    assert_eq!(p.hooks, vec!["h"]);
    assert_eq!(p.edp, EdpPolicy::Disable);
    assert_eq!(p.gpu, GpuPref::Dgpu);
    assert_eq!(p.priority, -7);
}

#[test]
fn legacy_default_priority_is_match_count() {
    let (p, _) = to_profile("n", "#@ match = A\n#@ match = B\nmonitor = A,disable").unwrap();
    assert_eq!(p.priority, 2);
}

#[test]
fn unknown_and_malformed_directives_warn() {
    let (_, w) = to_profile("n", "#@ match = A\n#@ colour = red\n#@ nonsense\nmonitor = A,disable")
        .unwrap();
    assert_eq!(w, vec!["unknown directive \"colour\"", "malformed directive \"#@ nonsense\""]);
}

#[test]
fn header_errors_name_the_value() {
    assert_eq!(
        to_profile("n", "#@ match = A\n#@ gpu = both").unwrap_err(),
        "invalid gpu \"both\""
    );
    assert_eq!(
        to_profile("n", "#@ match = A\n#@ priority = high").unwrap_err(),
        "invalid priority \"high\""
    );
    assert_eq!(
        to_profile("n", "#@ edp = auto").unwrap_err(),
        "profile has no `match` entries"
    );
}

#[test]
fn hl_monitor_without_output_is_reported() {
    let (m, w) = parse_hl_monitor(r#"hl.monitor({ mode = "1920x1080" })"#);
    assert!(m.is_empty());
    assert_eq!(w, vec!["hl.monitor without an output"]);
}

#[test]
fn conf_disabled_monitor_has_defaults() {
    let (m, w) = parse_conf_monitors("monitor = HDMI-A-1,disable");
    assert!(w.is_empty());
    assert_eq!(m.len(), 1);
    assert_eq!(m[0].output, "HDMI-A-1");
    assert!(!m[0].enabled);
    assert_eq!(m[0].mode, None);
}
