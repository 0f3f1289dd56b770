use monitor_profiles::layout::{scale_steps, Metrics, Snapped};
use monitor_profiles::legacy::{parse_workspace_rules, to_profile};
use monitor_profiles::model::{EdpPolicy, GpuPref, Mode, Monitor, Number, Profile, WorkspaceRule};
use monitor_profiles::render::{render_conf, render_lua};

fn valid_scale(width: u32, height: u32, target: f64) -> f64 {
    let (mut best, mut bd) = (target, f64::INFINITY);
    for k in scale_steps(width, height) {
        let s = k as f64 / 120.0;
        let d = (s - target).abs();
        if d < bd {
            best = s;
            bd = d
        }
    }
    best
}

fn fmt_num(v: f64) -> String {
    let s = format!("{v:.2}");
    s.trim_end_matches('0').trim_end_matches('.').to_string()
}

fn refresh_text(m: &Mode) -> Option<String> {
    let refresh: f64 = m.refresh.literal.parse().unwrap();
    if refresh > 0.0 {
        Some(fmt_num(refresh))
    } else {
        None
    }
}

fn logical(px: u32, scale: f64) -> i32 {
    (f64::from(px) / scale + 0.5).floor() as i32
}

fn metrics(p: &Profile) -> Vec<Metrics> {
    p.monitors
        .iter()
        .map(|m| {
            let scale: f64 = m.scale.literal.parse().unwrap();
            Metrics {
                refresh_text: m.mode.as_ref().and_then(refresh_text),
                scale_text: fmt_num(scale),
                scale_is_default: !((scale - 1.0).abs() > f64::EPSILON),
                snapped: m.mode.as_ref().map(|z| {
                    let s = valid_scale(z.width, z.height, scale);
                    Snapped {
                        scale: Number { literal: s.to_string() },
                        scale_text: fmt_num(s),
                        width: logical(z.width, s),
                        height: logical(z.height, s),
                    }
                }),
            }
        })
        .collect()
}

fn mon(o: &str, m: &str, s: f64) -> Monitor {
    Monitor {
        output: o.into(),
        mode: Mode::parse(m),
        scale: Number { literal: s.to_string() },
        ..Monitor::default()
    }
}

fn dual() -> Profile {
    Profile {
        name: "dual-4k".into(),
        description: String::new(),
        matches: vec![
            "desc:Dell Inc. DELL S2725QC 5DGMS84".into(),
            "desc:Dell Inc. DELL S2725QC FFJMS84".into(),
        ],
        edp: EdpPolicy::Auto,
        gpu: GpuPref::Auto,
        hooks: vec![],
        priority: 2,
        monitors: vec![
            mon("desc:Dell Inc. DELL S2725QC 5DGMS84", "3840x2160@120", 1.5),
            mon("desc:Dell Inc. DELL S2725QC FFJMS84", "3840x2160@120", 1.5),
            mon("eDP-2", "2560x1600@165", 1.5),
        ],
        workspaces: vec![WorkspaceRule {
            workspace: "1".into(),
            monitor: "desc:Dell Inc. DELL S2725QC 5DGMS84".into(),
            default: true,
        }],
    }
}

fn conf(p: &Profile) -> (String, Vec<String>) {
    render_conf(p, &metrics(p))
}

fn lua(p: &Profile) -> (String, Vec<String>) {
    render_lua(p, &metrics(p))
}

#[test]
fn render_lua_dual_4k_matches_expected() {
    let (s, _) = lua(&dual());
    assert!(s.contains("--@ match = desc:Dell Inc. DELL S2725QC 5DGMS84"));
    assert!(s.contains(r#"hl.monitor({ output = "desc:Dell Inc. DELL S2725QC 5DGMS84", mode = "3840x2160@120", position = "0x0", scale = "1.5" })"#));
    assert!(s.contains(r#"hl.monitor({ output = "eDP-2", mode = "2560x1600@165", position = "5120x0", scale = "1.6" })"#));
    assert!(s.contains(r#"hl.workspace_rule({ workspace = "1", monitor = "desc:Dell Inc. DELL S2725QC 5DGMS84", default = true })"#))
}

#[test]
fn render_conf_dual_4k_matches_expected() {
    assert!(conf(&dual())
        .0
        .contains("monitor = eDP-2,2560x1600@165,5120x0,1.6"))
}

#[test]
fn render_conf_transform_and_disabled() {
    let mut p = dual();
    p.monitors[0].transform = 3;
    p.monitors[2].enabled = false;
    let (s, _) = conf(&p);
    assert!(s.contains(",transform,3"));
    assert!(s.contains("monitor = eDP-2,disable"))
}

#[test]
fn render_round_trips_through_legacy_parser() {
    let mut p = dual();
    p.edp = EdpPolicy::Disable;
    p.gpu = GpuPref::Dgpu;
    p.priority = 99;
    let (s, _) = conf(&p);
    let (q, _) = to_profile("x", &s).unwrap();
    assert_eq!(
        (q.matches, q.edp, q.gpu, q.priority),
        (p.matches, p.edp, p.gpu, p.priority)
    )
}

#[test]
fn render_warns_on_comma_description() {
    let mut p = dual();
    p.monitors = vec![mon("desc:Weird, Inc. Display", "1920x1080", 1.0)];
    assert_eq!(conf(&p).1.len(), 1)
}

#[test]
fn render_omits_default_priority() {
    let p = dual();
    assert!(!conf(&p).0.contains("@ priority"));
    let mut p = dual();
    p.priority = 99;
    assert!(conf(&p).0.contains("#@ priority = 99"))
}

// ---------------------------------------------------------------------------

#[test]
fn render_conf_whole_text() {
    let mut p = dual();
    p.monitors[1].enabled = false;
    p.monitors.push(Monitor { output: "HDMI-A-1".into(), ..Monitor::default() });
    let (s, w) = conf(&p);
    assert_eq!(
        s,
        "# Profile: dual-4k — generated from dual-4k.toml. Do not edit; edit the TOML.\n\
         #\n\
         #@ match = desc:Dell Inc. DELL S2725QC 5DGMS84\n\
         #@ match = desc:Dell Inc. DELL S2725QC FFJMS84\n\
         \n\
         monitor = desc:Dell Inc. DELL S2725QC 5DGMS84,3840x2160@120,0x0,1.5\n\
         monitor = eDP-2,2560x1600@165,2560x0,1.6\n\
         monitor = HDMI-A-1,preferred,auto,1\n\
         monitor = desc:Dell Inc. DELL S2725QC FFJMS84,disable\n\
         \n\
         workspace = 1, monitor:desc:Dell Inc. DELL S2725QC 5DGMS84, default:true\n"
    );
    assert_eq!(
        w,
        vec!["HDMI-A-1: no mode and no explicit position; later monitors may overlap"]
    );
}

#[test]
fn render_lua_disabled_and_preferred() {
    let mut p = dual();
    p.monitors = vec![
        Monitor { output: "HDMI-A-1".into(), enabled: false, ..Monitor::default() },
        Monitor { output: "DP-\"1\"".into(), position: Some((10, 20)), ..Monitor::default() },
    ];
    p.workspaces = vec![];
    let (s, w) = lua(&p);
    assert!(s.contains("hl.monitor({ output = \"HDMI-A-1\", disabled = true })\n"));
    assert!(s.contains(
        "hl.monitor({ output = \"DP-\\\"1\\\"\", mode = \"preferred\", position = \"auto\", scale = \"1\" })\n"
    ));
    assert!(s.ends_with(" })\n"));
    assert!(w.is_empty());
}

#[test]
fn rendered_lua_header_reads_back_too() {
    let mut p = dual();
    p.edp = EdpPolicy::Enable;
    p.gpu = GpuPref::Igpu;
    let (s, _) = lua(&p);
    let (q, _) = to_profile("x", &s).unwrap();
    assert_eq!((q.matches, q.edp, q.gpu, q.priority), (p.matches, p.edp, p.gpu, p.priority));
}

#[test]
fn conf_workspace_rules_read_back() {
    let mut p = dual();
    p.workspaces.push(WorkspaceRule {
        workspace: "2".into(),
        monitor: "eDP-2".into(),
        default: false,
    });
    let (s, _) = conf(&p);
    assert_eq!(parse_workspace_rules(&s), p.workspaces);
}
