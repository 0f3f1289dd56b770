use monitor_profiles::model::{EdpPolicy, GpuPref};
use monitor_profiles::parse::{from_raw, RawMonitor, RawProfile, RawScale, RawWorkspace};

fn raw(matches: &[&str]) -> RawProfile {
    RawProfile {
        description: String::new(),
        matches: matches.iter().map(|m| m.to_string()).collect(),
        edp: None,
        gpu: None,
        hooks: vec![],
        priority: None,
        monitor: vec![],
        workspace: vec![],
    }
}

fn monitor(output: &str) -> RawMonitor {
    RawMonitor {
        output: output.into(),
        mode: None,
        scale: None,
        position: None,
        transform: None,
        enabled: None,
    }
}

#[test]
fn full_raw_profile_loads() {
    let mut r = raw(&["A", "B"]);
    r.description = "d".into();
    r.edp = Some("disable".into());
    r.gpu = Some("dgpu".into());
    r.hooks = vec!["h".into()];
    r.priority = Some(10);
    let mut a = monitor("A");
    a.mode = Some("3840x2160@120".into());
    a.scale = Some(RawScale { text: "1.5".into(), valid: true });
    a.position = Some([3440, 0]);
    a.transform = Some(3);
    r.monitor = vec![a, monitor("B")];
    r.workspace = vec![RawWorkspace { workspace: "1".into(), monitor: "A".into(), default: true }];
    let (p, w) = from_raw("n", r).unwrap();
    assert!(w.is_empty());
    assert_eq!(p.name, "n");
    assert_eq!(p.description, "d");
    assert_eq!(p.matches.len(), 2);
    assert_eq!(p.edp, EdpPolicy::Disable);
    assert_eq!(p.gpu, GpuPref::Dgpu);
    assert_eq!(p.hooks, vec!["h"]);
    assert_eq!(p.priority, 10);
    assert_eq!(p.monitors[0].position, Some((3440, 0)));
    assert_eq!(p.monitors[0].transform, 3);
    assert_eq!(p.monitors[0].scale.literal, "1.5");
    assert_eq!(p.monitors[1].scale.literal, "1");
    assert!(p.monitors[1].enabled);
    assert!(p.workspaces[0].default);
}

#[test]
fn raw_default_priority_is_match_count() {
    assert_eq!(from_raw("n", raw(&["A", "B"])).unwrap().0.priority, 2)
}

#[test]
fn raw_no_matches_is_fatal() {
    let mut r = raw(&[]);
    r.monitor = vec![monitor("A")];
    assert_eq!(from_raw("n", r).unwrap_err(), "profile has no `match` entries")
}

#[test]
fn raw_bad_edp_and_gpu_are_fatal() {
    let mut r = raw(&["A"]);
    r.edp = Some("sideways".into());
    assert_eq!(from_raw("n", r).unwrap_err(), "edp must be auto|enable|disable, got \"sideways\"");
    let mut r = raw(&["A"]);
    r.gpu = Some("both".into());
    assert_eq!(from_raw("n", r).unwrap_err(), "gpu must be auto|igpu|dgpu, got \"both\"");
}

#[test]
fn raw_bad_scale_mode_transform_warn_but_load() {
    let mut r = raw(&["A"]);
    let mut a = monitor("A");
    a.scale = Some(RawScale { text: "-1".into(), valid: false });
    a.mode = Some("nonsense".into());
    a.transform = Some(9);
    r.monitor = vec![a];
    let (p, w) = from_raw("n", r).unwrap();
    assert_eq!(
        w,
        vec![
            "A: unparseable mode \"nonsense\"; using preferred",
            "A: invalid scale -1; using 1.0",
            "A: transform 9 out of range 0..=7; using 0",
        ]
    );
    assert_eq!(p.monitors[0].scale.literal, "1");
    assert_eq!(p.monitors[0].mode, None);
    assert_eq!(p.monitors[0].transform, 0)
}

#[test]
fn blank_output_is_skipped_with_a_warning() {
    let mut r = raw(&["A"]);
    let mut b = monitor("B");
    b.enabled = Some(false);
    r.monitor = vec![monitor("  "), b];
    let (p, w) = from_raw("n", r).unwrap();
    assert_eq!(w, vec!["skipping monitor with empty output"]);
    assert_eq!(p.monitors.len(), 1);
    assert_eq!(p.monitors[0].output, "B");
    assert!(!p.monitors[0].enabled);
}
