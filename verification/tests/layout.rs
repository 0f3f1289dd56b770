use monitor_profiles::layout::{
    resolve, resolve_all, row_fits, scale_steps, selects, ConnectedOutput, Metrics, Snapped,
};
use monitor_profiles::model::{EdpPolicy, GpuPref, Mode, Monitor, Number, Profile};

fn valid_scale(width: u32, height: u32, target: f64) -> f64 {
    let (mut best, mut bd) = (target, f64::INFINITY);
    for k in scale_steps(width, height) {
        let s = k as f64 / 120.0;
        let d = (s - target).abs();
        if d < bd {
            best = s;
            bd = d
        }
    }
    best
}

fn fmt_num(v: f64) -> String {
    let s = format!("{v:.2}");
    s.trim_end_matches('0').trim_end_matches('.').to_string()
}

fn refresh_text(m: &Mode) -> Option<String> {
    let refresh: f64 = m.refresh.literal.parse().unwrap();
    if refresh > 0.0 {
        Some(fmt_num(refresh))
    } else {
        None
    }
}

fn logical(px: u32, scale: f64) -> i32 {
    (f64::from(px) / scale + 0.5).floor() as i32
}

fn metrics(p: &Profile) -> Vec<Metrics> {
    p.monitors
        .iter()
        .map(|m| {
            let scale: f64 = m.scale.literal.parse().unwrap();
            Metrics {
                refresh_text: m.mode.as_ref().and_then(refresh_text),
                scale_text: fmt_num(scale),
                scale_is_default: !((scale - 1.0).abs() > f64::EPSILON),
                snapped: m.mode.as_ref().map(|z| {
                    let s = valid_scale(z.width, z.height, scale);
                    Snapped {
                        scale: Number { literal: s.to_string() },
                        scale_text: fmt_num(s),
                        width: logical(z.width, s),
                        height: logical(z.height, s),
                    }
                }),
            }
        })
        .collect()
}

fn mon(o: &str, m: &str, s: f64) -> Monitor {
    Monitor {
        output: o.into(),
        mode: Mode::parse(m),
        scale: Number { literal: s.to_string() },
        ..Monitor::default()
    }
}

fn profile(ms: Vec<Monitor>) -> Profile {
    Profile {
        name: "p".into(),
        description: String::new(),
        matches: vec!["A".into()],
        edp: EdpPolicy::Auto,
        gpu: GpuPref::Auto,
        hooks: vec![],
        priority: 1,
        monitors: ms,
        workspaces: vec![],
    }
}

fn scale_of(n: &Number) -> f64 {
    n.literal.parse().unwrap()
}

fn all(p: &Profile) -> monitor_profiles::layout::ResolvedLayout {
    resolve_all(p, &metrics(p))
}

#[test]
fn row_derives_x_from_logical_widths() {
    let p = profile(vec![
        mon("A", "3840x2160@120", 1.5),
        mon("B", "3840x2160@120", 1.5),
        mon("eDP-2", "2560x1600@165", 1.5),
    ]);
    let l = all(&p);
    assert_eq!(
        l.outputs.iter().map(|x| x.position).collect::<Vec<_>>(),
        vec![(0, 0), (2560, 0), (5120, 0)]
    );
    assert_eq!(
        l.outputs.iter().map(|x| scale_of(&x.scale)).collect::<Vec<_>>(),
        vec![1.5, 1.5, 1.6]
    )
}

#[test]
fn odd_transform_uses_mode_height_for_advance() {
    let mut b = mon("B", "3840x2160@60", 1.5);
    b.transform = 3;
    let p = profile(vec![
        mon("A", "3440x1440@144", 1.0),
        b,
        mon("C", "1920x1080@60", 1.0),
    ]);
    let l = all(&p);
    assert_eq!(l.outputs[1].position, (3440, 0));
    assert_eq!(l.outputs[2].position, (4880, 0))
}

#[test]
fn explicit_position_wins_and_does_not_advance() {
    let mut a = mon("A", "1920x1080", 1.0);
    a.position = Some((100, 50));
    let l = all(&profile(vec![a, mon("B", "1920x1080", 1.0)]));
    assert_eq!(l.outputs[1].position, (0, 0))
}

#[test]
fn disabled_monitor_does_not_advance() {
    let mut b = mon("B", "1920x1080", 1.0);
    b.enabled = false;
    let l = all(&profile(vec![
        mon("A", "1920x1080", 1.0),
        b,
        mon("C", "1920x1080", 1.0),
    ]));
    assert_eq!(l.outputs[2].position, (1920, 0))
}

#[test]
fn unmatched_selector_is_reported() {
    let p = profile(vec![mon("desc:Nope", "1920x1080", 1.0)]);
    let l = resolve(&p, &[], &metrics(&p));
    assert!(l.outputs.is_empty());
    assert_eq!(l.unmatched, vec!["desc:Nope"])
}

#[test]
fn selects_by_name_exactly_and_desc_by_prefix() {
    let c = [ConnectedOutput {
        name: "eDP-2".into(),
        description: "BOE 0x0BC9".into(),
    }];
    let p = profile(vec![mon("eDP-2", "1920x1080", 1.0)]);
    assert_eq!(resolve(&p, &c, &metrics(&p)).outputs.len(), 1);
    let p = profile(vec![mon("eDP", "1920x1080", 1.0)]);
    assert!(resolve(&p, &c, &metrics(&p)).outputs.is_empty());
    let p = profile(vec![mon("desc:BOE", "1920x1080", 1.0)]);
    assert_eq!(resolve(&p, &c, &metrics(&p)).outputs.len(), 1)
}

#[test]
fn resolve_all_treats_every_selector_as_present() {
    let l = all(&profile(vec![
        mon("A", "3840x2160", 1.5),
        mon("B", "3840x2160", 1.5),
        mon("C", "2560x1600", 1.5),
    ]));
    assert_eq!(l.outputs.len(), 3);
    assert!(l.unmatched.is_empty())
}

// ---------------------------------------------------------------------------

#[test]
fn monitor_without_mode_warns_and_keeps_its_scale() {
    let mut m = mon("A", "", 1.25);
    m.mode = None;
    let p = profile(vec![m, mon("B", "1920x1080", 1.0)]);
    let l = all(&p);
    assert_eq!(l.outputs[0].position, (0, 0));
    assert_eq!(l.outputs[0].scale.literal, "1.25");
    assert_eq!(l.outputs[1].position, (0, 0));
    assert_eq!(
        l.warnings,
        vec!["A: no mode and no explicit position; later monitors may overlap"]
    );
}

#[test]
fn outputs_take_the_connected_name() {
    let c = [
        ConnectedOutput { name: "DP-1".into(), description: "Dell A".into() },
        ConnectedOutput { name: "DP-2".into(), description: "Dell B".into() },
    ];
    let p = profile(vec![mon("desc:Dell", "1920x1080", 1.0), mon("DP-2", "1920x1080", 1.0)]);
    let l = resolve(&p, &c, &metrics(&p));
    assert_eq!(l.outputs[0].name, "DP-1");
    assert_eq!(l.outputs[0].selector, "desc:Dell");
    assert_eq!(l.outputs[1].name, "DP-2");
    assert_eq!(l.outputs[1].position, (1920, 0));
}

#[test]
fn unmatched_monitor_does_not_advance() {
    let c = [ConnectedOutput { name: "B".into(), description: String::new() }];
    let p = profile(vec![mon("A", "1920x1080", 1.0), mon("B", "1920x1080", 1.0)]);
    let l = resolve(&p, &c, &metrics(&p));
    assert_eq!(l.unmatched, vec!["A"]);
    assert_eq!(l.outputs[0].position, (0, 0));
}

#[test]
fn desc_selector_with_leading_space_misses_its_stand_in() {
    let l = all(&profile(vec![mon("desc: X", "1920x1080", 1.0)]));
    assert!(l.outputs.is_empty());
    assert_eq!(l.unmatched, vec!["desc: X"]);
}

#[test]
fn selects_rules() {
    let o = ConnectedOutput { name: "HDMI-A-1".into(), description: "LG Electronics 27GL850".into() };
    assert!(selects("HDMI-A-1", &o));
    assert!(!selects("HDMI-A", &o));
    assert!(selects("desc:LG Electronics", &o));
    assert!(selects("desc: LG ", &o));
    assert!(!selects("desc:27GL850", &o));
}

#[test]
fn row_fits_checks_metrics_and_range() {
    let p = profile(vec![mon("A", "1920x1080", 1.0)]);
    let m = metrics(&p);
    assert!(row_fits(&p, &[], &m));
    assert!(!row_fits(&p, &[], &[]));
    let mut huge = metrics(&p);
    huge[0].snapped.as_mut().unwrap().width = i32::MAX;
    let p2 = profile(vec![mon("A", "1920x1080", 1.0), mon("B", "1920x1080", 1.0)]);
    let mut m2 = metrics(&p2);
    m2[0].snapped = huge[0].snapped.clone();
    m2[1].snapped = huge[0].snapped.clone();
    let c2 = monitor_profiles::layout::stand_in_outputs(&p2);
    assert!(!row_fits(&p2, &c2, &m2));
}

#[test]
fn valid_scale_exact_when_mode_allows() {
    assert_eq!(valid_scale(3840, 2160, 1.5), 1.5);
    assert_eq!(valid_scale(3440, 1440, 1.0), 1.0)
}

#[test]
fn valid_scale_snaps_edp_panel() {
    assert_eq!(valid_scale(2560, 1600, 1.5), 1.6)
}

#[test]
fn valid_scale_exact_at_1_25() {
    assert_eq!(valid_scale(2560, 1600, 1.25), 1.25)
}

#[test]
fn scale_steps_lists_exact_divisors_in_order() {
    let s = scale_steps(2560, 1600);
    assert!(s.contains(&150));
    assert!(s.contains(&192));
    assert!(!s.contains(&180));
    assert!(s.windows(2).all(|w| w[0] < w[1]));
    assert!(s.iter().all(|&k| (120..=360).contains(&k)
        && (2560u64 * 120) % k == 0
        && (1600u64 * 120) % k == 0));
    assert_eq!(s.len(), (120..=360u64).filter(|k| 307200 % k == 0 && 192000 % k == 0).count());
    assert_eq!(scale_steps(1, 1), vec![120]);
}
