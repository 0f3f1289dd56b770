use monitor_profiles::layout::{scale_steps, Metrics, Snapped};
use monitor_profiles::model::{EdpPolicy, GpuPref, Mode, Monitor, Number, Profile, WorkspaceRule};
use monitor_profiles::serialize::{quote, to_toml};

fn valid_scale(width: u32, height: u32, target: f64) -> f64 {
    let (mut best, mut bd) = (target, f64::INFINITY);
    for k in scale_steps(width, height) {
        let s = k as f64 / 120.0;
        let d = (s - target).abs();
        if d < bd {
            best = s;
            bd = d
        }
    }
    best
}

fn fmt_num(v: f64) -> String {
    let s = format!("{v:.2}");
    s.trim_end_matches('0').trim_end_matches('.').to_string()
}

fn refresh_text(m: &Mode) -> Option<String> {
    let refresh: f64 = m.refresh.literal.parse().unwrap();
    if refresh > 0.0 {
        Some(fmt_num(refresh))
    } else {
        None
    }
}

fn logical(px: u32, scale: f64) -> i32 {
    (f64::from(px) / scale + 0.5).floor() as i32
}

fn metrics(p: &Profile) -> Vec<Metrics> {
    p.monitors
        .iter()
        .map(|m| {
            let scale: f64 = m.scale.literal.parse().unwrap();
            Metrics {
                refresh_text: m.mode.as_ref().and_then(refresh_text),
                scale_text: fmt_num(scale),
                scale_is_default: !((scale - 1.0).abs() > f64::EPSILON),
                snapped: m.mode.as_ref().map(|z| {
                    let s = valid_scale(z.width, z.height, scale);
                    Snapped {
                        scale: Number { literal: s.to_string() },
                        scale_text: fmt_num(s),
                        width: logical(z.width, s),
                        height: logical(z.height, s),
                    }
                }),
            }
        })
        .collect()
}

fn mon(o: &str, m: &str, s: f64) -> Monitor {
    Monitor {
        output: o.into(),
        mode: Mode::parse(m),
        scale: Number { literal: s.to_string() },
        ..Monitor::default()
    }
}

fn portrait_desk() -> Profile {
    Profile {
        name: "ultrawide-with-secondary".into(),
        description: "ultrawide + portrait".into(),
        matches: vec![
            "desc:Dell Inc. DELL S3422DWG".into(),
            "desc:Dell Inc. DELL S2721QS".into(),
        ],
        edp: EdpPolicy::Auto,
        gpu: GpuPref::Auto,
        hooks: vec![],
        priority: 2,
        monitors: vec![
            Monitor {
                output: "desc:Dell Inc. DELL S3422DWG".into(),
                mode: Mode::parse("3440x1440@144"),
                ..Monitor::default()
            },
            Monitor {
                output: "desc:Dell Inc. DELL S2721QS".into(),
                mode: Mode::parse("3840x2160@60"),
                scale: Number { literal: "1.5".into() },
                transform: 3,
                ..Monitor::default()
            },
        ],
        workspaces: vec![WorkspaceRule {
            workspace: "1".into(),
            monitor: "desc:Dell Inc. DELL S3422DWG".into(),
            default: true,
        }],
    }
}

#[test]
fn to_toml_portrait_desk_text() {
    let p = portrait_desk();
    assert_eq!(
        to_toml(&p, &metrics(&p)),
        "description = \"ultrawide + portrait\"\n\
         match = [\"desc:Dell Inc. DELL S3422DWG\", \"desc:Dell Inc. DELL S2721QS\"]\n\
         \n[[monitor]]\n\
         output = \"desc:Dell Inc. DELL S3422DWG\"\n\
         mode = \"3440x1440@144\"\n\
         \n[[monitor]]\n\
         output = \"desc:Dell Inc. DELL S2721QS\"\n\
         mode = \"3840x2160@60\"\n\
         scale = 1.5\n\
         transform = 3\n\
         \n[[workspace]]\n\
         workspace = \"1\"\n\
         monitor = \"desc:Dell Inc. DELL S3422DWG\"\n\
         default = true\n"
    );
}

#[test]
fn to_toml_writes_non_defaults() {
    let mut p = portrait_desk();
    p.description = String::new();
    p.edp = EdpPolicy::Disable;
    p.gpu = GpuPref::Igpu;
    p.hooks = vec!["h1".into(), "h\"2".into()];
    p.priority = -3;
    p.monitors = vec![Monitor {
        output: "eDP-1".into(),
        position: Some((-1920, 0)),
        enabled: false,
        ..Monitor::default()
    }];
    p.workspaces = vec![];
    assert_eq!(
        to_toml(&p, &metrics(&p)),
        "match = [\"desc:Dell Inc. DELL S3422DWG\", \"desc:Dell Inc. DELL S2721QS\"]\n\
         edp = \"disable\"\n\
         gpu = \"igpu\"\n\
         hooks = [\"h1\", \"h\\\"2\"]\n\
         priority = -3\n\
         \n[[monitor]]\n\
         output = \"eDP-1\"\n\
         position = [-1920, 0]\n\
         enabled = false\n"
    );
}

#[test]
fn quote_escapes_backslash_and_quote() {
    assert_eq!(quote("plain"), "\"plain\"");
    assert_eq!(quote(r#"a\b"c"#), r#""a\\b\"c""#);
    assert_eq!(quote(""), "\"\"");
}

#[test]
fn to_toml_output_is_valid_toml() {
    let p = portrait_desk();
    let text = to_toml(&p, &metrics(&p));
    let table: toml::Table = toml::from_str(&text).unwrap();
    assert_eq!(table["description"].as_str(), Some("ultrawide + portrait"));
    let monitors = table["monitor"].as_array().unwrap();
    assert_eq!(monitors.len(), 2);
    assert_eq!(monitors[1]["transform"].as_integer(), Some(3));
    assert_eq!(monitors[1]["scale"].as_float(), Some(1.5));
}

#[test]
fn to_toml_does_not_depend_on_the_name() {
    let p = portrait_desk();
    let mut q = portrait_desk();
    q.name = "another-name".into();
    let text = to_toml(&p, &metrics(&p));
    assert_eq!(text, to_toml(&q, &metrics(&q)));
    assert!(!text.contains("ultrawide-with-secondary"));
}

#[test]
fn to_toml_omits_a_nan_scale_as_the_default() {
    let mut p = portrait_desk();
    p.monitors[1].scale = Number { literal: "NaN".into() };
    assert!(!to_toml(&p, &metrics(&p)).contains("scale ="));
}
