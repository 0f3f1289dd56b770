use monitor_profiles::model::{EdpPolicy, GpuPref, Mode, Monitor};

fn refresh(m: &Mode) -> f64 {
    m.refresh.literal.parse().unwrap()
}

#[test]
fn mode_parses_with_and_without_refresh() {
    let m = Mode::parse("3840x2160@120").unwrap();
    assert_eq!((m.width, m.height, refresh(&m)), (3840, 2160, 120.0));
    let m = Mode::parse("2560x1600").unwrap();
    assert_eq!((m.width, m.height, refresh(&m)), (2560, 1600, 0.0));
}

#[test]
fn mode_rejects_garbage() {
    for s in ["", "1920", "0x0", "axb"] {
        assert_eq!(Mode::parse(s), None);
    }
}

// ---------------------------------------------------------------------------

#[test]
fn mode_trims_and_reads_float_refresh() {
    let m = Mode::parse(" 1920 x 1080 @ 59.951 ").unwrap();
    assert_eq!((m.width, m.height), (1920, 1080));
    assert_eq!(m.refresh.literal, "59.951");
    assert_eq!(Mode::parse("1920x1080@fast"), None);
    assert_eq!(Mode::parse("1920x-1080"), None);
    assert_eq!(Mode::parse("4294967296x1"), None);
}

#[test]
fn keywords_round_trip() {
    for e in [EdpPolicy::Auto, EdpPolicy::Enable, EdpPolicy::Disable] {
        assert_eq!(EdpPolicy::parse(e.as_str()), Some(e));
    }
    for g in [GpuPref::Auto, GpuPref::Igpu, GpuPref::Dgpu] {
        assert_eq!(GpuPref::parse(g.as_str()), Some(g));
    }
    assert_eq!(EdpPolicy::parse("Auto"), None);
    assert_eq!(GpuPref::parse("both"), None);
    assert_eq!(EdpPolicy::default(), EdpPolicy::Auto);
    assert_eq!(GpuPref::default(), GpuPref::Auto);
}

#[test]
fn monitor_defaults() {
    let m = Monitor::default();
    assert_eq!(m.output, "");
    assert_eq!(m.mode, None);
    assert_eq!(m.scale.literal, "1");
    assert_eq!(m.position, None);
    assert_eq!(m.transform, 0);
    assert!(m.enabled);
}

#[test]
fn mode_text_writes_dimensions_and_refresh() {
    let m = Mode::parse("3840x2160@120").unwrap();
    assert_eq!(m.text(&Some("120".into())), "3840x2160@120");
    assert_eq!(m.text(&None), "3840x2160");
    let m = Mode::parse("2560x1600").unwrap();
    assert_eq!(m.text(&None), "2560x1600");
}

#[test]
fn canonical_mode_text_parses_and_writes_back() {
    let m = Mode::parse("3840x2160@120").unwrap();
    assert_eq!(m.text(&Some("120".to_string())), "3840x2160@120");
    let m = Mode::parse("2560x1600").unwrap();
    assert_eq!(m.refresh.literal, "0");
    assert_eq!(m.text(&None), "2560x1600");
    let m = Mode::parse("1920x1080@59.94").unwrap();
    assert_eq!(m.text(&Some(m.refresh.literal.clone())), "1920x1080@59.94");
}

fn fmt_num(v: f64) -> String {
    let s = format!("{v:.2}");
    s.trim_end_matches('0').trim_end_matches('.').to_string()
}

fn display(m: &Mode) -> String {
    let r = refresh(m);
    m.text(&if r > 0.0 { Some(fmt_num(r)) } else { None })
}

#[test]
fn mode_display_round_trips() {
    assert_eq!(display(&Mode::parse("3840x2160@120").unwrap()), "3840x2160@120");
    assert_eq!(display(&Mode::parse("2560x1600").unwrap()), "2560x1600");
}
