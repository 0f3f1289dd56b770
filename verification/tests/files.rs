use monitor_profiles::files::{
    collect_profiles, join, profile_file_names, profile_stems, sort_names, stem_of, system_dir,
    toml_candidates, unreadable_directory, user_dir_from, FileRead, LoadedFile,
};
use monitor_profiles::model::{EdpPolicy, GpuPref, Profile};

fn names(v: &[&str]) -> Vec<String> {
    v.iter().map(|s| s.to_string()).collect()
}

fn prof(name: &str) -> Profile {
    Profile {
        name: name.into(),
        description: String::new(),
        matches: vec!["A".into()],
        edp: EdpPolicy::Auto,
        gpu: GpuPref::Auto,
        hooks: vec![],
        priority: 1,
        monitors: vec![],
        workspaces: vec![],
    }
}

#[test]
fn only_visible_toml_files_load_in_name_order() {
    let entries = names(&["good.toml", "bad.toml", ".hidden.toml", "notes.txt", "a-b.toml", "a.toml", "x.toml.bak", ".toml"]);
    assert_eq!(
        profile_file_names(&entries),
        names(&["a-b.toml", "a.toml", "bad.toml", "good.toml"])
    );
}

#[test]
fn stems_sort_by_stem() {
    let entries = names(&["a.toml", "a-b.toml", ".x.toml", "c.TOML", "b.toml"]);
    assert_eq!(profile_stems(&entries), names(&["a", "a-b", "b"]));
}

#[test]
fn file_stems() {
    assert_eq!(stem_of("good.toml"), "good");
    assert_eq!(stem_of("a.b.toml"), "a.b");
    assert_eq!(stem_of(".hidden"), ".hidden");
    assert_eq!(stem_of("plain"), "plain");
}

#[test]
fn sorting_keeps_every_name() {
    let sorted = sort_names(names(&["b", "a", "c", "a"]));
    assert_eq!(sorted, names(&["a", "a", "b", "c"]));
}

#[test]
fn collect_keeps_good_skips_bad() {
    let files = vec![
        LoadedFile { source: "d/bad.toml".into(), read: FileRead::Parsed(Err("profile has no `match` entries".into())) },
        LoadedFile { source: "d/good.toml".into(), read: FileRead::Parsed(Ok((prof("good"), vec!["w1".into()]))) },
        LoadedFile { source: "d/locked.toml".into(), read: FileRead::Unreadable("permission denied".into()) },
    ];
    let (p, d) = collect_profiles(files);
    assert_eq!(p.len(), 1);
    assert_eq!(p[0].name, "good");
    assert_eq!(d.len(), 3);
    assert_eq!(d[0].source, "d/bad.toml");
    assert_eq!(d[0].message, "skipped: profile has no `match` entries");
    assert_eq!((d[1].source.as_str(), d[1].message.as_str()), ("d/good.toml", "w1"));
    assert_eq!(d[2].message, "unreadable: permission denied");
}

#[test]
fn unreadable_directory_message() {
    let d = unreadable_directory("/etc/x", "Permission denied (os error 13)");
    assert_eq!(d.source, "/etc/x");
    assert_eq!(d.message, "cannot read profile directory: Permission denied (os error 13)");
}

#[test]
fn paths_join_like_pathbuf() {
    assert_eq!(join("/etc", "a.toml"), "/etc/a.toml");
    assert_eq!(join("/etc/", "a.toml"), "/etc/a.toml");
    assert_eq!(join("", "a.toml"), "a.toml");
    assert_eq!(join("/etc", "/abs.toml"), "/abs.toml");
}

#[test]
fn directories() {
    assert_eq!(system_dir(), "/etc/monitor-profiles");
    assert_eq!(user_dir_from(Some("/x".into()), Some("/home/u".into())), "/x/hypr/profiles");
    assert_eq!(user_dir_from(None, Some("/home/u".into())), "/home/u/.config/hypr/profiles");
    assert_eq!(user_dir_from(None, None), "./hypr/profiles");
    assert_eq!(
        toml_candidates("dual", "/home/u/.config/hypr/profiles"),
        names(&["/home/u/.config/hypr/profiles/dual.toml", "/etc/monitor-profiles/dual.toml"])
    );
}

#[test]
fn load_plan_gives_paths_and_stems_in_order() {
    let entries = names(&["b.toml", "x.txt", "a.toml", ".h.toml"]);
    let plan = monitor_profiles::files::load_plan("/etc/p", &entries);
    assert_eq!(
        plan,
        vec![
            ("/etc/p/a.toml".to_string(), "a".to_string()),
            ("/etc/p/b.toml".to_string(), "b".to_string()),
        ]
    );
}
