use monitor_profiles::matching::{match_in_signature, select, select_by, str_less};
use monitor_profiles::model::{EdpPolicy, GpuPref, Profile};

fn prof(name: &str, ms: &[&str], p: i64) -> Profile {
    Profile {
        name: name.into(),
        description: String::new(),
        matches: ms.iter().map(|x| (*x).into()).collect(),
        edp: EdpPolicy::Auto,
        gpu: GpuPref::Auto,
        hooks: vec![],
        priority: p,
        monitors: vec![],
        workspaces: vec![],
    }
}

#[test]
fn select_requires_all_matches() {
    let s = vec!["Dell U2723QE ABC123".into(), "BOE 0x0BCA".into()];
    let p = vec![prof("both", &["Dell U2723QE", "BOE"], 2)];
    assert_eq!(select(&s, &p).unwrap().name, "both");
    assert!(select(&["BOE 0x0BCA".into()], &p).is_none());
}

#[test]
fn select_specificity_then_explicit_priority() {
    let s = vec!["Dell A".into(), "BOE B".into()];
    let mut p = vec![prof("one", &["Dell"], 1), prof("two", &["Dell", "BOE"], 2)];
    assert_eq!(select(&s, &p).unwrap().name, "two");
    p.push(prof("pinned", &["Dell"], 99));
    assert_eq!(select(&s, &p).unwrap().name, "pinned");
}

#[test]
fn match_strips_desc_prefix_and_uses_startswith() {
    let s = vec!["Dell U2723QE HJKL (DP-3)".into()];
    assert!(match_in_signature("desc:Dell U2723QE", &s));
    assert!(match_in_signature("Dell U2723QE", &s));
    assert!(!match_in_signature("U2723QE", &s));
}

#[test]
fn select_none_when_nothing_matches() {
    assert!(select(&[], &[prof("x", &["X"], 1)]).is_none());
}

// ---------------------------------------------------------------------------

#[test]
fn ties_break_by_match_count_then_name() {
    let s = vec!["Dell A".into(), "BOE B".into()];
    let p = vec![prof("b", &["Dell"], 5), prof("a", &["Dell", "BOE"], 5)];
    assert_eq!(select(&s, &p).unwrap().name, "a");
    let p = vec![prof("b", &["Dell"], 5), prof("c", &["BOE"], 5), prof("a", &["Dell"], 5)];
    assert_eq!(select(&s, &p).unwrap().name, "c");
}

#[test]
fn exact_ties_pick_the_last() {
    let s = vec!["Dell A".into()];
    let p = vec![prof("same", &["Dell"], 1), prof("same", &["desc:Dell"], 1)];
    let chosen = select(&s, &p).unwrap();
    assert_eq!(chosen.matches, vec!["desc:Dell"]);
}

#[test]
fn desc_prefix_needle_is_trimmed() {
    let s = vec!["Dell U2723QE".into()];
    assert!(match_in_signature("desc:  Dell ", &s));
    assert!(!match_in_signature("desc:Dell U2723QE HJKL", &s));
}

#[test]
fn empty_match_list_is_always_eligible() {
    let p = vec![prof("any", &[], 0)];
    assert_eq!(select(&[], &p).unwrap().name, "any");
}

#[test]
fn select_by_uses_the_given_fields() {
    let items = vec![(vec!["X".to_string()], 3i64, "low".to_string()), (vec![], 9, "high".into())];
    let s = vec!["X1".into()];
    let r = select_by(&s, &items, |t| (t.0.as_slice(), t.1, t.2.as_str())).unwrap();
    assert_eq!(r.2, "high");
}

#[test]
fn str_order_is_by_character() {
    assert!(str_less("a", "b"));
    assert!(str_less("ab", "abc"));
    assert!(!str_less("abc", "ab"));
    assert!(!str_less("x", "x"));
    assert!(str_less("Z", "a"));
}
