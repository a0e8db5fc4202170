use discovery_engine_core::sources::{add_source, replace_sources, SourceChange, SourceSet};

fn set(items: &[&str]) -> SourceSet {
    SourceSet::from_vec(items.iter().map(|s| s.to_string()).collect())
}

fn sorted(s: &SourceSet) -> Vec<String> {
    let mut v = s.to_vec();
    v.sort();
    v
}

#[test]
fn sets_hold_each_domain_once() {
    let s = set(&["a.com", "b.com", "a.com"]);
    assert_eq!(s.len(), 2);
    assert!(s.contains("a.com"));
    assert!(!s.contains("c.com"));
}

#[test]
fn adding_then_removing_restores_the_set() {
    let mut s = set(&["a.com"]);
    assert!(s.insert("b.com".to_string()));
    assert!(!s.insert("b.com".to_string()));
    assert!(s.remove("b.com"));
    assert!(!s.remove("b.com"));
    assert!(s.same_as(&set(&["a.com"])));
}

#[test]
fn adding_a_trusted_source_removes_it_from_the_excluded_ones() {
    let mut trusted = set(&["a.com"]);
    let excluded = set(&["b.com", "c.com"]);
    match add_source(&mut trusted, &excluded, "b.com".to_string()) {
        SourceChange::AddedAndMoved(new_excluded) => assert_eq!(sorted(&new_excluded), ["c.com"]),
        _ => panic!("the excluded sources change"),
    }
    assert_eq!(sorted(&trusted), ["a.com", "b.com"]);
    assert!(matches!(add_source(&mut trusted, &excluded, "b.com".to_string()), SourceChange::Unchanged));
    let excluded = set(&["c.com"]);
    assert!(matches!(add_source(&mut trusted, &excluded, "d.com".to_string()), SourceChange::Added));
}

#[test]
fn replacing_sources_reports_a_change() {
    let current = set(&["a.com", "b.com"]);
    let (_, changed) = replace_sources(vec!["b.com".to_string(), "a.com".to_string()], &current);
    assert!(!changed);
    let (new, changed) = replace_sources(vec!["a.com".to_string()], &current);
    assert!(changed);
    assert_eq!(sorted(&new), ["a.com"]);
    assert!(set(&["x"]).intersects(&set(&["y", "x"])));
    assert!(!set(&["x"]).intersects(&set(&["y"])));
    assert_eq!(sorted(&set(&["x", "y", "z"]).difference(&set(&["y"]))), ["x", "z"]);
}
