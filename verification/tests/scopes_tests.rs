use twinsong::errors::CoreError;
use twinsong::ids::ScopeId;
use twinsong::scopes::{SerializedGlobals, SerializedGlobalsUpdate};

fn scope(name: &str, vars: &[(&str, &str)]) -> SerializedGlobals {
    SerializedGlobals::new(
        name.to_string(),
        vars.iter().map(|(k, v)| (k.to_string(), v.to_string())).collect(),
        Vec::new(),
    )
}

fn var<'a>(g: &'a SerializedGlobals, name: &str) -> Option<&'a str> {
    g.variables
        .iter()
        .find(|(k, _)| k == name)
        .map(|(_, v)| v.as_str())
}

#[test]
fn diff_marks_unchanged_values_with_the_sentinel() {
    let prev = scope("s0", &[("a", "1"), ("b", "2")]);
    let cur = scope("s0", &[("a", "1"), ("b", "3")]);
    let update = cur.create_update(Some(&prev));
    assert_eq!(update.variables.len(), 2);
    let a = update.variables.iter().find(|(k, _)| k == "a").unwrap();
    assert!(a.1.is_none());
    let b = update.variables.iter().find(|(k, _)| k == "b").unwrap();
    assert_eq!(b.1.as_deref(), Some("3"));
}

#[test]
fn diff_roundtrip_reconstructs_current_state() {
    let prev = scope("s0", &[("a", "1"), ("b", "2")]);
    let cur = scope("s0", &[("a", "1"), ("b", "3"), ("c", "9")]);
    let update = cur.create_update(Some(&prev));
    let next = update.apply(Some(&prev)).unwrap();
    assert_eq!(next.name, "s0");
    assert_eq!(var(&next, "a"), Some("1"));
    assert_eq!(var(&next, "b"), Some("3"));
    assert_eq!(var(&next, "c"), Some("9"));
    assert_eq!(next.variables.len(), 3);
}

#[test]
fn apply_twice_follows_the_kernel_sequence() {
    // First update populates the scope; the second carries one value
    // forward with the sentinel and replaces the other.
    let empty = SerializedGlobals::default();
    let g1 = scope("s0", &[("a", "1"), ("b", "2")]);
    let u1 = g1.create_update(Some(&empty));
    let server1 = u1.apply(Some(&empty)).unwrap();
    assert_eq!(var(&server1, "a"), Some("1"));
    assert_eq!(var(&server1, "b"), Some("2"));

    let g2 = scope("s0", &[("a", "1"), ("b", "3")]);
    let u2 = g2.create_update(Some(&g1));
    let server2 = u2.apply(Some(&server1)).unwrap();
    assert_eq!(var(&server2, "a"), Some("1"));
    assert_eq!(var(&server2, "b"), Some("3"));
    assert_eq!(server2.variables.len(), 2);
}

#[test]
fn apply_drops_scopes_absent_from_the_update() {
    let child = scope("inner", &[("x", "7")]);
    let prev = SerializedGlobals::new(
        "root".to_string(),
        vec![("a".to_string(), "1".to_string())],
        vec![(ScopeId::new(42), child)],
    );
    let cur = scope("root", &[("a", "1")]);
    let update = cur.create_update(Some(&prev));
    let next = update.apply(Some(&prev)).unwrap();
    assert!(next.children.is_empty());
}

#[test]
fn apply_recurses_into_new_child_scopes() {
    let prev = scope("root", &[]);
    let cur = SerializedGlobals::new(
        "root".to_string(),
        Vec::new(),
        vec![(ScopeId::new(7), scope("inner", &[("x", "7")]))],
    );
    let update = cur.create_update(Some(&prev));
    let next = update.apply(Some(&prev)).unwrap();
    assert_eq!(next.children.len(), 1);
    assert_eq!(next.children[0].0, ScopeId::new(7));
    assert_eq!(var(&next.children[0].1, "x"), Some("7"));
}

#[test]
fn ill_formed_update_fails_and_names_the_kind() {
    let update = SerializedGlobalsUpdate {
        name: "s0".to_string(),
        variables: vec![("ghostvar".to_string(), None)],
        children: Vec::new(),
    };
    let empty = SerializedGlobals::default();
    let r = update.apply(Some(&empty));
    assert!(matches!(r, Err(CoreError::IllFormedUpdate)));
}

#[test]
fn duplicate_preserves_the_whole_tree() {
    let g = SerializedGlobals::new(
        "root".to_string(),
        vec![("a".to_string(), "1".to_string())],
        vec![(ScopeId::new(3), scope("inner", &[("y", "2")]))],
    );
    let d = g.duplicate();
    assert_eq!(d.name, g.name);
    assert_eq!(var(&d, "a"), Some("1"));
    assert_eq!(d.children.len(), 1);
    assert_eq!(var(&d.children[0].1, "y"), Some("2"));
}
