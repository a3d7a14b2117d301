use dioxus_helmet::attributes::AttributeMap;
use dioxus_helmet::declaration::HeadDeclaration;
use dioxus_helmet::registry::Registry;

fn declare(tag: &str, pairs: &[(&str, &str)], body: Option<&str>) -> HeadDeclaration {
    let mut map = AttributeMap::new();
    for (name, value) in pairs {
        map.insert(name.to_string(), value.to_string());
    }
    match HeadDeclaration::new(tag.to_string(), map, body.map(|b| b.to_string())) {
        Some(declaration) => declaration,
        None => panic!("the element has no name"),
    }
}

fn title() -> HeadDeclaration {
    declare("title", &[], Some("Hello"))
}

#[test]
fn a_new_registry_has_no_entries() {
    let registry = Registry::new();
    assert_eq!(registry.len(), 0);
    assert!(registry.lookup(title().fingerprint()).is_none());
    assert!(registry.can_acquire(title().fingerprint()));
}

#[test]
fn the_first_acquisition_is_fresh() {
    let mut registry = Registry::new();
    let fingerprint = title().fingerprint();
    let acquisition = registry.acquire(title());
    assert!(acquisition.fresh);
    assert_eq!(acquisition.fingerprint, fingerprint);
    assert_eq!(acquisition.mount_count, 1);
    assert_eq!(registry.len(), 1);
    match registry.lookup(fingerprint) {
        Some(entry) => {
            assert_eq!(entry.mount_count(), 1);
            assert_eq!(entry.declaration().tag(), "title");
            assert_eq!(entry.declaration().inner_html(), Some("Hello"));
            assert!(entry.node().is_none());
        },
        None => panic!("the entry is missing"),
    }
}

#[test]
fn a_second_acquisition_raises_the_count() {
    let mut registry = Registry::new();
    let fingerprint = title().fingerprint();
    registry.acquire(title());
    let second = registry.acquire(title());
    assert!(!second.fresh);
    assert_eq!(second.fingerprint, fingerprint);
    assert_eq!(second.mount_count, 2);
    let third = registry.acquire(title());
    assert!(!third.fresh);
    assert_eq!(third.mount_count, 3);
    assert_eq!(registry.len(), 1);
    assert_eq!(registry.lookup(fingerprint).map(|e| e.mount_count()), Some(3));
}

#[test]
fn different_declarations_have_entries_of_their_own() {
    let mut registry = Registry::new();
    let red = declare("style", &[], Some("body { color: red; }"));
    let blue = declare("style", &[], Some("body { color: blue; }"));
    let red_print = red.fingerprint();
    let blue_print = blue.fingerprint();
    assert!(registry.acquire(red).fresh);
    assert!(registry.acquire(blue).fresh);
    assert_eq!(registry.len(), 2);
    assert_eq!(registry.lookup(red_print).map(|e| e.mount_count()), Some(1));
    assert_eq!(registry.lookup(blue_print).map(|e| e.mount_count()), Some(1));
}

#[test]
fn a_release_lowers_the_count_and_the_last_one_removes_the_entry() {
    let mut registry = Registry::new();
    let fingerprint = title().fingerprint();
    registry.acquire(title());
    registry.acquire(title());
    assert!(registry.attach(fingerprint, title().materialise()));
    let first = registry.release(fingerprint);
    assert!(!first.last_holder);
    assert!(first.node.is_none());
    assert_eq!(registry.lookup(fingerprint).map(|e| e.mount_count()), Some(1));
    assert!(registry.lookup(fingerprint).map(|e| e.node().is_some()).unwrap_or(false));
    let second = registry.release(fingerprint);
    assert!(second.last_holder);
    match second.node {
        Some(node) => {
            assert_eq!(node.tag, "title");
            assert_eq!(node.fingerprint, fingerprint);
            assert_eq!(node.inner_html, Some("Hello".to_string()));
        },
        None => panic!("the node is missing"),
    }
    assert!(registry.lookup(fingerprint).is_none());
    assert_eq!(registry.len(), 0);
}

#[test]
fn the_last_release_of_an_entry_without_a_node_gives_no_node() {
    let mut registry = Registry::new();
    let fingerprint = title().fingerprint();
    registry.acquire(title());
    let release = registry.release(fingerprint);
    assert!(release.last_holder);
    assert!(release.node.is_none());
    assert_eq!(registry.len(), 0);
}

#[test]
fn a_release_of_a_fingerprint_without_an_entry_changes_nothing() {
    let mut registry = Registry::new();
    registry.acquire(title());
    let other = declare("base", &[], None).fingerprint();
    let release = registry.release(other);
    assert!(!release.last_holder);
    assert!(release.node.is_none());
    assert_eq!(registry.len(), 1);
    assert_eq!(registry.lookup(title().fingerprint()).map(|e| e.mount_count()), Some(1));
}

#[test]
fn an_entry_keeps_the_first_node_that_it_is_given() {
    let mut registry = Registry::new();
    let fingerprint = title().fingerprint();
    registry.acquire(title());
    assert!(registry.attach(fingerprint, title().materialise()));
    let other = declare("base", &[], None).materialise();
    assert!(!registry.attach(fingerprint, other));
    match registry.lookup(fingerprint).and_then(|e| e.node()) {
        Some(node) => assert_eq!(node.tag, "title"),
        None => panic!("the node is missing"),
    }
    assert_eq!(registry.lookup(fingerprint).map(|e| e.mount_count()), Some(1));
}

#[test]
fn a_node_for_a_fingerprint_without_an_entry_is_not_stored() {
    let mut registry = Registry::new();
    let fingerprint = title().fingerprint();
    assert!(!registry.attach(fingerprint, title().materialise()));
    assert_eq!(registry.len(), 0);
    assert!(registry.lookup(fingerprint).is_none());
}

#[test]
fn an_entry_keeps_the_declaration_that_was_acquired_first() {
    let mut registry = Registry::new();
    let fingerprint = title().fingerprint();
    registry.acquire(title());
    registry.acquire(title());
    match registry.lookup(fingerprint) {
        Some(entry) => {
            assert_eq!(entry.declaration().fingerprint(), fingerprint);
            assert_eq!(entry.declaration().tag(), "title");
        },
        None => panic!("the entry is missing"),
    }
}

#[test]
fn the_count_is_the_acquisitions_less_the_releases() {
    let mut registry = Registry::new();
    let fingerprint = title().fingerprint();
    let mut expected: u64 = 0;
    let steps = [true, true, false, true, false, false, false, true, true, false];
    for acquire in steps {
        if acquire {
            assert!(registry.can_acquire(fingerprint));
            registry.acquire(title());
            expected += 1;
        } else {
            let release = registry.release(fingerprint);
            assert_eq!(release.last_holder, expected == 1);
            if expected > 0 {
                expected -= 1;
            }
        }
        assert_eq!(registry.lookup(fingerprint).map(|e| e.mount_count()).unwrap_or(0), expected);
        assert_eq!(registry.lookup(fingerprint).is_some(), expected > 0);
    }
}

#[test]
fn the_default_registry_has_no_entries() {
    let registry = Registry::default();
    assert_eq!(registry.len(), 0);
    assert!(registry.lookup(title().fingerprint()).is_none());
}

#[test]
fn an_acquisition_tells_the_fingerprint_the_freshness_and_the_count() {
    let mut registry = Registry::new();
    let fingerprint = title().fingerprint();
    let first = registry.acquire(title());
    let second = registry.acquire(title());
    assert_eq!(
        first,
        dioxus_helmet::registry::Acquisition { fingerprint, fresh: true, mount_count: 1 }
    );
    assert_eq!(
        second,
        dioxus_helmet::registry::Acquisition { fingerprint, fresh: false, mount_count: 2 }
    );
}
