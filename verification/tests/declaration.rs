use dioxus_helmet::attributes::AttributeMap;
use dioxus_helmet::declaration::marker_name;
use dioxus_helmet::declaration::marker_selector;
use dioxus_helmet::declaration::HeadDeclaration;
use dioxus_helmet::declaration::ABSENT_BODY;
use dioxus_helmet::declaration::SEPARATOR;
use std::hash::Hasher;

fn attributes(pairs: &[(&str, &str)]) -> AttributeMap {
    let mut map = AttributeMap::new();
    for (name, value) in pairs {
        map.insert(name.to_string(), value.to_string());
    }
    map
}

fn declare(tag: &str, pairs: &[(&str, &str)], body: Option<&str>) -> HeadDeclaration {
    match HeadDeclaration::new(tag.to_string(), attributes(pairs), body.map(|b| b.to_string())) {
        Some(declaration) => declaration,
        None => panic!("the element has no name"),
    }
}

fn digest(bytes: &[u8]) -> u64 {
    let mut hasher = rustc_hash::FxHasher::default();
    for byte in bytes {
        hasher.write_u8(*byte);
    }
    hasher.finish()
}

#[test]
fn a_declaration_keeps_what_it_was_made_of() {
    let declaration = declare("link", &[("rel", "icon"), ("href", "/a.png")], None);
    assert_eq!(declaration.tag(), "link");
    assert_eq!(declaration.attributes().len(), 2);
    assert_eq!(declaration.attributes().get("rel"), Some(&"icon".to_string()));
    assert_eq!(declaration.attributes().get("href"), Some(&"/a.png".to_string()));
    assert_eq!(declaration.inner_html(), None);
    let title = declare("title", &[], Some("Hello"));
    assert_eq!(title.tag(), "title");
    assert_eq!(title.attributes().len(), 0);
    assert_eq!(title.inner_html(), Some("Hello"));
}

#[test]
fn an_element_without_a_name_has_no_declaration() {
    assert!(HeadDeclaration::new(String::new(), AttributeMap::new(), None).is_none());
    assert!(
        HeadDeclaration::new(String::new(), attributes(&[("rel", "icon")]), Some("x".to_string()))
            .is_none()
    );
}

#[test]
fn the_separator_and_the_absent_body_are_fixed_bytes() {
    assert_eq!(SEPARATOR, 0);
    assert_eq!(ABSENT_BODY, 0xff);
}

#[test]
fn the_fingerprint_is_the_digest_of_name_and_body() {
    let title = declare("title", &[], Some("Hello"));
    assert_eq!(title.fingerprint(), digest(b"titleHello"));
}

#[test]
fn the_fingerprint_of_an_element_without_a_body_ends_in_the_absent_body() {
    let base = declare("base", &[], None);
    assert_eq!(base.fingerprint(), digest(b"base\xff"));
}

#[test]
fn the_fingerprint_takes_the_attributes_in_the_order_of_their_names() {
    let link = declare("link", &[("rel", "icon"), ("href", "/a.png")], None);
    assert_eq!(link.fingerprint(), digest(b"linkhref\0/a.png\0rel\0icon\0\xff"));
    let style = declare("style", &[("media", "print")], Some("body { color: red; }"));
    assert_eq!(style.fingerprint(), digest(b"stylemedia\0print\0body { color: red; }"));
}

#[test]
fn the_fingerprint_on_a_machine_with_words_of_64_bits() {
    if usize::BITS == 64 {
        assert_eq!(declare("title", &[], Some("Hello")).fingerprint(), 11330341694906160113);
        assert_eq!(
            declare("link", &[("rel", "icon"), ("href", "/a.png")], None).fingerprint(),
            8852272891731791268
        );
        assert_eq!(
            declare("meta", &[("name", "x"), ("content", "1")], None).fingerprint(),
            18160455305416339996
        );
    }
}

#[test]
fn the_order_of_the_attributes_does_not_change_the_fingerprint() {
    let one = declare("meta", &[("name", "x"), ("content", "1")], None);
    let other = declare("meta", &[("content", "1"), ("name", "x")], None);
    assert_eq!(one.fingerprint(), other.fingerprint());
}

#[test]
fn equal_content_gives_equal_fingerprints() {
    let one = declare("style", &[], Some("body { color: red; }"));
    let other = declare("style", &[], Some("body { color: red; }"));
    assert_eq!(one.fingerprint(), other.fingerprint());
}

#[test]
fn different_content_gives_different_fingerprints() {
    let red = declare("style", &[], Some("body { color: red; }"));
    let blue = declare("style", &[], Some("body { color: blue; }"));
    assert_ne!(red.fingerprint(), blue.fingerprint());
    let icon = declare("link", &[("rel", "icon")], None);
    let sheet = declare("link", &[("rel", "stylesheet")], None);
    assert_ne!(icon.fingerprint(), sheet.fingerprint());
    let with_body = declare("title", &[], Some(""));
    let without_body = declare("title", &[], None);
    assert_ne!(with_body.fingerprint(), without_body.fingerprint());
}

#[test]
fn the_marker_has_its_name() {
    assert_eq!(marker_name(), "data-helmet-id");
}

#[test]
fn the_node_of_a_title() {
    let title = declare("title", &[], Some("Hello"));
    let node = title.materialise();
    assert_eq!(node.fingerprint, title.fingerprint());
    assert_eq!(node.tag, "title");
    assert_eq!(node.inner_html, Some("Hello".to_string()));
    assert_eq!(node.attributes.len(), 1);
    assert_eq!(node.attributes[0].name, "data-helmet-id");
    assert_eq!(node.attributes[0].value, title.fingerprint().to_string());
}

#[test]
fn the_node_of_a_link_has_its_attributes_and_the_marker_last() {
    let link = declare("link", &[("rel", "icon"), ("href", "/a.png")], None);
    let node = link.materialise();
    assert_eq!(node.tag, "link");
    assert_eq!(node.inner_html, None);
    let listed: Vec<(String, String)> =
        node.attributes.iter().map(|a| (a.name.clone(), a.value.clone())).collect();
    assert_eq!(
        listed,
        vec![
            ("href".to_string(), "/a.png".to_string()),
            ("rel".to_string(), "icon".to_string()),
            ("data-helmet-id".to_string(), link.fingerprint().to_string()),
        ]
    );
}

#[test]
fn a_copy_of_a_node_is_made_of_the_same_parts() {
    let node = declare("meta", &[("name", "x"), ("content", "1")], Some("y")).materialise();
    let copy = node.duplicate();
    assert_eq!(copy, node);
    assert_eq!(copy.fingerprint, node.fingerprint);
    assert_eq!(copy.tag, node.tag);
    assert_eq!(copy.inner_html, node.inner_html);
    assert_eq!(copy.attributes.len(), node.attributes.len());
    for i in 0..node.attributes.len() {
        assert_eq!(copy.attributes[i].name, node.attributes[i].name);
        assert_eq!(copy.attributes[i].value, node.attributes[i].value);
    }
}

#[test]
fn the_identifying_bytes_of_a_title() {
    assert_eq!(declare("title", &[], Some("Hello")).identifying_bytes(), b"titleHello".to_vec());
}

#[test]
fn the_identifying_bytes_take_the_attributes_in_the_order_of_their_names() {
    let link = declare("link", &[("rel", "icon"), ("href", "/a.png")], None);
    assert_eq!(link.identifying_bytes(), b"linkhref\0/a.png\0rel\0icon\0\xff".to_vec());
    let meta = declare("meta", &[("name", "x"), ("content", "1")], Some(""));
    assert_eq!(meta.identifying_bytes(), b"metacontent\x001\0name\0x\0".to_vec());
}

#[test]
fn the_identifying_bytes_of_text_beyond_ascii_are_its_utf8() {
    let title = declare("title", &[("lang", "\u{e9}")], Some("\u{4e2d}"));
    let mut expected = b"titlelang\0".to_vec();
    expected.extend_from_slice("\u{e9}".as_bytes());
    expected.push(0);
    expected.extend_from_slice("\u{4e2d}".as_bytes());
    assert_eq!(title.identifying_bytes(), expected);
}

#[test]
fn the_fingerprint_is_the_digest_of_the_identifying_bytes() {
    let samples = [
        declare("title", &[], Some("Hello")),
        declare("link", &[("rel", "icon"), ("href", "/a.png")], None),
        declare("style", &[("media", "print")], Some("body { color: red; }")),
    ];
    for declaration in samples {
        assert_eq!(declaration.fingerprint(), digest(&declaration.identifying_bytes()));
    }
}

#[test]
fn a_declaration_can_go_under_a_fingerprint_of_the_callers() {
    let map = attributes(&[("rel", "icon")]);
    let declaration =
        match HeadDeclaration::with_fingerprint("link".to_string(), map, None, 7) {
            Some(declaration) => declaration,
            None => panic!("the element has no name"),
        };
    assert_eq!(declaration.fingerprint(), 7);
    assert_eq!(declaration.tag(), "link");
    assert_eq!(declaration.attributes().get("rel"), Some(&"icon".to_string()));
    assert_eq!(declaration.inner_html(), None);
    assert_eq!(declaration.identifying_bytes(), b"linkrel\0icon\0\xff".to_vec());
    let node = declaration.materialise();
    assert_eq!(node.fingerprint, 7);
    assert_eq!(node.attributes.len(), 2);
    assert_eq!(node.attributes[1].name, "data-helmet-id");
    assert_eq!(node.attributes[1].value, "7");
}

#[test]
fn an_element_without_a_name_has_no_declaration_under_any_fingerprint() {
    assert!(HeadDeclaration::with_fingerprint(String::new(), AttributeMap::new(), None, 7).is_none());
}

#[test]
fn a_declaration_made_of_its_content_is_genuine() {
    assert!(declare("title", &[], Some("Hello")).is_genuine());
    assert!(declare("link", &[("rel", "icon"), ("href", "/a.png")], None).is_genuine());
}

#[test]
fn a_declaration_under_another_fingerprint_is_not_genuine() {
    let genuine = declare("title", &[], Some("Hello"));
    let other = genuine.fingerprint().wrapping_add(1);
    let same = genuine.fingerprint();
    let moved = HeadDeclaration::with_fingerprint(
        "title".to_string(),
        AttributeMap::new(),
        Some("Hello".to_string()),
        other,
    );
    assert_eq!(moved.map(|d| d.is_genuine()), Some(false));
    let kept = HeadDeclaration::with_fingerprint(
        "title".to_string(),
        AttributeMap::new(),
        Some("Hello".to_string()),
        same,
    );
    assert_eq!(kept.map(|d| d.is_genuine()), Some(true));
}

#[test]
fn the_selector_of_a_fingerprint() {
    assert_eq!(marker_selector(0), "[data-helmet-id='0']");
    assert_eq!(marker_selector(11330341694906160113), "[data-helmet-id='11330341694906160113']");
    assert_eq!(marker_selector(u64::MAX), "[data-helmet-id='18446744073709551615']");
}

#[test]
fn the_marker_tells_different_fingerprints_apart() {
    let one = HeadDeclaration::with_fingerprint("title".to_string(), AttributeMap::new(), None, 1);
    let ten = HeadDeclaration::with_fingerprint("title".to_string(), AttributeMap::new(), None, 10);
    let one = one.map(|d| d.materialise());
    let ten = ten.map(|d| d.materialise());
    assert_eq!(one.as_ref().map(|n| n.attributes[0].value.clone()), Some("1".to_string()));
    assert_eq!(ten.as_ref().map(|n| n.attributes[0].value.clone()), Some("10".to_string()));
    assert_ne!(marker_selector(1), marker_selector(10));
    assert_ne!(marker_selector(1), marker_selector(11));
}
