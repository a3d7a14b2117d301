use dioxus_helmet::attributes::AttributeMap;
use dioxus_helmet::declaration::HeadDeclaration;
use dioxus_helmet::declaration::HeadNode;
use dioxus_helmet::extract::extract;
use dioxus_helmet::extract::AttributeValue;
use dioxus_helmet::extract::VirtualAttribute;
use dioxus_helmet::extract::VirtualNode;
use dioxus_helmet::lifecycle::mount;
use dioxus_helmet::lifecycle::mount_declarations;
use dioxus_helmet::lifecycle::unmount;
use dioxus_helmet::lifecycle::Mounted;
use dioxus_helmet::registry::Registry;
use std::hash::Hasher;

fn text(t: &str) -> VirtualNode {
    VirtualNode::Text { text: t.to_string() }
}

fn element(tag: &str, attributes: Vec<VirtualAttribute>, children: Vec<VirtualNode>) -> VirtualNode {
    VirtualNode::Element { tag: tag.to_string(), attributes, children }
}

fn helmet(children: Vec<VirtualNode>) -> VirtualNode {
    VirtualNode::Fragment { children }
}

fn fixed(name: &str, value: &str) -> VirtualAttribute {
    VirtualAttribute::Static { name: name.to_string(), value: value.to_string() }
}

fn title(t: &str) -> VirtualNode {
    element("title", vec![], vec![text(t)])
}

fn style(t: &str) -> VirtualNode {
    element("style", vec![], vec![text(t)])
}

fn icon() -> VirtualNode {
    element("link", vec![fixed("rel", "icon"), fixed("href", "/a.png")], vec![])
}

fn mounted(registry: &mut Registry, children: &VirtualNode) -> Mounted {
    match mount(registry, children) {
        Some(m) => m,
        None => panic!("the mount was refused"),
    }
}

fn digest(bytes: &[u8]) -> u64 {
    let mut hasher = rustc_hash::FxHasher::default();
    for byte in bytes {
        hasher.write_u8(*byte);
    }
    hasher.finish()
}

/// The document head as a caller keeps it: the nodes that were appended and
/// not taken out again, by fingerprint, in the order in which they came.
fn apply(head: &mut Vec<u64>, created: &[HeadNode], removed: &[HeadNode]) {
    for node in created {
        head.push(node.fingerprint);
    }
    for node in removed {
        head.retain(|f| *f != node.fingerprint);
    }
}

fn html(node: &HeadNode) -> String {
    let mut out = format!("<{}", node.tag);
    for attribute in &node.attributes {
        out.push_str(&format!(" {}=\"{}\"", attribute.name, attribute.value));
    }
    out.push('>');
    if let Some(body) = &node.inner_html {
        out.push_str(body);
    }
    out.push_str(&format!("</{}>", node.tag));
    out
}

#[test]
fn mounting_a_title_appends_one_node() {
    let mut registry = Registry::new();
    let outcome = mounted(&mut registry, &helmet(vec![title("Hello")]));
    let x = digest(b"titleHello");
    assert_eq!(outcome.instance.held(), &vec![x]);
    assert_eq!(outcome.created.len(), 1);
    assert_eq!(html(&outcome.created[0]), format!("<title data-helmet-id=\"{}\">Hello</title>", x));
    assert_eq!(registry.len(), 1);
    assert_eq!(registry.lookup(x).map(|e| e.mount_count()), Some(1));
    match registry.lookup(x).and_then(|e| e.node()) {
        Some(node) => assert_eq!(html(node), html(&outcome.created[0])),
        None => panic!("the node is missing"),
    }
}

#[test]
fn two_components_with_the_same_title_share_one_node() {
    let mut registry = Registry::new();
    let mut head: Vec<u64> = Vec::new();
    let first = mounted(&mut registry, &helmet(vec![title("Hello")]));
    apply(&mut head, &first.created, &[]);
    let second = mounted(&mut registry, &helmet(vec![title("Hello")]));
    apply(&mut head, &second.created, &[]);
    assert_eq!(first.created.len(), 1);
    assert!(second.created.is_empty());
    assert_eq!(head.len(), 1);
    assert_eq!(registry.len(), 1);
    assert_eq!(registry.lookup(head[0]).map(|e| e.mount_count()), Some(2));

    let removed = unmount(&mut registry, first.instance);
    apply(&mut head, &[], &removed);
    assert!(removed.is_empty());
    assert_eq!(head.len(), 1);
    assert_eq!(registry.lookup(head[0]).map(|e| e.mount_count()), Some(1));

    let removed = unmount(&mut registry, second.instance);
    assert_eq!(removed.len(), 1);
    assert_eq!(removed[0].tag, "title");
    assert_eq!(removed[0].inner_html, Some("Hello".to_string()));
    apply(&mut head, &[], &removed);
    assert!(head.is_empty());
    assert_eq!(registry.len(), 0);
}

#[test]
fn unmounting_the_second_component_first_leaves_the_node_too() {
    let mut registry = Registry::new();
    let first = mounted(&mut registry, &helmet(vec![title("Hello")]));
    let second = mounted(&mut registry, &helmet(vec![title("Hello")]));
    assert!(unmount(&mut registry, second.instance).is_empty());
    assert_eq!(registry.len(), 1);
    assert_eq!(unmount(&mut registry, first.instance).len(), 1);
    assert_eq!(registry.len(), 0);
}

#[test]
fn a_component_that_declares_an_element_twice_acquires_it_once() {
    let mut registry = Registry::new();
    let outcome = mounted(&mut registry, &helmet(vec![icon(), icon()]));
    assert_eq!(outcome.created.len(), 1);
    assert_eq!(outcome.instance.held().len(), 1);
    let f = outcome.instance.held()[0];
    assert_eq!(
        html(&outcome.created[0]),
        format!("<link href=\"/a.png\" rel=\"icon\" data-helmet-id=\"{}\"></link>", f)
    );
    assert_eq!(registry.len(), 1);
    assert_eq!(registry.lookup(f).map(|e| e.mount_count()), Some(1));
    let removed = unmount(&mut registry, outcome.instance);
    assert_eq!(removed.len(), 1);
    assert_eq!(registry.len(), 0);
}

#[test]
fn the_order_of_the_attributes_does_not_make_a_second_node() {
    let mut registry = Registry::new();
    let one = helmet(vec![element("meta", vec![fixed("name", "x"), fixed("content", "1")], vec![])]);
    let other = helmet(vec![element("meta", vec![fixed("content", "1"), fixed("name", "x")], vec![])]);
    let first = mounted(&mut registry, &one);
    let second = mounted(&mut registry, &other);
    assert_eq!(first.created.len(), 1);
    assert!(second.created.is_empty());
    assert_eq!(first.instance.held(), second.instance.held());
    assert_eq!(registry.len(), 1);
}

#[test]
fn two_different_styles_have_a_node_each() {
    let mut registry = Registry::new();
    let mut head: Vec<u64> = Vec::new();
    let red = mounted(&mut registry, &helmet(vec![style("body { color: red; }")]));
    apply(&mut head, &red.created, &[]);
    let blue = mounted(&mut registry, &helmet(vec![style("body { color: blue; }")]));
    apply(&mut head, &blue.created, &[]);
    assert_eq!(head.len(), 2);
    assert_eq!(registry.len(), 2);
    let blue_print = blue.instance.held()[0];
    let removed = unmount(&mut registry, red.instance);
    apply(&mut head, &[], &removed);
    assert_eq!(removed.len(), 1);
    assert_eq!(removed[0].inner_html, Some("body { color: red; }".to_string()));
    assert_eq!(head, vec![blue_print]);
    assert_eq!(registry.len(), 1);
    assert!(registry.lookup(blue_print).is_some());
}

#[test]
fn a_truth_value_reaches_the_node_in_lower_case() {
    let mut registry = Registry::new();
    let children = helmet(vec![element(
        "link",
        vec![
            fixed("rel", "stylesheet"),
            fixed("href", "/a.css"),
            VirtualAttribute::Dynamic {
                name: "disabled".to_string(),
                value: AttributeValue::Bool(true),
            },
        ],
        vec![],
    )]);
    let outcome = mounted(&mut registry, &children);
    assert_eq!(outcome.created.len(), 1);
    let f = outcome.instance.held()[0];
    assert_eq!(
        html(&outcome.created[0]),
        format!(
            "<link disabled=\"true\" href=\"/a.css\" rel=\"stylesheet\" data-helmet-id=\"{}\"></link>",
            f
        )
    );
}

#[test]
fn empty_children_change_nothing() {
    let mut registry = Registry::new();
    let before = mounted(&mut registry, &helmet(vec![title("Hello")]));
    let outcome = mounted(&mut registry, &helmet(vec![]));
    assert!(outcome.created.is_empty());
    assert!(outcome.instance.held().is_empty());
    assert_eq!(registry.len(), 1);
    assert_eq!(registry.lookup(before.instance.held()[0]).map(|e| e.mount_count()), Some(1));
    assert!(unmount(&mut registry, outcome.instance).is_empty());
    assert_eq!(registry.len(), 1);
}

#[test]
fn a_bare_text_changes_nothing() {
    let mut registry = Registry::new();
    let outcome = mounted(&mut registry, &text("Hello"));
    assert!(outcome.created.is_empty());
    assert!(outcome.instance.held().is_empty());
    assert_eq!(registry.len(), 0);
}

#[test]
fn an_element_without_children_makes_a_node_without_a_body() {
    let mut registry = Registry::new();
    let outcome = mounted(&mut registry, &helmet(vec![element("base", vec![fixed("href", "/")], vec![])]));
    assert_eq!(outcome.created.len(), 1);
    assert_eq!(outcome.created[0].inner_html, None);
    assert_eq!(outcome.created[0].tag, "base");
}

#[test]
fn a_single_text_child_is_the_body_of_the_node() {
    let mut registry = Registry::new();
    let outcome = mounted(&mut registry, &helmet(vec![style("body { color: red; }")]));
    assert_eq!(outcome.created.len(), 1);
    assert_eq!(outcome.created[0].inner_html, Some("body { color: red; }".to_string()));
}

#[test]
fn the_nodes_come_in_the_order_of_the_declarations() {
    let mut registry = Registry::new();
    let shared = mounted(&mut registry, &helmet(vec![title("Hello")]));
    let outcome = mounted(
        &mut registry,
        &helmet(vec![icon(), title("Hello"), style("p {}"), icon(), title("Other")]),
    );
    let tags: Vec<&str> = outcome.created.iter().map(|n| n.tag.as_str()).collect();
    assert_eq!(tags, vec!["link", "style", "title"]);
    assert_eq!(outcome.instance.held().len(), 4);
    assert_eq!(outcome.instance.held()[1], shared.instance.held()[0]);
    assert_eq!(registry.len(), 4);
    assert_eq!(registry.lookup(shared.instance.held()[0]).map(|e| e.mount_count()), Some(2));
    let removed_tags: Vec<String> =
        unmount(&mut registry, outcome.instance).into_iter().map(|n| n.tag).collect();
    assert_eq!(removed_tags, vec!["link", "style", "title"]);
    assert_eq!(registry.len(), 1);
    assert_eq!(registry.lookup(shared.instance.held()[0]).map(|e| e.mount_count()), Some(1));
}

#[test]
fn mounting_and_unmounting_restores_the_registry() {
    let mut registry = Registry::new();
    let resident = mounted(&mut registry, &helmet(vec![title("Hello"), icon()]));
    let prints: Vec<u64> = resident.instance.held().clone();
    let visitor = mounted(&mut registry, &helmet(vec![icon(), style("p {}"), title("Bye")]));
    assert_eq!(registry.len(), 4);
    let removed = unmount(&mut registry, visitor.instance);
    assert_eq!(removed.len(), 2);
    assert_eq!(registry.len(), 2);
    for f in prints {
        assert_eq!(registry.lookup(f).map(|e| e.mount_count()), Some(1));
        assert!(registry.lookup(f).and_then(|e| e.node()).is_some());
    }
}

#[test]
fn the_head_holds_one_node_for_each_fingerprint_that_is_held() {
    let mut registry = Registry::new();
    let mut head: Vec<u64> = Vec::new();
    let a = mounted(&mut registry, &helmet(vec![title("A"), icon()]));
    apply(&mut head, &a.created, &[]);
    let b = mounted(&mut registry, &helmet(vec![icon(), style("p {}")]));
    apply(&mut head, &b.created, &[]);
    let c = mounted(&mut registry, &helmet(vec![style("p {}"), title("C"), title("A")]));
    apply(&mut head, &c.created, &[]);
    assert_eq!(head.len(), 4);
    assert_eq!(registry.len(), 4);
    let removed = unmount(&mut registry, b.instance);
    apply(&mut head, &[], &removed);
    assert_eq!(head.len(), 4);
    assert_eq!(registry.len(), 4);
    let removed = unmount(&mut registry, a.instance);
    apply(&mut head, &[], &removed);
    assert_eq!(head.len(), 3);
    assert_eq!(registry.len(), 3);
    let held: Vec<u64> = c.instance.held().clone();
    let mut sorted_head = head.clone();
    sorted_head.sort();
    let mut sorted_held = held.clone();
    sorted_held.sort();
    assert_eq!(sorted_head, sorted_held);
    let removed = unmount(&mut registry, c.instance);
    apply(&mut head, &[], &removed);
    assert!(head.is_empty());
    assert_eq!(registry.len(), 0);
}

#[test]
fn a_component_can_give_up_a_declaration() {
    let mut registry = Registry::new();
    let resident = mounted(&mut registry, &helmet(vec![icon()]));
    let mut outcome = mounted(&mut registry, &helmet(vec![title("Hello"), icon()]));
    let title_print = outcome.instance.held()[0];
    let icon_print = outcome.instance.held()[1];
    match outcome.instance.abandon(&mut registry, title_print) {
        Some(release) => {
            assert!(release.last_holder);
            assert_eq!(release.node.map(|n| n.tag), Some("title".to_string()));
        },
        None => panic!("the fingerprint was held"),
    }
    assert!(!outcome.instance.holds(title_print));
    assert!(outcome.instance.holds(icon_print));
    assert_eq!(outcome.instance.held(), &vec![icon_print]);
    assert!(registry.lookup(title_print).is_none());
    assert!(outcome.instance.abandon(&mut registry, title_print).is_none());
    assert_eq!(registry.len(), 1);
    match outcome.instance.abandon(&mut registry, icon_print) {
        Some(release) => {
            assert!(!release.last_holder);
            assert!(release.node.is_none());
        },
        None => panic!("the fingerprint was held"),
    }
    assert!(outcome.instance.held().is_empty());
    assert_eq!(registry.lookup(icon_print).map(|e| e.mount_count()), Some(1));
    assert!(unmount(&mut registry, outcome.instance).is_empty());
    assert_eq!(unmount(&mut registry, resident.instance).len(), 1);
    assert_eq!(registry.len(), 0);
}

#[test]
fn mounting_declarations_is_mounting_the_subtree_that_gives_them() {
    let children = helmet(vec![title("Hello"), icon(), title("Hello")]);
    let mut one = Registry::new();
    let by_subtree = mounted(&mut one, &children);
    let mut other = Registry::new();
    let by_declarations = match mount_declarations(&mut other, extract(&children)) {
        Some(m) => m,
        None => panic!("the mount was refused"),
    };
    assert_eq!(by_subtree.instance.held(), by_declarations.instance.held());
    assert_eq!(by_subtree.created.len(), by_declarations.created.len());
    assert_eq!(one.len(), other.len());
}

fn under(fingerprint: u64, tag: &str, body: &str) -> HeadDeclaration {
    match HeadDeclaration::with_fingerprint(
        tag.to_string(),
        AttributeMap::new(),
        Some(body.to_string()),
        fingerprint,
    ) {
        Some(declaration) => declaration,
        None => panic!("the element has no name"),
    }
}

#[test]
fn declarations_are_told_apart_by_their_fingerprints_alone() {
    let mut registry = Registry::new();
    let outcome = match mount_declarations(
        &mut registry,
        vec![under(1, "title", "A"), under(2, "title", "A"), under(1, "style", "B")],
    ) {
        Some(m) => m,
        None => panic!("the mount was refused"),
    };
    assert_eq!(outcome.instance.held(), &vec![1, 2]);
    assert_eq!(outcome.created.len(), 2);
    assert_eq!(outcome.created[0].fingerprint, 1);
    assert_eq!(outcome.created[0].tag, "title");
    assert_eq!(outcome.created[1].fingerprint, 2);
    assert_eq!(registry.len(), 2);
    assert_eq!(registry.lookup(1).map(|e| e.declaration().tag().to_string()), Some("title".to_string()));
    let removed: Vec<u64> =
        unmount(&mut registry, outcome.instance).iter().map(|n| n.fingerprint).collect();
    assert_eq!(removed, vec![1, 2]);
    assert_eq!(registry.len(), 0);
}

#[test]
fn an_entry_keeps_its_first_declaration_when_another_comes_under_its_fingerprint() {
    let mut registry = Registry::new();
    let first = match mount_declarations(&mut registry, vec![under(5, "title", "first")]) {
        Some(m) => m,
        None => panic!("the mount was refused"),
    };
    let second = match mount_declarations(&mut registry, vec![under(5, "title", "second")]) {
        Some(m) => m,
        None => panic!("the mount was refused"),
    };
    assert_eq!(first.created.len(), 1);
    assert!(second.created.is_empty());
    assert_eq!(registry.lookup(5).map(|e| e.mount_count()), Some(2));
    assert_eq!(
        registry.lookup(5).and_then(|e| e.declaration().inner_html().map(|t| t.to_string())),
        Some("first".to_string())
    );
    assert!(unmount(&mut registry, first.instance).is_empty());
    let removed = unmount(&mut registry, second.instance);
    assert_eq!(removed.len(), 1);
    assert_eq!(removed[0].inner_html, Some("first".to_string()));
}
