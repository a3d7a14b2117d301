//! What holds of the engine whatever is declared, mounted and unmounted.
use vstd::prelude::*;
use crate::attributes::distinct_names;
use crate::attributes::lemma_map_of_distinct;
use crate::attributes::lemma_map_of_names;
use crate::attributes::map_of;
use crate::attributes::Listing;
use crate::declaration::content_fingerprint;
use crate::declaration::genuine;
use crate::declaration::marker_text;
use crate::declaration::node_of;
use crate::declaration::selector_text;
use crate::declaration::DeclarationView;
use crate::declaration::HeadNodeView;
use crate::extract::extraction;
use crate::extract::projections;
use crate::extract::root_nodes;
use crate::extract::VirtualNode;
use crate::lifecycle::mount_all;
use crate::lifecycle::mount_model;
use crate::lifecycle::mount_one;
use crate::lifecycle::unmount_all;
use crate::lifecycle::unmount_model;
use crate::lifecycle::unmount_one;
use crate::lifecycle::without;
use crate::lifecycle::MountView;
use crate::lifecycle::UnmountView;
use crate::registry::acquire_model;
use crate::registry::attach_model;
use crate::registry::registry_ok;
use crate::registry::release_model;
use crate::registry::EntryView;
use crate::registry::RegistryView;
use crate::text::decimal;
use crate::text::lemma_decimal_injective;

verus! {

/// Declarations of equal content, each under the fingerprint of its content,
/// go under one fingerprint.
pub proof fn law_equal_content_equal_fingerprint(a: DeclarationView, b: DeclarationView)
    requires
        genuine(a),
        genuine(b),
        a.tag == b.tag,
        a.attributes == b.attributes,
        a.inner_html == b.inner_html,
    ensures
        a.fingerprint == b.fingerprint,
        a == b,
{
}

/// The order in which the attributes of an element are written does not
/// matter: two lists that hold the same pairs, each name once, stand for the
/// same attributes, and the declarations made of them have one fingerprint.
pub proof fn law_attribute_order_is_irrelevant(
    tag: Seq<char>,
    a: Listing,
    b: Listing,
    inner_html: Option<Seq<char>>,
)
    requires
        distinct_names(a),
        distinct_names(b),
        a.to_set() == b.to_set(),
    ensures
        map_of(a) == map_of(b),
        content_fingerprint(tag, map_of(a), inner_html) == content_fingerprint(
            tag,
            map_of(b),
            inner_html,
        ),
{
    lemma_map_of_names(a);
    lemma_map_of_names(b);
    lemma_map_of_distinct(a);
    lemma_map_of_distinct(b);
    assert forall|k: Seq<char>| map_of(a).contains_key(k) implies map_of(b).contains_key(k)
        && map_of(a)[k] == map_of(b)[k] by {
        let i = choose|i: int| 0 <= i < a.len() && #[trigger] a[i].0 == k;
        assert(a.to_set().contains(a[i]));
        assert(b.contains(a[i]));
        let j = choose|j: int| 0 <= j < b.len() && b[j] == a[i];
        assert(map_of(b).contains_key(b[j].0));
    }
    assert forall|k: Seq<char>| map_of(b).contains_key(k) implies map_of(a).contains_key(k) by {
        let j = choose|j: int| 0 <= j < b.len() && #[trigger] b[j].0 == k;
        assert(b.to_set().contains(b[j]));
        assert(a.contains(b[j]));
        let i = choose|i: int| 0 <= i < a.len() && a[i] == b[j];
        assert(map_of(a).contains_key(a[i].0));
    }
    assert(map_of(a) =~= map_of(b));
}

/// Every declaration that a list of nodes gives has a name and goes under
/// the fingerprint of its content.
pub proof fn lemma_projections_are_genuine(nodes: Seq<VirtualNode>)
    ensures
        projections(nodes).len() <= nodes.len(),
        forall|i: int|
            0 <= i < projections(nodes).len() ==> genuine(#[trigger] projections(nodes)[i])
                && projections(nodes)[i].tag.len() > 0,
    decreases nodes.len(),
{
    if nodes.len() > 0 {
        lemma_projections_are_genuine(nodes.drop_last());
    }
}

/// Every declaration that a subtree gives has a name and goes under the
/// fingerprint of its content, and the subtree gives at most one declaration
/// for each node at its root.
pub proof fn law_extraction_is_genuine(root: VirtualNode)
    ensures
        extraction(root).len() <= root_nodes(root).len(),
        forall|i: int|
            0 <= i < extraction(root).len() ==> genuine(#[trigger] extraction(root)[i])
                && extraction(root)[i].tag.len() > 0,
{
    lemma_projections_are_genuine(root_nodes(root));
}

/// The marker tells the nodes of different fingerprints apart: the values
/// that it has in their nodes differ, and so do the selectors that find
/// them.
pub proof fn law_marker_tells_fingerprints_apart(a: DeclarationView, b: DeclarationView)
    requires
        a.fingerprint != b.fingerprint,
    ensures
        node_of(a).attributes.last() == (marker_text(), decimal(a.fingerprint as nat)),
        node_of(b).attributes.last() == (marker_text(), decimal(b.fingerprint as nat)),
        node_of(a).attributes.last().1 != node_of(b).attributes.last().1,
        selector_text(a.fingerprint) != selector_text(b.fingerprint),
{
    let da = decimal(a.fingerprint as nat);
    let db = decimal(b.fingerprint as nat);
    if da == db {
        lemma_decimal_injective(a.fingerprint as nat, b.fingerprint as nat);
    }
    if selector_text(a.fingerprint) == selector_text(b.fingerprint) {
        let head = seq!['['] + marker_text() + seq!['=', '\''];
        let tail = seq!['\'', ']'];
        let sa = selector_text(a.fingerprint);
        let sb = selector_text(b.fingerprint);
        assert(sa =~= head + da + tail);
        assert(sb =~= head + db + tail);
        assert(sa.len() == sb.len());
        assert(da.len() == db.len());
        assert forall|i: int| 0 <= i < da.len() implies da[i] == db[i] by {
            assert(sa[head.len() + i] == da[i]);
            assert(sb[head.len() + i] == db[i]);
        }
        assert(da =~= db);
    }
}

/// The entry of a fingerprint, if it has one.
pub open spec fn entry_at(m: RegistryView, f: u64) -> Option<EntryView> {
    if m.contains_key(f) {
        Some(m[f])
    } else {
        None
    }
}

/// What a mount does to each fingerprint. The component holds each
/// fingerprint once. The entry of a fingerprint that it does not hold is as
/// it was. The entry of one that it holds is the entry that was there with
/// its count raised by one, or a new entry with the count one and with its
/// node.
pub proof fn lemma_mount_by_fingerprint(m: RegistryView, declarations: Seq<DeclarationView>)
    ensures
        mount_model(m, declarations).held.no_duplicates(),
        forall|f: u64|
            #![trigger mount_model(m, declarations).held.contains(f)]
            !mount_model(m, declarations).held.contains(f) ==> entry_at(
                mount_model(m, declarations).registry,
                f,
            ) == entry_at(m, f),
        forall|f: u64|
            #![trigger mount_model(m, declarations).held.contains(f)]
            mount_model(m, declarations).held.contains(f) && m.contains_key(f) ==> entry_at(
                mount_model(m, declarations).registry,
                f,
            ) == Some(EntryView { mount_count: m[f].mount_count + 1, ..m[f] }),
        forall|f: u64|
            #![trigger mount_model(m, declarations).held.contains(f)]
            mount_model(m, declarations).held.contains(f) && !m.contains_key(f) ==> {
                let r = mount_model(m, declarations).registry;
                &&& r.contains_key(f)
                &&& r[f].mount_count == 1
                &&& r[f].declaration.fingerprint == f
                &&& r[f].node == Some(node_of(r[f].declaration))
            },
        forall|f: u64|
            #![trigger mount_model(m, declarations).held.contains(f)]
            mount_model(m, declarations).held.contains(f) <==> exists|i: int|
                0 <= i < declarations.len() && (#[trigger] declarations[i]).fingerprint == f,
        m.dom().finite() ==> mount_model(m, declarations).registry.dom().finite(),
    decreases declarations.len(),
{
    let start = MountView { registry: m, held: Seq::empty(), created: Seq::empty() };
    if declarations.len() > 0 {
        let front = declarations.drop_last();
        let d = declarations.last();
        let g = d.fingerprint;
        lemma_mount_by_fingerprint(m, front);
        let before = mount_model(m, front);
        let after = mount_model(m, declarations);
        assert(after == mount_one(before, d));
        assert forall|f: u64| #![trigger after.held.contains(f)] after.held.contains(f) <==> (
        before.held.contains(f) || f == g) by {
            if before.held.contains(g) {
            } else {
                if before.held.contains(f) {
                    let j = choose|j: int| 0 <= j < before.held.len() && before.held[j] == f;
                    assert(after.held[j] == f);
                }
                assert(after.held[before.held.len() as int] == g);
            }
        }
        assert forall|f: u64| #![trigger after.held.contains(f)] after.held.contains(f)
            <==> exists|i: int|
            0 <= i < declarations.len() && (#[trigger] declarations[i]).fingerprint == f by {
            if after.held.contains(f) {
                if before.held.contains(f) {
                    let i = choose|i: int|
                        0 <= i < front.len() && (#[trigger] front[i]).fingerprint == f;
                    assert(declarations[i].fingerprint == f);
                } else {
                    assert(declarations[declarations.len() - 1].fingerprint == f);
                }
            }
            if exists|i: int|
                0 <= i < declarations.len() && (#[trigger] declarations[i]).fingerprint == f {
                let i = choose|i: int|
                    0 <= i < declarations.len() && (#[trigger] declarations[i]).fingerprint == f;
                if i < front.len() {
                    assert(front[i].fingerprint == f);
                }
            }
        }
        assert forall|f: u64|
            #![trigger after.held.contains(f)]
            !after.held.contains(f) implies entry_at(after.registry, f) == entry_at(m, f) by {
            assert(!before.held.contains(f));
        }
        assert forall|f: u64| #![trigger after.held.contains(f)] after.held.contains(f)
            && m.contains_key(f) implies entry_at(after.registry, f) == Some(
            EntryView { mount_count: m[f].mount_count + 1, ..m[f] },
        ) by {
            if !before.held.contains(f) {
                assert(entry_at(before.registry, f) == entry_at(m, f));
            }
        }
        assert forall|f: u64| #![trigger after.held.contains(f)] after.held.contains(f)
            && !m.contains_key(f) implies {
            let r = after.registry;
            &&& r.contains_key(f)
            &&& r[f].mount_count == 1
            &&& r[f].declaration.fingerprint == f
            &&& r[f].node == Some(node_of(r[f].declaration))
        } by {
            if !before.held.contains(f) {
                assert(entry_at(before.registry, f) == entry_at(m, f));
            }
        }
    }
}

/// What an unmount does to each fingerprint: the entry of a fingerprint that
/// the component holds is as after one release, and the entry of any other
/// is as it was.
pub proof fn lemma_unmount_by_fingerprint(m: RegistryView, held: Seq<u64>)
    requires
        held.no_duplicates(),
    ensures
        forall|f: u64|
            #![trigger held.contains(f)]
            held.contains(f) ==> entry_at(unmount_model(m, held).registry, f) == entry_at(
                release_model(m, f),
                f,
            ),
        forall|f: u64|
            #![trigger held.contains(f)]
            !held.contains(f) ==> entry_at(unmount_model(m, held).registry, f) == entry_at(m, f),
        m.dom().finite() ==> unmount_model(m, held).registry.dom().finite(),
    decreases held.len(),
{
    if held.len() > 0 {
        let front = held.drop_last();
        let g = held.last();
        lemma_unmount_by_fingerprint(m, front);
        let before = unmount_model(m, front);
        let after = unmount_model(m, held);
        assert(after == unmount_one(before, g));
        assert(!front.contains(g)) by {
            if front.contains(g) {
                let j = choose|j: int| 0 <= j < front.len() && front[j] == g;
                assert(held[j] == held[held.len() - 1]);
            }
        }
        assert forall|f: u64| #![trigger held.contains(f)] held.contains(f) <==> (front.contains(f)
            || f == g) by {
            if front.contains(f) {
                let j = choose|j: int| 0 <= j < front.len() && front[j] == f;
                assert(held[j] == f);
            }
            assert(held[held.len() - 1] == g);
            if held.contains(f) && f != g {
                let j = choose|j: int| 0 <= j < held.len() && held[j] == f;
                assert(front[j] == f);
            }
        }
        assert forall|f: u64| #![trigger held.contains(f)] held.contains(f) implies entry_at(
            after.registry,
            f,
        ) == entry_at(release_model(m, f), f) by {
            if f == g {
                assert(entry_at(before.registry, g) == entry_at(m, g));
            } else {
                assert(front.contains(f));
            }
        }
        assert forall|f: u64| #![trigger held.contains(f)] !held.contains(f) implies entry_at(
            after.registry,
            f,
        ) == entry_at(m, f) by {
            assert(!front.contains(f));
        }
    }
}

/// An unmount does not look at the entries of fingerprints that the
/// component does not hold: in two registries that differ at one such
/// fingerprint alone it takes out the same nodes, and leaves registries that
/// differ as before.
pub proof fn lemma_unmount_frame(a: RegistryView, b: RegistryView, held: Seq<u64>, f: u64)
    requires
        !held.contains(f),
        forall|g: u64| g != f ==> entry_at(a, g) == entry_at(b, g),
    ensures
        unmount_model(a, held).removed == unmount_model(b, held).removed,
        forall|g: u64|
            g != f ==> entry_at(unmount_model(a, held).registry, g) == entry_at(
                unmount_model(b, held).registry,
                g,
            ),
        entry_at(unmount_model(a, held).registry, f) == entry_at(a, f),
        entry_at(unmount_model(b, held).registry, f) == entry_at(b, f),
    decreases held.len(),
{
    if held.len() > 0 {
        let front = held.drop_last();
        let g = held.last();
        assert(held[held.len() - 1] == g);
        assert(!front.contains(f)) by {
            if front.contains(f) {
                let j = choose|j: int| 0 <= j < front.len() && front[j] == f;
                assert(held[j] == f);
            }
        }
        lemma_unmount_frame(a, b, front, f);
        let ua = unmount_model(a, front);
        let ub = unmount_model(b, front);
        assert(unmount_model(a, held) == unmount_one(ua, g));
        assert(unmount_model(b, held) == unmount_one(ub, g));
        assert(entry_at(ua.registry, g) == entry_at(ub.registry, g));
        assert forall|h: u64| h != f implies entry_at(unmount_one(ua, g).registry, h) == entry_at(
            unmount_one(ub, g).registry,
            h,
        ) by {
            assert(entry_at(ua.registry, h) == entry_at(ub.registry, h));
        }
    }
}

/// A component that mounts and unmounts again leaves the registry as it
/// was, and the nodes that are taken out of the document head when it
/// unmounts are the nodes that were appended when it mounted.
pub proof fn law_mount_then_unmount_restores(m: RegistryView, declarations: Seq<DeclarationView>)
    requires
        registry_ok(m),
    ensures
        unmount_model(
            mount_model(m, declarations).registry,
            mount_model(m, declarations).held,
        ).registry == m,
        unmount_model(
            mount_model(m, declarations).registry,
            mount_model(m, declarations).held,
        ).removed == mount_model(m, declarations).created,
    decreases declarations.len(),
{
    let mounted = mount_model(m, declarations);
    let unmounted = unmount_model(mounted.registry, mounted.held);
    lemma_mount_by_fingerprint(m, declarations);
    lemma_unmount_by_fingerprint(mounted.registry, mounted.held);
    assert forall|f: u64| entry_at(unmounted.registry, f) == entry_at(m, f) by {
        if mounted.held.contains(f) {
            assert(entry_at(unmounted.registry, f) == entry_at(
                release_model(mounted.registry, f),
                f,
            ));
            if m.contains_key(f) {
                assert(entry_at(mounted.registry, f) == Some(
                    EntryView { mount_count: m[f].mount_count + 1, ..m[f] },
                ));
            }
        } else {
            assert(entry_at(unmounted.registry, f) == entry_at(mounted.registry, f));
            assert(entry_at(mounted.registry, f) == entry_at(m, f));
        }
    }
    assert forall|f: u64| unmounted.registry.contains_key(f) <==> m.contains_key(f) by {
        assert(entry_at(unmounted.registry, f) == entry_at(m, f));
    }
    assert forall|f: u64| m.contains_key(f) implies unmounted.registry[f] == m[f] by {
        assert(entry_at(unmounted.registry, f) == entry_at(m, f));
    }
    assert(unmounted.registry =~= m);
    if declarations.len() == 0 {
        assert(unmounted.removed =~= mounted.created);
    } else {
        let front = declarations.drop_last();
        let d = declarations.last();
        let f = d.fingerprint;
        let before = mount_model(m, front);
        law_mount_then_unmount_restores(m, front);
        lemma_mount_by_fingerprint(m, front);
        assert(mounted == mount_one(before, d));
        if !before.held.contains(f) {
            assert(entry_at(before.registry, f) == entry_at(m, f));
            assert forall|g: u64| g != f implies entry_at(mounted.registry, g) == entry_at(
                before.registry,
                g,
            ) by {}
            lemma_unmount_frame(mounted.registry, before.registry, before.held, f);
            let rest = unmount_model(mounted.registry, before.held);
            assert(mounted.held.drop_last() =~= before.held);
            assert(mounted.held.last() == f);
            assert(unmounted == unmount_one(rest, f));
            assert(entry_at(rest.registry, f) == entry_at(mounted.registry, f));
            if m.contains_key(f) {
                assert(m[f].mount_count >= 1);
            }
        }
    }
}

/// A mount of one declaration is one step.
pub proof fn lemma_mount_single(m: RegistryView, d: DeclarationView)
    ensures
        mount_model(m, seq![d]) == mount_one(
            MountView { registry: m, held: Seq::empty(), created: Seq::empty() },
            d,
        ),
{
    let start = MountView { registry: m, held: Seq::empty(), created: Seq::empty() };
    assert(seq![d].drop_last() =~= Seq::<DeclarationView>::empty());
    assert(mount_all(start, seq![d].drop_last()) == start);
}

/// An unmount of one fingerprint is one step.
pub proof fn lemma_unmount_single(m: RegistryView, f: u64)
    ensures
        unmount_model(m, seq![f]) == unmount_one(
            UnmountView { registry: m, removed: Seq::empty() },
            f,
        ),
{
    let start = UnmountView { registry: m, removed: Seq::empty() };
    assert(seq![f].drop_last() =~= Seq::<u64>::empty());
    assert(unmount_all(start, seq![f].drop_last()) == start);
}

/// Two components that declare the same element share one head node. The
/// first mount makes the node and the second makes none; when one of the two
/// unmounts the node stays, and when the other unmounts too it is taken out
/// and the registry is as it was before the two came.
pub proof fn law_shared_declaration(m: RegistryView, d: DeclarationView)
    requires
        registry_ok(m),
        !m.contains_key(d.fingerprint),
    ensures
        ({
            let f = d.fingerprint;
            let first = mount_model(m, seq![d]);
            let second = mount_model(first.registry, seq![d]);
            let one_left = unmount_model(second.registry, second.held);
            let none_left = unmount_model(one_left.registry, first.held);
            &&& first.held == seq![f]
            &&& second.held == seq![f]
            &&& first.created == seq![node_of(d)]
            &&& second.created == Seq::<HeadNodeView>::empty()
            &&& second.registry.contains_key(f)
            &&& second.registry[f].mount_count == 2
            &&& second.registry[f].node == Some(node_of(d))
            &&& second.registry.remove(f) == m
            &&& one_left.removed == Seq::<HeadNodeView>::empty()
            &&& one_left.registry == first.registry
            &&& one_left.registry[f].mount_count == 1
            &&& none_left.removed == seq![node_of(d)]
            &&& none_left.registry == m
        }),
{
    let f = d.fingerprint;
    let first = mount_model(m, seq![d]);
    lemma_mount_single(m, d);
    let second = mount_model(first.registry, seq![d]);
    lemma_mount_single(first.registry, d);
    assert(first.held =~= seq![f]);
    assert(second.held =~= seq![f]);
    assert(first.created =~= seq![node_of(d)]);
    assert(second.registry.remove(f) =~= m);
    let one_left = unmount_model(second.registry, second.held);
    lemma_unmount_single(second.registry, f);
    assert(one_left.registry =~= first.registry);
    let none_left = unmount_model(one_left.registry, first.held);
    lemma_unmount_single(one_left.registry, f);
    assert(none_left.removed =~= seq![node_of(d)]);
    assert(none_left.registry =~= m);
}

/// A component without declarations changes nothing when it mounts.
pub proof fn law_empty_mount_changes_nothing(m: RegistryView)
    ensures
        mount_model(m, Seq::empty()).registry == m,
        mount_model(m, Seq::empty()).held == Seq::<u64>::empty(),
        mount_model(m, Seq::empty()).created == Seq::<HeadNodeView>::empty(),
{
}

/// One thing that is done to the registry.
pub enum RegistryEvent {
    /// A component acquires a declaration.
    Acquire { declaration: DeclarationView },
    /// A head node is handed in for a fingerprint.
    Attach { fingerprint: u64, node: HeadNodeView },
    /// A component releases a fingerprint.
    Release { fingerprint: u64 },
}

/// The registry after one event.
pub open spec fn registry_step(m: RegistryView, event: RegistryEvent) -> RegistryView {
    match event {
        RegistryEvent::Acquire { declaration } => acquire_model(m, declaration),
        RegistryEvent::Attach { fingerprint, node } => attach_model(m, fingerprint, node),
        RegistryEvent::Release { fingerprint } => release_model(m, fingerprint),
    }
}

/// The registry after a history of events, from a registry without entries.
pub open spec fn registry_run(events: Seq<RegistryEvent>) -> RegistryView
    decreases events.len(),
{
    if events.len() == 0 {
        Map::empty()
    } else {
        registry_step(registry_run(events.drop_last()), events.last())
    }
}

/// How often the fingerprint `f` was acquired in a history.
pub open spec fn acquisitions(events: Seq<RegistryEvent>, f: u64) -> nat
    decreases events.len(),
{
    if events.len() == 0 {
        0
    } else {
        let before = acquisitions(events.drop_last(), f);
        match events.last() {
            RegistryEvent::Acquire { declaration } => if declaration.fingerprint == f {
                before + 1
            } else {
                before
            },
            _ => before,
        }
    }
}

/// How often the fingerprint `f` was released in a history. A release of a
/// fingerprint that has no entry at that time is not in order and does not
/// count.
pub open spec fn releases(events: Seq<RegistryEvent>, f: u64) -> nat
    decreases events.len(),
{
    if events.len() == 0 {
        0
    } else {
        let before = releases(events.drop_last(), f);
        match events.last() {
            RegistryEvent::Release { fingerprint } => if fingerprint == f && registry_run(
                events.drop_last(),
            ).contains_key(f) {
                before + 1
            } else {
                before
            },
            _ => before,
        }
    }
}

/// The count of an entry is the number of acquisitions less the number of
/// releases of its fingerprint. That difference never falls below zero, and
/// a fingerprint has an entry exactly while it is above zero: the release
/// that brings it to zero takes the entry away.
pub proof fn law_count_is_acquisitions_less_releases(events: Seq<RegistryEvent>, f: u64)
    ensures
        registry_ok(registry_run(events)),
        acquisitions(events, f) >= releases(events, f),
        registry_run(events).contains_key(f) <==> acquisitions(events, f) > releases(events, f),
        registry_run(events).contains_key(f) ==> registry_run(events)[f].mount_count
            == acquisitions(events, f) - releases(events, f),
    decreases events.len(),
{
    if events.len() > 0 {
        let front = events.drop_last();
        law_count_is_acquisitions_less_releases(front, f);
        let before = registry_run(front);
        let after = registry_run(events);
        assert forall|g: u64| #[trigger] after.contains_key(g) implies after[g].mount_count >= 1
            && after[g].declaration.fingerprint == g by {
            if before.contains_key(g) {
                assert(before[g].mount_count >= 1);
            }
        }
    }
}

/// The engine as a whole: the registry, and the components that are mounted,
/// each by the fingerprints that it holds.
pub struct EngineView {
    pub registry: RegistryView,
    pub mounted: Seq<Seq<u64>>,
}

/// One thing that happens to the engine.
pub enum LifecycleEvent {
    /// A component that declares `declarations` mounts.
    Mount { declarations: Seq<DeclarationView> },
    /// The mounted component at the place `instance` unmounts.
    Unmount { instance: int },
    /// The mounted component at the place `instance` gives up the
    /// fingerprint `fingerprint`.
    Abandon { instance: int, fingerprint: u64 },
}

/// The engine after one event. An event at a component that is not there
/// changes nothing, and neither does giving up a fingerprint that the
/// component does not hold.
pub open spec fn engine_step(e: EngineView, event: LifecycleEvent) -> EngineView {
    match event {
        LifecycleEvent::Mount { declarations } => {
            let mounted = mount_model(e.registry, declarations);
            EngineView { registry: mounted.registry, mounted: e.mounted.push(mounted.held) }
        },
        LifecycleEvent::Unmount { instance } => if 0 <= instance < e.mounted.len() {
            EngineView {
                registry: unmount_model(e.registry, e.mounted[instance]).registry,
                mounted: e.mounted.remove(instance),
            }
        } else {
            e
        },
        LifecycleEvent::Abandon { instance, fingerprint } => if 0 <= instance < e.mounted.len()
            && e.mounted[instance].contains(fingerprint) {
            EngineView {
                registry: release_model(e.registry, fingerprint),
                mounted: e.mounted.update(instance, without(e.mounted[instance], fingerprint)),
            }
        } else {
            e
        },
    }
}

/// The engine after a history of events, from an engine without entries and
/// without components.
pub open spec fn engine_run(events: Seq<LifecycleEvent>) -> EngineView
    decreases events.len(),
{
    if events.len() == 0 {
        EngineView { registry: Map::empty(), mounted: Seq::empty() }
    } else {
        engine_step(engine_run(events.drop_last()), events.last())
    }
}

/// The number of mounted components that hold the fingerprint `f`.
pub open spec fn holders(mounted: Seq<Seq<u64>>, f: u64) -> nat
    decreases mounted.len(),
{
    if mounted.len() == 0 {
        0
    } else if mounted.last().contains(f) {
        holders(mounted.drop_last(), f) + 1
    } else {
        holders(mounted.drop_last(), f)
    }
}

/// The fingerprints that some mounted component holds.
pub open spec fn held_fingerprints(mounted: Seq<Seq<u64>>) -> Set<u64> {
    Set::new(|f: u64| exists|i: int| 0 <= i < mounted.len() && (#[trigger] mounted[i]).contains(f))
}

/// The nodes that the engine has in the document head, by fingerprint.
pub open spec fn head_children(m: RegistryView) -> Map<u64, HeadNodeView> {
    Map::new(|f: u64| m.contains_key(f) && m[f].node is Some, |f: u64| m[f].node->0)
}

/// The registry and the mounted components agree: the count of each entry is
/// the number of components that hold its fingerprint, a fingerprint without
/// an entry is held by none, every entry has the node of its declaration,
/// and no component holds a fingerprint twice.
pub open spec fn engine_ok(e: EngineView) -> bool {
    &&& registry_ok(e.registry)
    &&& forall|i: int| 0 <= i < e.mounted.len() ==> (#[trigger] e.mounted[i]).no_duplicates()
    &&& forall|f: u64| #[trigger]
        e.registry.contains_key(f) ==> e.registry[f].mount_count == holders(e.mounted, f)
            && e.registry[f].node == Some(node_of(e.registry[f].declaration))
    &&& forall|f: u64| !(#[trigger] e.registry.contains_key(f)) ==> holders(e.mounted, f) == 0
}

/// A fingerprint has a holder exactly if some mounted component holds it.
pub proof fn lemma_holders_positive(mounted: Seq<Seq<u64>>, f: u64)
    ensures
        holders(mounted, f) > 0 <==> held_fingerprints(mounted).contains(f),
    decreases mounted.len(),
{
    if mounted.len() > 0 {
        let front = mounted.drop_last();
        lemma_holders_positive(front, f);
        if held_fingerprints(front).contains(f) {
            let i = choose|i: int| 0 <= i < front.len() && (#[trigger] front[i]).contains(f);
            assert(mounted[i].contains(f));
        }
        if held_fingerprints(mounted).contains(f) && !mounted.last().contains(f) {
            let i = choose|i: int| 0 <= i < mounted.len() && (#[trigger] mounted[i]).contains(f);
            assert(front[i].contains(f));
        }
        if mounted.last().contains(f) {
            assert(mounted[mounted.len() - 1].contains(f));
        }
    }
}

/// A component that leaves takes one holder from each fingerprint that it
/// holds.
pub proof fn lemma_holders_remove(mounted: Seq<Seq<u64>>, i: int, f: u64)
    requires
        0 <= i < mounted.len(),
    ensures
        holders(mounted, f) == holders(mounted.remove(i), f) + if mounted[i].contains(f) {
            1nat
        } else {
            0nat
        },
    decreases mounted.len(),
{
    let front = mounted.drop_last();
    if i == mounted.len() - 1 {
        assert(mounted.remove(i) =~= front);
    } else {
        lemma_holders_remove(front, i, f);
        assert(mounted.remove(i).drop_last() =~= front.remove(i));
        assert(mounted.remove(i).last() == mounted.last());
    }
}

/// A component that holds other fingerprints than before changes the number
/// of holders of each fingerprint by what it has given up and taken on.
pub proof fn lemma_holders_update(mounted: Seq<Seq<u64>>, i: int, held: Seq<u64>, f: u64)
    requires
        0 <= i < mounted.len(),
    ensures
        holders(mounted.update(i, held), f) + if mounted[i].contains(f) {
            1nat
        } else {
            0nat
        } == holders(mounted, f) + if held.contains(f) {
            1nat
        } else {
            0nat
        },
    decreases mounted.len(),
{
    let front = mounted.drop_last();
    let after = mounted.update(i, held);
    if i == mounted.len() - 1 {
        assert(after.drop_last() =~= front);
        assert(after.last() == held);
    } else {
        lemma_holders_update(front, i, held, f);
        assert(after.drop_last() =~= front.update(i, held));
        assert(after.last() == mounted.last());
    }
}

/// A component that gives up a fingerprint holds what it held, without that
/// fingerprint, and still holds nothing twice.
pub proof fn lemma_without(held: Seq<u64>, f: u64)
    requires
        held.no_duplicates(),
    ensures
        without(held, f).no_duplicates(),
        forall|g: u64|
            #![trigger without(held, f).contains(g)]
            without(held, f).contains(g) <==> held.contains(g) && g != f,
{
    if held.contains(f) {
        let at = held.index_of(f);
        let rest = held.remove(at);
        held.remove_ensures(at);
        assert forall|g: u64| #![trigger rest.contains(g)] rest.contains(g) <==> held.contains(g)
            && g != f by {
            if rest.contains(g) {
                let j = choose|j: int| 0 <= j < rest.len() && rest[j] == g;
                if j < at {
                    assert(held[j] == g);
                } else {
                    assert(held[j + 1] == g);
                }
            }
            if held.contains(g) && g != f {
                let j = choose|j: int| 0 <= j < held.len() && held[j] == g;
                if j < at {
                    assert(rest[j] == g);
                } else {
                    assert(rest[j - 1] == g);
                }
            }
        }
        assert(rest.no_duplicates());
    }
}

/// An event leaves the registry and the mounted components in agreement.
pub proof fn lemma_engine_step_ok(e: EngineView, event: LifecycleEvent)
    requires
        engine_ok(e),
    ensures
        engine_ok(engine_step(e, event)),
{
    let after = engine_step(e, event);
    match event {
        LifecycleEvent::Mount { declarations } => {
            let mounted = mount_model(e.registry, declarations);
            lemma_mount_by_fingerprint(e.registry, declarations);
            assert(e.mounted.push(mounted.held).drop_last() =~= e.mounted);
            assert forall|f: u64|
                holders(after.mounted, f) == holders(e.mounted, f) + if mounted.held.contains(f) {
                    1nat
                } else {
                    0nat
                } by {}
            assert forall|f: u64| #[trigger] after.registry.contains_key(f) implies {
                &&& after.registry[f].mount_count >= 1
                &&& after.registry[f].declaration.fingerprint == f
                &&& after.registry[f].mount_count == holders(after.mounted, f)
                &&& after.registry[f].node == Some(node_of(after.registry[f].declaration))
            } by {
                if mounted.held.contains(f) {
                    if e.registry.contains_key(f) {
                        assert(entry_at(after.registry, f) == Some(
                            EntryView {
                                mount_count: e.registry[f].mount_count + 1,
                                ..e.registry[f]
                            },
                        ));
                    }
                } else {
                    assert(entry_at(after.registry, f) == entry_at(e.registry, f));
                }
            }
            assert forall|f: u64| !(#[trigger] after.registry.contains_key(f)) implies holders(
                after.mounted,
                f,
            ) == 0 by {
                if mounted.held.contains(f) {
                    if e.registry.contains_key(f) {
                        assert(entry_at(after.registry, f) is Some);
                    }
                } else {
                    assert(entry_at(after.registry, f) == entry_at(e.registry, f));
                }
            }
            assert forall|i: int| 0 <= i < after.mounted.len() implies (
            #[trigger] after.mounted[i]).no_duplicates() by {
                if i < e.mounted.len() {
                    assert(after.mounted[i] == e.mounted[i]);
                }
            }
        },
        LifecycleEvent::Unmount { instance } => {
            if 0 <= instance < e.mounted.len() {
                let held = e.mounted[instance];
                lemma_unmount_by_fingerprint(e.registry, held);
                assert forall|f: u64|
                    holders(e.mounted, f) == holders(after.mounted, f) + if held.contains(f) {
                        1nat
                    } else {
                        0nat
                    } by {
                    lemma_holders_remove(e.mounted, instance, f);
                }
                assert forall|f: u64| #[trigger] after.registry.contains_key(f) implies {
                    &&& after.registry[f].mount_count >= 1
                    &&& after.registry[f].declaration.fingerprint == f
                    &&& after.registry[f].mount_count == holders(after.mounted, f)
                    &&& after.registry[f].node == Some(node_of(after.registry[f].declaration))
                } by {
                    if held.contains(f) {
                        assert(entry_at(after.registry, f) == entry_at(
                            release_model(e.registry, f),
                            f,
                        ));
                    } else {
                        assert(entry_at(after.registry, f) == entry_at(e.registry, f));
                    }
                }
                assert forall|f: u64| !(#[trigger] after.registry.contains_key(f)) implies holders(
                    after.mounted,
                    f,
                ) == 0 by {
                    if held.contains(f) {
                        assert(entry_at(after.registry, f) == entry_at(
                            release_model(e.registry, f),
                            f,
                        ));
                        lemma_holders_positive(e.mounted, f);
                        assert(e.mounted[instance].contains(f));
                        assert(e.registry.contains_key(f));
                    } else {
                        assert(entry_at(after.registry, f) == entry_at(e.registry, f));
                    }
                }
                assert forall|i: int| 0 <= i < after.mounted.len() implies (
                #[trigger] after.mounted[i]).no_duplicates() by {
                    if i < instance {
                        assert(after.mounted[i] == e.mounted[i]);
                    } else {
                        assert(after.mounted[i] == e.mounted[i + 1]);
                    }
                }
            }
        },
        LifecycleEvent::Abandon { instance, fingerprint } => {
            if 0 <= instance < e.mounted.len() && e.mounted[instance].contains(fingerprint) {
                let held = e.mounted[instance];
                let rest = without(held, fingerprint);
                assert(held.no_duplicates());
                lemma_without(held, fingerprint);
                assert forall|f: u64|
                    holders(e.mounted, f) == holders(after.mounted, f) + if f == fingerprint {
                        1nat
                    } else {
                        0nat
                    } by {
                    lemma_holders_update(e.mounted, instance, rest, f);
                    assert(rest.contains(f) <==> held.contains(f) && f != fingerprint);
                }
                assert(e.registry.contains_key(fingerprint)) by {
                    lemma_holders_positive(e.mounted, fingerprint);
                    assert(e.mounted[instance].contains(fingerprint));
                }
                assert forall|f: u64| #[trigger] after.registry.contains_key(f) implies {
                    &&& after.registry[f].mount_count >= 1
                    &&& after.registry[f].declaration.fingerprint == f
                    &&& after.registry[f].mount_count == holders(after.mounted, f)
                    &&& after.registry[f].node == Some(node_of(after.registry[f].declaration))
                } by {
                    assert(e.registry.contains_key(f));
                }
                assert forall|f: u64| !(#[trigger] after.registry.contains_key(f)) implies holders(
                    after.mounted,
                    f,
                ) == 0 by {
                    if f != fingerprint {
                        assert(!e.registry.contains_key(f));
                    }
                }
                assert forall|i: int| 0 <= i < after.mounted.len() implies (
                #[trigger] after.mounted[i]).no_duplicates() by {
                    if i != instance {
                        assert(after.mounted[i] == e.mounted[i]);
                    }
                }
            }
        },
    }
}

/// After any history of events the registry and the mounted components
/// agree.
pub proof fn law_engine_stays_ok(events: Seq<LifecycleEvent>)
    ensures
        engine_ok(engine_run(events)),
    decreases events.len(),
{
    if events.len() > 0 {
        law_engine_stays_ok(events.drop_last());
        lemma_engine_step_ok(engine_run(events.drop_last()), events.last());
    }
}

/// After any history of events the document head holds one node for each
/// fingerprint that some mounted component holds, and no other: the nodes
/// are as many as those fingerprints, and each is the node of a declaration
/// with that fingerprint.
pub proof fn law_head_matches_mounted(events: Seq<LifecycleEvent>)
    ensures
        head_children(engine_run(events).registry).dom() == held_fingerprints(
            engine_run(events).mounted,
        ),
        head_children(engine_run(events).registry).dom().finite(),
        head_children(engine_run(events).registry).len() == held_fingerprints(
            engine_run(events).mounted,
        ).len(),
        forall|f: u64| #[trigger]
            head_children(engine_run(events).registry).contains_key(f) ==> head_children(
                engine_run(events).registry,
            )[f].fingerprint == f,
{
    let e = engine_run(events);
    law_engine_stays_ok(events);
    assert forall|f: u64|
        head_children(e.registry).contains_key(f) <==> held_fingerprints(e.mounted).contains(
            f,
        ) by {
        lemma_holders_positive(e.mounted, f);
        if e.registry.contains_key(f) {
            assert(e.registry[f].mount_count >= 1);
        }
    }
    assert(head_children(e.registry).dom() =~= held_fingerprints(e.mounted));
    assert(head_children(e.registry).dom() =~= e.registry.dom()) by {
        assert forall|f: u64| e.registry.contains_key(f) implies head_children(
            e.registry,
        ).contains_key(f) by {
            assert(e.registry[f].node is Some);
        }
    }
}

} // verus!
