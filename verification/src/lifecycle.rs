//! Mounting and unmounting: what happens to the registry and to the document
//! head when a component that declares head elements comes and goes.
use vstd::prelude::*;
use crate::declaration::node_of;
use crate::declaration::DeclarationView;
use crate::declaration::HeadDeclaration;
use crate::declaration::HeadNode;
use crate::declaration::HeadNodeView;
use crate::extract::extract;
use crate::extract::extraction;
use crate::extract::views_of;
use crate::extract::VirtualNode;
use crate::registry::acquire_model;
use crate::registry::attach_model;
use crate::registry::last_holder;
use crate::registry::node_view;
use crate::registry::release_model;
use crate::registry::room_for;
use crate::registry::Registry;
use crate::registry::RegistryView;
use crate::registry::Release;

verus! {

/// Where a mount stands: the registry, the fingerprints that the component
/// holds so far, and the nodes that are to be appended to the head.
pub struct MountView {
    pub registry: RegistryView,
    pub held: Seq<u64>,
    pub created: Seq<HeadNodeView>,
}

/// Where an unmount stands: the registry, and the nodes that are to be taken
/// out of the head.
pub struct UnmountView {
    pub registry: RegistryView,
    pub removed: Seq<HeadNodeView>,
}

/// One declaration of a mounting component. A fingerprint that the component
/// holds already is not counted again. Otherwise the component acquires the
/// declaration and holds its fingerprint; where the fingerprint had no entry,
/// the node of the declaration is made, attached to the new entry and
/// appended to the head.
pub open spec fn mount_one(s: MountView, d: DeclarationView) -> MountView {
    let f = d.fingerprint;
    if s.held.contains(f) {
        s
    } else if s.registry.contains_key(f) {
        MountView {
            registry: acquire_model(s.registry, d),
            held: s.held.push(f),
            created: s.created,
        }
    } else {
        MountView {
            registry: attach_model(acquire_model(s.registry, d), f, node_of(d)),
            held: s.held.push(f),
            created: s.created.push(node_of(d)),
        }
    }
}

/// The declarations of a mounting component, one after the other.
pub open spec fn mount_all(s: MountView, declarations: Seq<DeclarationView>) -> MountView
    decreases declarations.len(),
{
    if declarations.len() == 0 {
        s
    } else {
        mount_one(mount_all(s, declarations.drop_last()), declarations.last())
    }
}

/// What the mount of a component that declares `declarations` comes to in
/// the registry `m`.
pub open spec fn mount_model(m: RegistryView, declarations: Seq<DeclarationView>) -> MountView {
    mount_all(MountView { registry: m, held: Seq::empty(), created: Seq::empty() }, declarations)
}

/// Each of the declarations can be acquired once more in the registry `m`.
pub open spec fn can_mount(m: RegistryView, declarations: Seq<DeclarationView>) -> bool {
    forall|i: int|
        0 <= i < declarations.len() ==> room_for(m, (#[trigger] declarations[i]).fingerprint)
}

/// One fingerprint of an unmounting component: it is released, and where the
/// component was the last to hold it, the node of its entry is taken out of
/// the head.
pub open spec fn unmount_one(s: UnmountView, f: u64) -> UnmountView {
    UnmountView {
        registry: release_model(s.registry, f),
        removed: if last_holder(s.registry, f) && s.registry[f].node is Some {
            s.removed.push(s.registry[f].node->0)
        } else {
            s.removed
        },
    }
}

/// The fingerprints of an unmounting component, one after the other.
pub open spec fn unmount_all(s: UnmountView, held: Seq<u64>) -> UnmountView
    decreases held.len(),
{
    if held.len() == 0 {
        s
    } else {
        unmount_one(unmount_all(s, held.drop_last()), held.last())
    }
}

/// What the unmount of a component that holds `held` comes to in the
/// registry `m`.
pub open spec fn unmount_model(m: RegistryView, held: Seq<u64>) -> UnmountView {
    unmount_all(UnmountView { registry: m, removed: Seq::empty() }, held)
}

/// What a component holds after it has given up the fingerprint `f`: what it
/// held, without `f`.
pub open spec fn without(held: Seq<u64>, f: u64) -> Seq<u64> {
    if held.contains(f) {
        held.remove(held.index_of(f))
    } else {
        held
    }
}

/// What each of a sequence of head nodes is made of.
pub open spec fn nodes_of(nodes: Seq<HeadNode>) -> Seq<HeadNodeView> {
    Seq::new(nodes.len(), |i: int| nodes[i]@)
}

/// A mounted component, by what it holds in the registry: the fingerprints
/// of its declarations, each once, in the order in which it declared them.
#[derive(Debug)]
pub struct HelmetInstance {
    held: Vec<u64>,
}

impl View for HelmetInstance {
    type V = Seq<u64>;

    closed spec fn view(&self) -> Seq<u64> {
        self.held@
    }
}

/// What a mount came to.
#[derive(Debug)]
pub struct Mounted {
    /// The component, to be kept until it unmounts.
    pub instance: HelmetInstance,
    /// The nodes to append to the document head, in this order.
    pub created: Vec<HeadNode>,
}

fn position_of(held: &Vec<u64>, fingerprint: u64) -> (place: Option<usize>)
    ensures
        place is Some <==> held@.contains(fingerprint),
        place matches Some(i) ==> i < held@.len() && held@[i as int] == fingerprint,
{
    let mut i: usize = 0;
    while i < held.len()
        invariant
            i <= held@.len(),
            forall|j: int| 0 <= j < i ==> held@[j] != fingerprint,
        decreases held@.len() - i,
    {
        if held[i] == fingerprint {
            return Some(i);
        }
        i += 1;
    }
    None
}

impl HelmetInstance {
    /// No fingerprint is held twice.
    #[verifier::type_invariant]
    pub closed spec fn wf(&self) -> bool {
        self.held@.no_duplicates()
    }

    /// A well-formed component holds no fingerprint twice.
    pub proof fn lemma_wf(&self)
        requires
            self.wf(),
        ensures
            self@.no_duplicates(),
    {
    }

    /// The fingerprints that the component holds.
    pub fn held(&self) -> (held: &Vec<u64>)
        ensures
            held@ == self@,
            held@.no_duplicates(),
    {
        proof {
            use_type_invariant(self);
        }
        &self.held
    }

    /// Whether the component holds the fingerprint `fingerprint`.
    pub fn holds(&self, fingerprint: u64) -> (held: bool)
        ensures
            held == self@.contains(fingerprint),
    {
        position_of(&self.held, fingerprint).is_some()
    }

    /// Gives up the fingerprint `fingerprint`, as when its node could not be
    /// put into the document: the component no longer holds it and releases
    /// it in the registry. A fingerprint that the component does not hold is
    /// left alone.
    pub fn abandon(&mut self, registry: &mut Registry, fingerprint: u64) -> (release: Option<
        Release,
    >)
        ensures
            final(self).wf(),
            final(registry).wf(),
            release is Some <==> old(self)@.contains(fingerprint),
            final(self)@ == without(old(self)@, fingerprint),
            release is None ==> final(registry)@ == old(registry)@,
            release matches Some(r) ==> {
                &&& final(registry)@ == release_model(old(registry)@, fingerprint)
                &&& r.last_holder == last_holder(old(registry)@, fingerprint)
                &&& node_view(r.node) == if r.last_holder {
                    old(registry)@[fingerprint].node
                } else {
                    None
                }
            },
    {
        proof {
            use_type_invariant(&*self);
            use_type_invariant(&*registry);
        }
        match position_of(&self.held, fingerprint) {
            Some(place) => {
                let mut held: Vec<u64> = Vec::new();
                std::mem::swap(&mut self.held, &mut held);
                held.remove(place);
                proof {
                    let at = old(self)@.index_of(fingerprint);
                    assert(at == place) by {
                        if at != place {
                            assert(old(self)@[at] == old(self)@[place as int]);
                        }
                    }
                    old(self)@.remove_ensures(place as int);
                    assert(held@.no_duplicates());
                }
                self.held = held;
                Some(registry.release(fingerprint))
            },
            None => None,
        }
    }
}

/// Mounts a component whose children are the subtree `children`: the
/// declarations of the subtree are acquired, each fingerprint once, and the
/// nodes of those that were not in the registry are made and attached.
///
/// Nothing is done, and nothing comes back, where one of the declarations
/// cannot be acquired because the count of its entry cannot rise further.
pub fn mount(registry: &mut Registry, children: &VirtualNode) -> (mounted: Option<Mounted>)
    ensures
        final(registry).wf(),
        mounted is Some <==> can_mount(old(registry)@, extraction(*children)),
        mounted is None ==> final(registry)@ == old(registry)@,
        mounted matches Some(m) ==> {
            let model = mount_model(old(registry)@, extraction(*children));
            &&& final(registry)@ == model.registry
            &&& m.instance@ == model.held
            &&& m.instance.wf()
            &&& nodes_of(m.created@) == model.created
        },
{
    let declarations = extract(children);
    mount_declarations(registry, declarations)
}

/// Mounts a component that declares `declarations`, as `mount` does for the
/// declarations of a subtree.
pub fn mount_declarations(registry: &mut Registry, declarations: Vec<HeadDeclaration>) -> (mounted:
    Option<Mounted>)
    ensures
        final(registry).wf(),
        mounted is Some <==> can_mount(old(registry)@, views_of(declarations@)),
        mounted is None ==> final(registry)@ == old(registry)@,
        mounted matches Some(m) ==> {
            let model = mount_model(old(registry)@, views_of(declarations@));
            &&& final(registry)@ == model.registry
            &&& m.instance@ == model.held
            &&& m.instance.wf()
            &&& nodes_of(m.created@) == model.created
        },
{
    proof {
        use_type_invariant(&*registry);
    }
    let ghost views = views_of(declarations@);
    let mut i: usize = 0;
    while i < declarations.len()
        invariant
            i <= declarations@.len(),
            views == views_of(declarations@),
            registry@ == old(registry)@,
            registry.wf(),
            forall|j: int| 0 <= j < i ==> room_for(registry@, (#[trigger] views[j]).fingerprint),
        decreases declarations@.len() - i,
    {
        if !registry.can_acquire(declarations[i].fingerprint()) {
            proof {
                assert(views[i as int] == declarations@[i as int]@);
                assert(!room_for(old(registry)@, views[i as int].fingerprint));
            }
            return None;
        }
        proof {
            assert(views[i as int] == declarations@[i as int]@);
        }
        i += 1;
    }
    let ghost start = MountView { registry: registry@, held: Seq::empty(), created: Seq::empty() };
    let ghost all = declarations@;
    let mut held: Vec<u64> = Vec::new();
    let mut created: Vec<HeadNode> = Vec::new();
    proof {
        assert(views.take(0) =~= Seq::empty());
        assert(nodes_of(created@) =~= Seq::empty());
    }
    for declaration in it: declarations.into_iter()
        invariant
            it.seq() == all,
            views == views_of(all),
            can_mount(old(registry)@, views),
            start == (MountView {
                registry: old(registry)@,
                held: Seq::empty(),
                created: Seq::empty(),
            }),
            registry.wf(),
            registry@ == mount_all(start, views.take(it.index() as int)).registry,
            held@ == mount_all(start, views.take(it.index() as int)).held,
            nodes_of(created@) == mount_all(start, views.take(it.index() as int)).created,
            held@.no_duplicates(),
            forall|f: u64|
                #![trigger held@.contains(f)]
                !held@.contains(f) ==> {
                    &&& registry@.contains_key(f) <==> old(registry)@.contains_key(f)
                    &&& registry@.contains_key(f) ==> registry@[f] == old(registry)@[f]
                },
    {
        let ghost done = it.index() as int;
        let ghost held_before = held@;
        let ghost registry_before = registry@;
        let fingerprint = declaration.fingerprint();
        proof {
            assert(views.take(done + 1).drop_last() =~= views.take(done));
            assert(declaration@ == views[done]);
        }
        if position_of(&held, fingerprint).is_none() {
            if registry.lookup(fingerprint).is_none() {
                let node = declaration.materialise();
                let copy = node.duplicate();
                registry.acquire(declaration);
                registry.attach(fingerprint, node);
                let ghost nodes = created@;
                created.push(copy);
                proof {
                    assert(nodes_of(created@) =~= nodes_of(nodes).push(copy@));
                }
            } else {
                registry.acquire(declaration);
            }
            held.push(fingerprint);
            proof {
                assert forall|f: u64| #![trigger held@.contains(f)] !held@.contains(f) implies {
                    &&& registry@.contains_key(f) <==> old(registry)@.contains_key(f)
                    &&& registry@.contains_key(f) ==> registry@[f] == old(registry)@[f]
                } by {
                    if held_before.contains(f) {
                        let j = choose|j: int| 0 <= j < held_before.len() && held_before[j] == f;
                        assert(held@[j] == f);
                    }
                    if f == fingerprint {
                        assert(held@[held_before.len() as int] == f);
                    }
                    assert(!held_before.contains(f));
                    assert(registry@.contains_key(f) <==> registry_before.contains_key(f));
                }
            }
        }
    }
    proof {
        assert(views.take(all.len() as int) =~= views);
    }
    Some(Mounted { instance: HelmetInstance { held }, created })
}

/// Unmounts a component: each fingerprint that it holds is released, and the
/// nodes of the entries that it was the last to hold come back, to be taken
/// out of the document head in this order.
pub fn unmount(registry: &mut Registry, instance: HelmetInstance) -> (removed: Vec<HeadNode>)
    ensures
        final(registry).wf(),
        final(registry)@ == unmount_model(old(registry)@, instance@).registry,
        nodes_of(removed@) == unmount_model(old(registry)@, instance@).removed,
{
    proof {
        use_type_invariant(&*registry);
    }
    let ghost start = UnmountView { registry: registry@, removed: Seq::empty() };
    let held = instance.held();
    let mut removed: Vec<HeadNode> = Vec::new();
    let mut i: usize = 0;
    proof {
        assert(held@.take(0) =~= Seq::empty());
        assert(nodes_of(removed@) =~= Seq::empty());
    }
    while i < held.len()
        invariant
            i <= held@.len(),
            held@ == instance@,
            start == (UnmountView { registry: old(registry)@, removed: Seq::empty() }),
            registry.wf(),
            registry@ == unmount_all(start, held@.take(i as int)).registry,
            nodes_of(removed@) == unmount_all(start, held@.take(i as int)).removed,
        decreases held@.len() - i,
    {
        proof {
            assert(held@.take(i + 1).drop_last() =~= held@.take(i as int));
        }
        let release = registry.release(held[i]);
        match release.node {
            Some(node) => {
                let ghost nodes = removed@;
                removed.push(node);
                proof {
                    assert(nodes_of(removed@) =~= nodes_of(nodes).push(node@));
                }
            },
            None => {},
        }
        i += 1;
    }
    proof {
        assert(held@.take(i as int) =~= held@);
    }
    removed
}

} // verus!
