//! The registry: which declarations are in the document head now, and how
//! many mounted components declare each.
use std::collections::HashMap;
use vstd::prelude::*;
use crate::declaration::DeclarationView;
use crate::declaration::HeadDeclaration;
use crate::declaration::HeadNode;
use crate::declaration::HeadNodeView;

verus! {

broadcast use vstd::std_specs::hash::group_hash_axioms;

/// What the registry holds for one fingerprint: the declaration that was
/// first acquired under it, the number of components that hold it, and the
/// head node, once one is attached.
pub struct EntryView {
    pub declaration: DeclarationView,
    pub mount_count: nat,
    pub node: Option<HeadNodeView>,
}

/// What a registry holds, by fingerprint.
pub type RegistryView = Map<u64, EntryView>;

/// Every entry stands under the fingerprint of its declaration and is held
/// by at least one component, and the entries are finitely many.
pub open spec fn registry_ok(m: RegistryView) -> bool {
    &&& m.dom().finite()
    &&& forall|f: u64| #[trigger]
        m.contains_key(f) ==> m[f].mount_count >= 1 && m[f].declaration.fingerprint == f
}

/// The fingerprint `f` can be acquired once more: it has no entry, or the
/// count of its entry is below the largest number that a count can hold.
pub open spec fn room_for(m: RegistryView, f: u64) -> bool {
    m.contains_key(f) ==> m[f].mount_count < u64::MAX
}

/// The component that releases `f` next is the last to hold it.
pub open spec fn last_holder(m: RegistryView, f: u64) -> bool {
    m.contains_key(f) && m[f].mount_count <= 1
}

/// The registry after a component has acquired the declaration `d`: a new
/// entry with the count one and without a node where the fingerprint of `d`
/// had none, and the entry that is there with its count raised by one
/// otherwise.
pub open spec fn acquire_model(m: RegistryView, d: DeclarationView) -> RegistryView {
    let f = d.fingerprint;
    if m.contains_key(f) {
        m.insert(f, EntryView { mount_count: m[f].mount_count + 1, ..m[f] })
    } else {
        m.insert(f, EntryView { declaration: d, mount_count: 1, node: None })
    }
}

/// The registry after a component has released the fingerprint `f`: without
/// the entry where it was the last to hold it, with the count lowered by one
/// where others hold it too, and unchanged where the fingerprint has no
/// entry.
pub open spec fn release_model(m: RegistryView, f: u64) -> RegistryView {
    if !m.contains_key(f) {
        m
    } else if last_holder(m, f) {
        m.remove(f)
    } else {
        m.insert(f, EntryView { mount_count: (m[f].mount_count - 1) as nat, ..m[f] })
    }
}

/// The registry after `node` was handed in for the fingerprint `f`: the
/// entry holds the node where there is an entry that had none, and nothing
/// has changed otherwise.
pub open spec fn attach_model(m: RegistryView, f: u64, node: HeadNodeView) -> RegistryView {
    if m.contains_key(f) && m[f].node is None {
        m.insert(f, EntryView { node: Some(node), ..m[f] })
    } else {
        m
    }
}

/// One entry of the registry.
#[derive(Debug)]
pub struct RegistryEntry {
    declaration: HeadDeclaration,
    mount_count: u64,
    node: Option<HeadNode>,
}

/// What a head node that may be absent is made of.
pub open spec fn node_view(node: Option<HeadNode>) -> Option<HeadNodeView> {
    match node {
        Some(n) => Some(n@),
        None => None,
    }
}

impl View for RegistryEntry {
    type V = EntryView;

    closed spec fn view(&self) -> EntryView {
        EntryView {
            declaration: self.declaration@,
            mount_count: self.mount_count as nat,
            node: node_view(self.node),
        }
    }
}

impl RegistryEntry {
    /// The declaration that was first acquired under the entry's fingerprint.
    pub fn declaration(&self) -> (declaration: &HeadDeclaration)
        ensures
            declaration@ == self@.declaration,
    {
        &self.declaration
    }

    /// The number of components that hold the entry.
    pub fn mount_count(&self) -> (count: u64)
        ensures
            count == self@.mount_count,
    {
        self.mount_count
    }

    /// The head node of the entry, if one is attached.
    pub fn node(&self) -> (node: Option<&HeadNode>)
        ensures
            node is Some <==> self@.node is Some,
            node matches Some(n) ==> n@ == self@.node->0,
    {
        match &self.node {
            Some(n) => Some(n),
            None => None,
        }
    }
}

/// What an acquisition came to.
#[derive(Clone, Copy, Debug, PartialEq, Eq)]
pub struct Acquisition {
    /// The fingerprint under which the declaration stands.
    pub fingerprint: u64,
    /// Whether the fingerprint had no entry before.
    pub fresh: bool,
    /// The number of components that hold the entry now.
    pub mount_count: u64,
}

/// What a release came to.
#[derive(Debug)]
pub struct Release {
    /// Whether the entry was removed, because no other component holds it.
    pub last_holder: bool,
    /// The node of the removed entry, to be taken out of the head.
    pub node: Option<HeadNode>,
}

/// The declarations that are in the document head, by fingerprint.
#[derive(Debug)]
pub struct Registry {
    entries: HashMap<u64, RegistryEntry>,
}

impl View for Registry {
    type V = RegistryView;

    closed spec fn view(&self) -> RegistryView {
        Map::new(|f: u64| self.entries@.contains_key(f), |f: u64| self.entries@[f]@)
    }
}

impl Registry {
    /// Every entry stands under the fingerprint that its declaration
    /// carries, holds a well-formed declaration and is held by at least one
    /// component.
    #[verifier::type_invariant]
    pub closed spec fn wf(&self) -> bool {
        forall|f: u64| #[trigger]
            self.entries@.contains_key(f) ==> {
                &&& self.entries@[f].mount_count >= 1
                &&& self.entries@[f].declaration.wf()
                &&& self.entries@[f].declaration@.fingerprint == f
            }
    }

    /// What a well-formed registry holds is in order.
    pub proof fn lemma_wf(&self)
        requires
            self.wf(),
        ensures
            registry_ok(self@),
    {
        assert(self@.dom() =~= self.entries@.dom());
        assert forall|f: u64| #[trigger] self@.contains_key(f) implies self@[f].mount_count >= 1
            && self@[f].declaration.fingerprint == f by {
            assert(self.entries@.contains_key(f));
        }
    }

    /// A registry without entries.
    pub fn new() -> (registry: Registry)
        ensures
            registry@ == Map::<u64, EntryView>::empty(),
            registry.wf(),
    {
        let registry = Registry { entries: HashMap::new() };
        assert(registry@ =~= Map::<u64, EntryView>::empty());
        registry
    }

    /// The number of entries.
    pub fn len(&self) -> (n: usize)
        ensures
            n == self@.len(),
    {
        proof {
            assert(self@.dom() =~= self.entries@.dom());
        }
        self.entries.len()
    }

    /// The entry of the fingerprint `fingerprint`, if it has one.
    pub fn lookup(&self, fingerprint: u64) -> (entry: Option<&RegistryEntry>)
        ensures
            entry is Some <==> self@.contains_key(fingerprint),
            entry matches Some(e) ==> e@ == self@[fingerprint],
    {
        self.entries.get(&fingerprint)
    }

    /// Whether the fingerprint `fingerprint` can be acquired once more.
    pub fn can_acquire(&self, fingerprint: u64) -> (room: bool)
        ensures
            room == room_for(self@, fingerprint),
    {
        match self.entries.get(&fingerprint) {
            Some(entry) => entry.mount_count < u64::MAX,
            None => true,
        }
    }

    /// Counts one more component that declares `declaration`. Where its
    /// fingerprint has no entry yet, the registry gets one that holds the
    /// declaration, and the acquisition is fresh.
    pub fn acquire(&mut self, declaration: HeadDeclaration) -> (acquisition: Acquisition)
        requires
            room_for(old(self)@, declaration@.fingerprint),
        ensures
            final(self)@ == acquire_model(old(self)@, declaration@),
            final(self).wf(),
            acquisition.fingerprint == declaration@.fingerprint,
            acquisition.fresh == !old(self)@.contains_key(acquisition.fingerprint),
            acquisition.mount_count == final(self)@[acquisition.fingerprint].mount_count,
    {
        proof {
            use_type_invariant(&*self);
            use_type_invariant(&declaration);
        }
        let fingerprint = declaration.fingerprint();
        let mut entries: HashMap<u64, RegistryEntry> = HashMap::new();
        std::mem::swap(&mut self.entries, &mut entries);
        let acquisition = match entries.remove(&fingerprint) {
            Some(entry) => {
                let mount_count: u64 = entry.mount_count + 1;
                entries.insert(
                    fingerprint,
                    RegistryEntry { declaration: entry.declaration, mount_count, node: entry.node },
                );
                Acquisition { fingerprint, fresh: false, mount_count }
            },
            None => {
                entries.insert(
                    fingerprint,
                    RegistryEntry { declaration, mount_count: 1, node: None },
                );
                Acquisition { fingerprint, fresh: true, mount_count: 1 }
            },
        };
        self.entries = entries;
        proof {
            assert(self@ =~= acquire_model(old(self)@, declaration@));
        }
        acquisition
    }

    /// Counts one component less for the fingerprint `fingerprint`. The
    /// last component to release it takes the entry away and gets its node.
    /// A fingerprint without an entry is left alone.
    pub fn release(&mut self, fingerprint: u64) -> (release: Release)
        ensures
            final(self)@ == release_model(old(self)@, fingerprint),
            final(self).wf(),
            release.last_holder == last_holder(old(self)@, fingerprint),
            node_view(release.node) == if release.last_holder {
                old(self)@[fingerprint].node
            } else {
                None
            },
    {
        proof {
            use_type_invariant(&*self);
        }
        let mut entries: HashMap<u64, RegistryEntry> = HashMap::new();
        std::mem::swap(&mut self.entries, &mut entries);
        let release = match entries.remove(&fingerprint) {
            Some(entry) => {
                if entry.mount_count <= 1 {
                    Release { last_holder: true, node: entry.node }
                } else {
                    entries.insert(
                        fingerprint,
                        RegistryEntry {
                            declaration: entry.declaration,
                            mount_count: entry.mount_count - 1,
                            node: entry.node,
                        },
                    );
                    Release { last_holder: false, node: None }
                }
            },
            None => Release { last_holder: false, node: None },
        };
        self.entries = entries;
        proof {
            assert(self@ =~= release_model(old(self)@, fingerprint));
        }
        release
    }

    /// Hands in the head node of the fingerprint `fingerprint`. The entry
    /// keeps the first node that it is given: a second one, and one for a
    /// fingerprint without an entry, is not stored.
    pub fn attach(&mut self, fingerprint: u64, node: HeadNode) -> (stored: bool)
        ensures
            final(self)@ == attach_model(old(self)@, fingerprint, node@),
            final(self).wf(),
            stored == (old(self)@.contains_key(fingerprint) && old(self)@[fingerprint].node
                is None),
    {
        proof {
            use_type_invariant(&*self);
        }
        let mut entries: HashMap<u64, RegistryEntry> = HashMap::new();
        std::mem::swap(&mut self.entries, &mut entries);
        let stored = match entries.remove(&fingerprint) {
            Some(entry) => {
                match entry.node {
                    Some(first) => {
                        entries.insert(
                            fingerprint,
                            RegistryEntry {
                                declaration: entry.declaration,
                                mount_count: entry.mount_count,
                                node: Some(first),
                            },
                        );
                        false
                    },
                    None => {
                        entries.insert(
                            fingerprint,
                            RegistryEntry {
                                declaration: entry.declaration,
                                mount_count: entry.mount_count,
                                node: Some(node),
                            },
                        );
                        true
                    },
                }
            },
            None => false,
        };
        self.entries = entries;
        proof {
            assert(self@ =~= attach_model(old(self)@, fingerprint, node@));
        }
        stored
    }
}

impl Default for Registry {
    /// A registry without entries.
    fn default() -> (registry: Registry)
        ensures
            registry@ == Map::<u64, EntryView>::empty(),
            registry.wf(),
    {
        Registry::new()
    }
}

} // verus!
