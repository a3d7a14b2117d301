//! From a virtual subtree to head declarations.
//!
//! The subtree is what a component holds as its children: elements, text,
//! fragments and nodes of other kinds. Each element at the root of the
//! subtree becomes one declaration; nothing below it is looked at but a
//! single text that is its whole body.
use vstd::prelude::*;
use crate::attributes::map_of;
use crate::attributes::AttributeMap;
use crate::attributes::Listing;
use crate::declaration::declared;
use crate::declaration::text_view;
use crate::declaration::DeclarationView;
use crate::declaration::HeadDeclaration;
use crate::text::signed_decimal;
use crate::text::signed_decimal_string;
use crate::text::truth_string;
use crate::text::truth_text;

verus! {

/// The value of an attribute that is computed when the component renders.
#[derive(Debug, PartialEq, Eq)]
pub enum AttributeValue {
    /// A text.
    Text(String),
    /// A number with a fraction, held as the shortest decimal text that reads
    /// back as the same number.
    Float(String),
    /// A whole number.
    Int(i64),
    /// A truth value.
    Bool(bool),
    /// An event listener.
    Listener,
    /// A value of a kind that only its owner can read.
    Opaque,
    /// No value.
    Absent,
}

/// One attribute of a virtual element.
#[derive(Debug, PartialEq, Eq)]
#[allow(inconsistent_fields)]
pub enum VirtualAttribute {
    /// An attribute written out in the template.
    Static { name: String, value: String },
    /// An attribute whose value is computed when the component renders.
    Dynamic { name: String, value: AttributeValue },
}

/// One node of a virtual subtree.
#[derive(Debug, PartialEq, Eq)]
pub enum VirtualNode {
    /// An element with its name, its attributes and its children.
    Element { tag: String, attributes: Vec<VirtualAttribute>, children: Vec<VirtualNode> },
    /// A text.
    Text { text: String },
    /// A container that holds nodes and is no element itself.
    Fragment { children: Vec<VirtualNode> },
    /// A node of another kind: a comment, or a placeholder that holds nothing.
    Other,
}

/// The text that stands for a computed value. A listener, an opaque value
/// and an absent value have none.
pub open spec fn value_text(value: AttributeValue) -> Option<Seq<char>> {
    match value {
        AttributeValue::Text(text) => Some(text@),
        AttributeValue::Float(text) => Some(text@),
        AttributeValue::Int(i) => Some(signed_decimal(i as int)),
        AttributeValue::Bool(b) => Some(truth_text(b)),
        AttributeValue::Listener => None,
        AttributeValue::Opaque => None,
        AttributeValue::Absent => None,
    }
}

/// The pair of name and value that a static attribute gives. One with an
/// empty name gives none, and so does a dynamic attribute.
pub open spec fn static_pair(attribute: VirtualAttribute) -> Option<(Seq<char>, Seq<char>)> {
    match attribute {
        VirtualAttribute::Static { name, value } => if name@.len() > 0 {
            Some((name@, value@))
        } else {
            None
        },
        VirtualAttribute::Dynamic { .. } => None,
    }
}

/// The pair of name and value that a dynamic attribute gives. One with an
/// empty name or with a value that has no text gives none, and so does a
/// static attribute.
pub open spec fn dynamic_pair(attribute: VirtualAttribute) -> Option<(Seq<char>, Seq<char>)> {
    match attribute {
        VirtualAttribute::Static { .. } => None,
        VirtualAttribute::Dynamic { name, value } => match value_text(value) {
            Some(text) => if name@.len() > 0 {
                Some((name@, text))
            } else {
                None
            },
            None => None,
        },
    }
}

/// The pairs that the static attributes of a list give, in their order.
pub open spec fn static_pairs(attributes: Seq<VirtualAttribute>) -> Listing
    decreases attributes.len(),
{
    if attributes.len() == 0 {
        Seq::empty()
    } else {
        match static_pair(attributes.last()) {
            Some(pair) => static_pairs(attributes.drop_last()).push(pair),
            None => static_pairs(attributes.drop_last()),
        }
    }
}

/// The pairs that the dynamic attributes of a list give, in their order.
pub open spec fn dynamic_pairs(attributes: Seq<VirtualAttribute>) -> Listing
    decreases attributes.len(),
{
    if attributes.len() == 0 {
        Seq::empty()
    } else {
        match dynamic_pair(attributes.last()) {
            Some(pair) => dynamic_pairs(attributes.drop_last()).push(pair),
            None => dynamic_pairs(attributes.drop_last()),
        }
    }
}

/// The attributes of a declaration: the static attributes of the element
/// followed by its dynamic ones. Where a name occurs twice the later pair
/// stays, so a dynamic attribute displaces a static one of its name.
pub open spec fn projected_attributes(attributes: Seq<VirtualAttribute>) -> Map<
    Seq<char>,
    Seq<char>,
> {
    map_of(static_pairs(attributes) + dynamic_pairs(attributes))
}

/// The text of a list of nodes that is one text and nothing else.
pub open spec fn single_text(nodes: Seq<VirtualNode>) -> Option<Seq<char>> {
    if nodes.len() == 1 {
        match nodes[0] {
            VirtualNode::Text { text } => Some(text@),
            _ => None,
        }
    } else {
        None
    }
}

/// The body of a declaration: the text of the element's only child, where
/// that child is a text, or a fragment or an element that holds one text and
/// nothing else. Any other children give no body.
pub open spec fn projected_body(children: Seq<VirtualNode>) -> Option<Seq<char>> {
    if children.len() == 1 {
        match children[0] {
            VirtualNode::Text { text } => Some(text@),
            VirtualNode::Fragment { children: inner } => single_text(inner@),
            VirtualNode::Element { children: inner, .. } => single_text(inner@),
            VirtualNode::Other => None,
        }
    } else {
        None
    }
}

/// The declaration that a node at the root gives: an element with a name
/// gives one, under the fingerprint of its content, and no other node does.
pub open spec fn projection(node: VirtualNode) -> Option<DeclarationView> {
    match node {
        VirtualNode::Element { tag, attributes, children } => if tag@.len() > 0 {
            Some(declared(tag@, projected_attributes(attributes@), projected_body(children@)))
        } else {
            None
        },
        _ => None,
    }
}

/// The declarations that a list of nodes gives, in the order of the nodes.
pub open spec fn projections(nodes: Seq<VirtualNode>) -> Seq<DeclarationView>
    decreases nodes.len(),
{
    if nodes.len() == 0 {
        Seq::empty()
    } else {
        match projection(nodes.last()) {
            Some(v) => projections(nodes.drop_last()).push(v),
            None => projections(nodes.drop_last()),
        }
    }
}

/// The nodes at the root of a subtree: the children of a fragment, or a
/// single element itself. A subtree that is neither has none.
pub open spec fn root_nodes(root: VirtualNode) -> Seq<VirtualNode> {
    match root {
        VirtualNode::Fragment { children } => children@,
        VirtualNode::Element { .. } => seq![root],
        _ => Seq::empty(),
    }
}

/// The declarations that a subtree gives.
pub open spec fn extraction(root: VirtualNode) -> Seq<DeclarationView> {
    projections(root_nodes(root))
}

/// What each of a sequence of declarations says.
pub open spec fn views_of(declarations: Seq<HeadDeclaration>) -> Seq<DeclarationView> {
    Seq::new(declarations.len(), |i: int| declarations[i]@)
}

fn single_text_of(nodes: &Vec<VirtualNode>) -> (text: Option<String>)
    ensures
        text_view(text) == single_text(nodes@),
{
    if nodes.len() == 1 {
        match &nodes[0] {
            VirtualNode::Text { text } => Some(text.clone()),
            _ => None,
        }
    } else {
        None
    }
}

fn body_of(children: &Vec<VirtualNode>) -> (body: Option<String>)
    ensures
        text_view(body) == projected_body(children@),
{
    if children.len() == 1 {
        match &children[0] {
            VirtualNode::Text { text } => Some(text.clone()),
            VirtualNode::Fragment { children: inner } => single_text_of(inner),
            VirtualNode::Element { children: inner, .. } => single_text_of(inner),
            VirtualNode::Other => None,
        }
    } else {
        None
    }
}

fn value_string(value: &AttributeValue) -> (text: Option<String>)
    ensures
        text_view(text) == value_text(*value),
{
    match value {
        AttributeValue::Text(text) => Some(text.clone()),
        AttributeValue::Float(text) => Some(text.clone()),
        AttributeValue::Int(i) => Some(signed_decimal_string(*i)),
        AttributeValue::Bool(b) => Some(truth_string(*b)),
        AttributeValue::Listener => None,
        AttributeValue::Opaque => None,
        AttributeValue::Absent => None,
    }
}

fn attributes_of(attributes: &Vec<VirtualAttribute>) -> (map: AttributeMap)
    ensures
        map@ == projected_attributes(attributes@),
        map.wf(),
{
    let mut map = AttributeMap::new();
    let mut i: usize = 0;
    while i < attributes.len()
        invariant
            i <= attributes@.len(),
            map.wf(),
            map@ == map_of(static_pairs(attributes@.take(i as int))),
        decreases attributes@.len() - i,
    {
        proof {
            assert(attributes@.take(i + 1).drop_last() =~= attributes@.take(i as int));
            let front = static_pairs(attributes@.take(i as int));
            match static_pair(attributes@[i as int]) {
                Some(pair) => {
                    assert(front.push(pair).drop_last() =~= front);
                },
                None => {},
            }
        }
        match &attributes[i] {
            VirtualAttribute::Static { name, value } => {
                map.insert(name.clone(), value.clone());
            },
            VirtualAttribute::Dynamic { .. } => {},
        }
        i += 1;
    }
    proof {
        assert(attributes@.take(i as int) =~= attributes@);
    }
    let ghost fixed = static_pairs(attributes@);
    let mut i: usize = 0;
    proof {
        assert(fixed + dynamic_pairs(attributes@.take(0)) =~= fixed);
    }
    while i < attributes.len()
        invariant
            i <= attributes@.len(),
            map.wf(),
            fixed == static_pairs(attributes@),
            map@ == map_of(fixed + dynamic_pairs(attributes@.take(i as int))),
        decreases attributes@.len() - i,
    {
        proof {
            assert(attributes@.take(i + 1).drop_last() =~= attributes@.take(i as int));
            let front = fixed + dynamic_pairs(attributes@.take(i as int));
            match dynamic_pair(attributes@[i as int]) {
                Some(pair) => {
                    assert(front.push(pair).drop_last() =~= front);
                    assert(fixed + dynamic_pairs(attributes@.take(i as int)).push(pair)
                        =~= front.push(pair));
                },
                None => {},
            }
        }
        match &attributes[i] {
            VirtualAttribute::Static { .. } => {},
            VirtualAttribute::Dynamic { name, value } => {
                match value_string(value) {
                    Some(text) => {
                        map.insert(name.clone(), text);
                    },
                    None => {},
                }
            },
        }
        i += 1;
    }
    proof {
        assert(attributes@.take(i as int) =~= attributes@);
    }
    map
}

/// The declaration that a node at the root gives, if it gives one.
pub fn project(node: &VirtualNode) -> (declaration: Option<HeadDeclaration>)
    ensures
        declaration is Some <==> projection(*node) is Some,
        declaration matches Some(d) ==> d.wf() && Some(d@) == projection(*node),
{
    match node {
        VirtualNode::Element { tag, attributes, children } => {
            let map = attributes_of(attributes);
            let body = body_of(children);
            HeadDeclaration::new(tag.clone(), map, body)
        },
        _ => None,
    }
}

/// The declarations that the subtree `children` gives, in the order of its
/// root nodes. Nodes at the root that are no elements give none, and neither
/// does a subtree that is neither a fragment nor an element; an element
/// without a name gives none, and an attribute without a name is left out.
pub fn extract(children: &VirtualNode) -> (declarations: Vec<HeadDeclaration>)
    ensures
        views_of(declarations@) == extraction(*children),
        forall|i: int| 0 <= i < declarations@.len() ==> (#[trigger] declarations@[i]).wf(),
{
    let mut declarations: Vec<HeadDeclaration> = Vec::new();
    match children {
        VirtualNode::Fragment { children: roots } => {
            let mut i: usize = 0;
            proof {
                assert(views_of(declarations@) =~= projections(roots@.take(0)));
            }
            while i < roots.len()
                invariant
                    i <= roots@.len(),
                    views_of(declarations@) == projections(roots@.take(i as int)),
                    forall|j: int|
                        0 <= j < declarations@.len() ==> (#[trigger] declarations@[j]).wf(),
                decreases roots@.len() - i,
            {
                proof {
                    assert(roots@.take(i + 1).drop_last() =~= roots@.take(i as int));
                }
                let ghost before = declarations@;
                match project(&roots[i]) {
                    Some(d) => {
                        declarations.push(d);
                        proof {
                            assert(views_of(declarations@) =~= views_of(before).push(d@));
                        }
                    },
                    None => {},
                }
                i += 1;
            }
            proof {
                assert(roots@.take(i as int) =~= roots@);
            }
        },
        VirtualNode::Element { .. } => {
            proof {
                let nodes = seq![*children];
                assert(nodes.drop_last() =~= Seq::<VirtualNode>::empty());
                assert(nodes.last() == *children);
                assert(projections(nodes.drop_last()) =~= Seq::empty());
            }
            match project(children) {
                Some(d) => {
                    declarations.push(d);
                    proof {
                        assert(views_of(declarations@) =~= Seq::empty().push(d@));
                    }
                },
                None => {
                    proof {
                        assert(views_of(declarations@) =~= Seq::empty());
                    }
                },
            }
        },
        _ => {
            proof {
                assert(views_of(declarations@) =~= Seq::empty());
            }
        },
    }
    declarations
}

} // verus!
