//! Head declarations: one element destined for the document head, and the
//! node that is made of it.
use vstd::prelude::*;
use vstd::utf8::encode_utf8;
use crate::attributes::listing_of;
use crate::attributes::sorted_entries;
use crate::attributes::Attribute;
use crate::attributes::AttributeMap;
use crate::attributes::Listing;
use crate::fingerprint::fx_digest;
use crate::fingerprint::hash_bytes;
use crate::text::decimal;
use crate::text::decimal_string;

verus! {

/// The byte that ends an attribute's name and an attribute's value in the
/// bytes that are hashed.
pub const SEPARATOR: u8 = 0;

/// The byte that stands for the body of an element without a body in the
/// bytes that are hashed.
pub const ABSENT_BODY: u8 = 0xff;

/// What a head declaration says: the element's name, its attributes and its
/// body, if it has one, and the fingerprint under which it goes.
pub struct DeclarationView {
    pub tag: Seq<char>,
    pub attributes: Map<Seq<char>, Seq<char>>,
    pub inner_html: Option<Seq<char>>,
    pub fingerprint: u64,
}

/// What a head node is made of: the fingerprint of its declaration, the
/// element's name, the attributes in the order in which they are set, and
/// the body, if it has one.
pub struct HeadNodeView {
    pub fingerprint: u64,
    pub tag: Seq<char>,
    pub attributes: Listing,
    pub inner_html: Option<Seq<char>>,
}

/// The characters of a text that may be absent.
pub open spec fn text_view(text: Option<String>) -> Option<Seq<char>> {
    match text {
        Some(t) => Some(t@),
        None => None,
    }
}

/// The bytes of one attribute: its name and its value, each followed by the
/// separator.
pub open spec fn entry_bytes(entry: (Seq<char>, Seq<char>)) -> Seq<u8> {
    encode_utf8(entry.0) + seq![SEPARATOR] + encode_utf8(entry.1) + seq![SEPARATOR]
}

/// The bytes of a list of attributes, one attribute after the other.
pub open spec fn entries_bytes(entries: Listing) -> Seq<u8>
    decreases entries.len(),
{
    if entries.len() == 0 {
        Seq::empty()
    } else {
        entries_bytes(entries.drop_last()) + entry_bytes(entries.last())
    }
}

/// The bytes of a body: its text, or the one byte that stands for no body.
pub open spec fn body_bytes(inner_html: Option<Seq<char>>) -> Seq<u8> {
    match inner_html {
        Some(text) => encode_utf8(text),
        None => seq![ABSENT_BODY],
    }
}

/// The bytes that identify the content of a declaration: the element's name,
/// then the attributes in the order of their names, then the body.
pub open spec fn canonical_bytes(
    tag: Seq<char>,
    attributes: Map<Seq<char>, Seq<char>>,
    inner_html: Option<Seq<char>>,
) -> Seq<u8> {
    encode_utf8(tag) + entries_bytes(sorted_entries(attributes)) + body_bytes(inner_html)
}

/// The fingerprint of a content: the digest of its identifying bytes.
pub open spec fn content_fingerprint(
    tag: Seq<char>,
    attributes: Map<Seq<char>, Seq<char>>,
    inner_html: Option<Seq<char>>,
) -> u64 {
    fx_digest(canonical_bytes(tag, attributes, inner_html))
}

/// The declaration of a content under the fingerprint of that content.
pub open spec fn declared(
    tag: Seq<char>,
    attributes: Map<Seq<char>, Seq<char>>,
    inner_html: Option<Seq<char>>,
) -> DeclarationView {
    DeclarationView {
        tag,
        attributes,
        inner_html,
        fingerprint: content_fingerprint(tag, attributes, inner_html),
    }
}

/// The declaration goes under the fingerprint of its content.
pub open spec fn genuine(v: DeclarationView) -> bool {
    v.fingerprint == content_fingerprint(v.tag, v.attributes, v.inner_html)
}

/// The name of the attribute that marks a head node as made by this engine.
pub open spec fn marker_text() -> Seq<char> {
    "data-helmet-id"@
}

/// The node that is made of a declaration. Its attributes are set in the
/// order of their names; the marker, whose value is the fingerprint in
/// decimal, is set last.
pub open spec fn node_of(v: DeclarationView) -> HeadNodeView {
    HeadNodeView {
        fingerprint: v.fingerprint,
        tag: v.tag,
        attributes: sorted_entries(v.attributes).push(
            (marker_text(), decimal(v.fingerprint as nat)),
        ),
        inner_html: v.inner_html,
    }
}

/// The selector that finds the head node of the fingerprint `f` in a
/// document: the marker with the fingerprint in decimal as its value.
pub open spec fn selector_text(f: u64) -> Seq<char> {
    seq!['['] + marker_text() + seq!['=', '\''] + decimal(f as nat) + seq!['\'', ']']
}

/// The name of the marker attribute.
pub fn marker_name() -> (name: &'static str)
    ensures
        name@ == marker_text(),
{
    "data-helmet-id"
}

/// The selector that finds the head node of the fingerprint `fingerprint`.
pub fn marker_selector(fingerprint: u64) -> (selector: String)
    ensures
        selector@ == selector_text(fingerprint),
{
    proof {
        reveal_strlit("[");
        reveal_strlit("='");
        reveal_strlit("']");
    }
    let mut selector = String::from_str("[");
    selector.append(marker_name());
    selector.append("='");
    selector.append(decimal_string(fingerprint).as_str());
    selector.append("']");
    proof {
        assert(selector@ =~= selector_text(fingerprint));
    }
    selector
}

/// A node of the document head, as the engine made it.
#[derive(Debug, PartialEq, Eq)]
pub struct HeadNode {
    pub fingerprint: u64,
    pub tag: String,
    pub attributes: Vec<Attribute>,
    pub inner_html: Option<String>,
}

impl View for HeadNode {
    type V = HeadNodeView;

    open spec fn view(&self) -> HeadNodeView {
        HeadNodeView {
            fingerprint: self.fingerprint,
            tag: self.tag@,
            attributes: listing_of(self.attributes@),
            inner_html: text_view(self.inner_html),
        }
    }
}

fn copy_attributes(list: &Vec<Attribute>) -> (copy: Vec<Attribute>)
    ensures
        listing_of(copy@) == listing_of(list@),
{
    let mut copy: Vec<Attribute> = Vec::new();
    let mut i: usize = 0;
    while i < list.len()
        invariant
            i <= list@.len(),
            copy@.len() == i,
            forall|j: int| 0 <= j < i ==> copy@[j]@ == list@[j]@,
        decreases list@.len() - i,
    {
        copy.push(Attribute { name: list[i].name.clone(), value: list[i].value.clone() });
        i += 1;
    }
    proof {
        assert(listing_of(copy@) =~= listing_of(list@));
    }
    copy
}

fn copy_text(text: &Option<String>) -> (copy: Option<String>)
    ensures
        text_view(copy) == text_view(*text),
{
    match text {
        Some(t) => Some(t.clone()),
        None => None,
    }
}

impl HeadNode {
    /// A second node made of the same parts.
    pub fn duplicate(&self) -> (copy: HeadNode)
        ensures
            copy@ == self@,
    {
        HeadNode {
            fingerprint: self.fingerprint,
            tag: self.tag.clone(),
            attributes: copy_attributes(&self.attributes),
            inner_html: copy_text(&self.inner_html),
        }
    }
}

/// One element destined for the document head, under its fingerprint. Its
/// name is not empty. Declarations with one fingerprint count as the same
/// declaration.
#[derive(Debug)]
pub struct HeadDeclaration {
    tag: String,
    attributes: AttributeMap,
    inner_html: Option<String>,
    fingerprint: u64,
}

impl View for HeadDeclaration {
    type V = DeclarationView;

    closed spec fn view(&self) -> DeclarationView {
        DeclarationView {
            tag: self.tag@,
            attributes: self.attributes@,
            inner_html: text_view(self.inner_html),
            fingerprint: self.fingerprint,
        }
    }
}

fn append_bytes(buffer: &mut Vec<u8>, bytes: &[u8])
    ensures
        final(buffer)@ == old(buffer)@ + bytes@,
{
    let mut i: usize = 0;
    while i < bytes.len()
        invariant
            i <= bytes@.len(),
            buffer@ == old(buffer)@ + bytes@.take(i as int),
        decreases bytes@.len() - i,
    {
        buffer.push(bytes[i]);
        proof {
            assert(bytes@.take(i + 1) =~= bytes@.take(i as int).push(bytes@[i as int]));
        }
        i += 1;
    }
    proof {
        assert(bytes@.take(i as int) =~= bytes@);
    }
}

fn content_bytes(tag: &str, attributes: &AttributeMap, inner_html: &Option<String>) -> (bytes:
    Vec<u8>)
    ensures
        bytes@ == canonical_bytes(tag@, attributes@, text_view(*inner_html)),
{
    let mut bytes: Vec<u8> = Vec::new();
    append_bytes(&mut bytes, tag.as_bytes());
    let entries = attributes.entries();
    let ghost listing = listing_of(entries@);
    let mut i: usize = 0;
    while i < entries.len()
        invariant
            i <= entries@.len(),
            listing == listing_of(entries@),
            bytes@ == encode_utf8(tag@) + entries_bytes(listing.take(i as int)),
        decreases entries@.len() - i,
    {
        append_bytes(&mut bytes, entries[i].name.as_str().as_bytes());
        bytes.push(SEPARATOR);
        append_bytes(&mut bytes, entries[i].value.as_str().as_bytes());
        bytes.push(SEPARATOR);
        proof {
            assert(listing.take(i + 1).drop_last() =~= listing.take(i as int));
            assert(listing.take(i + 1).last() == entries@[i as int]@);
            assert(bytes@ =~= encode_utf8(tag@) + entries_bytes(listing.take(i + 1)));
        }
        i += 1;
    }
    proof {
        assert(listing.take(i as int) =~= listing);
    }
    match inner_html {
        Some(text) => {
            append_bytes(&mut bytes, text.as_str().as_bytes());
        },
        None => {
            bytes.push(ABSENT_BODY);
        },
    }
    bytes
}

impl HeadDeclaration {
    /// The element's name is not empty, and its attributes are well formed.
    #[verifier::type_invariant]
    pub closed spec fn wf(&self) -> bool {
        &&& self.tag@.len() > 0
        &&& self.attributes.wf()
    }

    /// A well-formed declaration has a name and finitely many attributes,
    /// none of them with an empty name.
    pub proof fn lemma_wf(&self)
        requires
            self.wf(),
        ensures
            self@.tag.len() > 0,
            self@.attributes.dom().finite(),
            forall|k: Seq<char>| self@.attributes.contains_key(k) ==> k.len() > 0,
    {
        self.attributes.lemma_wf();
    }

    /// The declaration of an element `tag` with the given attributes and
    /// body, under the fingerprint of this content. There is none for an
    /// empty name.
    pub fn new(tag: String, attributes: AttributeMap, inner_html: Option<String>) -> (declaration:
        Option<HeadDeclaration>)
        ensures
            declaration is Some <==> tag@.len() > 0,
            declaration matches Some(d) ==> d.wf() && d@ == declared(
                tag@,
                attributes@,
                text_view(inner_html),
            ),
    {
        let bytes = content_bytes(tag.as_str(), &attributes, &inner_html);
        let fingerprint = hash_bytes(bytes.as_slice());
        HeadDeclaration::with_fingerprint(tag, attributes, inner_html, fingerprint)
    }

    /// The declaration of an element `tag` with the given attributes and
    /// body, under the fingerprint `fingerprint`, whatever that is: a caller
    /// that hashes with a digest of its own gives its digest of
    /// `identifying_bytes` here. There is none for an empty name.
    pub fn with_fingerprint(
        tag: String,
        attributes: AttributeMap,
        inner_html: Option<String>,
        fingerprint: u64,
    ) -> (declaration: Option<HeadDeclaration>)
        ensures
            declaration is Some <==> tag@.len() > 0,
            declaration matches Some(d) ==> d.wf() && d@ == (DeclarationView {
                tag: tag@,
                attributes: attributes@,
                inner_html: text_view(inner_html),
                fingerprint,
            }),
    {
        if tag.as_str().is_empty() {
            return None;
        }
        proof {
            use_type_invariant(&attributes);
        }
        Some(HeadDeclaration { tag, attributes, inner_html, fingerprint })
    }

    /// The bytes that identify the content of the declaration.
    pub fn identifying_bytes(&self) -> (bytes: Vec<u8>)
        ensures
            bytes@ == canonical_bytes(self@.tag, self@.attributes, self@.inner_html),
    {
        content_bytes(self.tag.as_str(), &self.attributes, &self.inner_html)
    }

    /// Whether the declaration goes under the fingerprint of its content, as
    /// every declaration made by `new` does.
    pub fn is_genuine(&self) -> (yes: bool)
        ensures
            yes == genuine(self@),
    {
        let bytes = self.identifying_bytes();
        hash_bytes(bytes.as_slice()) == self.fingerprint
    }

    /// The element's name.
    pub fn tag(&self) -> (tag: &str)
        ensures
            tag@ == self@.tag,
    {
        self.tag.as_str()
    }

    /// The element's attributes.
    pub fn attributes(&self) -> (attributes: &AttributeMap)
        ensures
            attributes@ == self@.attributes,
            attributes.wf(),
    {
        proof {
            use_type_invariant(self);
        }
        &self.attributes
    }

    /// The element's body, if it has one.
    pub fn inner_html(&self) -> (inner_html: Option<&str>)
        ensures
            inner_html is Some <==> self@.inner_html is Some,
            inner_html matches Some(text) ==> text@ == self@.inner_html->0,
    {
        match &self.inner_html {
            Some(text) => Some(text.as_str()),
            None => None,
        }
    }

    /// The fingerprint under which the declaration goes.
    pub fn fingerprint(&self) -> (fingerprint: u64)
        ensures
            fingerprint == self@.fingerprint,
    {
        self.fingerprint
    }

    /// Makes the head node of this declaration.
    pub fn materialise(&self) -> (node: HeadNode)
        ensures
            node@ == node_of(self@),
    {
        proof {
            use_type_invariant(self);
        }
        let mut attributes = copy_attributes(self.attributes.entries());
        let ghost sorted = listing_of(attributes@);
        attributes.push(
            Attribute {
                name: String::from_str(marker_name()),
                value: decimal_string(self.fingerprint),
            },
        );
        proof {
            assert(listing_of(attributes@) =~= sorted.push(
                (marker_text(), decimal(self.fingerprint as nat)),
            ));
        }
        HeadNode {
            fingerprint: self.fingerprint,
            tag: self.tag.clone(),
            attributes,
            inner_html: copy_text(&self.inner_html),
        }
    }
}

} // verus!
