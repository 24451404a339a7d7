//! The outside collaborators — the HTML parser, the HTML serializer and the
//! URL resolver — each behind a trusted declaration whose contract names its
//! result; nothing else in the crate touches them.

use vstd::prelude::*;
use vstd::string::StringSliceAdditionalSpecFns;
use crate::dom::{no_doc_below, short_strs, DomNode, TreeV};
use html5ever::tendril::TendrilSink;
use markup5ever_rcdom::Node as RcNode;
use markup5ever_rcdom::{Handle, NodeData, RcDom, SerializableHandle};

verus! {

/// The largest input, in bytes, the parser accepts. Its byte buffers hold
/// lengths in 32 bits, and lossy decoding can grow ill-formed input three
/// bytes for one, so a third of the 32-bit range is safe.
pub const MAX_PARSE_BYTES: usize = 0x5555_5555;

/// The model of the tree the HTML parser builds for the given input text;
/// absent when the input cannot be placed into a parser buffer.
pub uninterp spec fn parsed_doc(input: Seq<char>) -> Option<TreeV>;

/// The markup the HTML serializer writes for a tree with the given model
/// (under the default options, which write the node's children).
pub uninterp spec fn serialized(t: TreeV) -> Seq<char>;

/// The normalized serialization of the given string read as an absolute URL;
/// absent when it does not parse as one.
pub uninterp spec fn parsed_url(s: Seq<char>) -> Option<Seq<char>>;

/// The resolution of a reference against a base URL string; absent when the
/// base does not parse or the reference cannot be resolved against it.
pub uninterp spec fn joined(base: Seq<char>, rel: Seq<char>) -> Option<Seq<char>>;

#[verifier::external_type_specification]
#[verifier::external_body]
pub struct ExRcNode(markup5ever_rcdom::Node);

#[verifier::external_type_specification]
#[verifier::external_body]
pub struct ExNodeData(markup5ever_rcdom::NodeData);

#[verifier::external_type_specification]
#[verifier::external_body]
pub struct ExAttribute(html5ever::Attribute);

#[verifier::external_type_specification]
#[verifier::external_body]
pub struct ExQualName(html5ever::QualName);

/// Relies on markup5ever_rcdom's node layout: re-reads an rcdom node as the
/// library's tree.
#[verifier::external_body]
fn node_from(h: &Handle) -> DomNode {
    let children: Vec<DomNode> = h.children.borrow().iter().map(node_from).collect();
    data_from(&h.data, children)
}

/// Relies on markup5ever_rcdom's node kinds: element tags are lower-cased.
#[verifier::external_body]
fn data_from(d: &NodeData, children: Vec<DomNode>) -> DomNode {
    match d {
        NodeData::Document => DomNode::Document { children },
        NodeData::Element { name, attrs, .. } => DomNode::Element {
            tag: name.local.as_ref().to_lowercase(),
            attrs: attrs.borrow().iter().map(attr_from).collect(),
            children,
        },
        other => leaf_from(other),
    }
}

/// Relies on markup5ever_rcdom's leaf node kinds: text, doctype, comment and
/// processing instruction carry plain strings.
#[verifier::external_body]
fn leaf_from(d: &NodeData) -> DomNode {
    match d {
        NodeData::Text { contents } => DomNode::Text { content: contents.borrow().to_string() },
        NodeData::Doctype { name, public_id, system_id } => DomNode::Doctype { name: name.to_string(), public_id: public_id.to_string(), system_id: system_id.to_string() },
        NodeData::Comment { contents } => DomNode::Comment { content: contents.to_string() },
        NodeData::ProcessingInstruction { target, contents } => DomNode::Pi { target: target.to_string(), content: contents.to_string() },
        _ => DomNode::Document { children: Vec::new() },
    }
}

/// Relies on html5ever's Attribute layout: one name-value pair per attribute.
#[verifier::external_body]
fn attr_from(a: &html5ever::Attribute) -> (String, String) {
    (a.name.local.as_ref().to_string(), a.value.to_string())
}

/// Relies on html5ever's parse_document through markup5ever_rcdom: parsing
/// tolerates any markup and is a function of the input text alone; the tree
/// builder places a document node only at the root, and every text, comment,
/// attribute value, doctype or instruction string it stores sits in one
/// 32-bit buffer. Buffers hold lengths in 32 bits and lossy decoding grows
/// ill-formed input at most three bytes for one, so under the required bound
/// nothing overflows and success is promised.
#[verifier::external_body]
pub fn parse_html(input: &str) -> (r: Option<DomNode>)
    requires
        input.spec_bytes().len() <= MAX_PARSE_BYTES,
    ensures
        r is Some,
        match r {
            Some(d) => parsed_doc(input@) == Some(d@) && no_doc_below(d@) && short_strs(d@),
            None => true,
        },
{
    let tendril = match html5ever::tendril::ByteTendril::try_from_byte_slice(input.as_bytes()) {
        Ok(t) => t,
        Err(()) => return None,
    };
    let dom = html5ever::parse_document(RcDom::default(), Default::default()).from_utf8().one(
        tendril,
    );
    Some(node_from(&dom.document))
}

/// Relies on html5ever's QualName: a name in the HTML namespace.
#[verifier::external_body]
fn qual(name: &str) -> html5ever::QualName {
    html5ever::QualName::new(
        None,
        html5ever::Namespace::from("http://www.w3.org/1999/xhtml"),
        html5ever::LocalName::from(name),
    )
}

/// Relies on html5ever's Attribute layout: the rcdom form of one attribute;
/// attributes carry no namespace.
#[verifier::external_body]
fn rcattr_from(p: &(String, String)) -> html5ever::Attribute {
    let name = html5ever::QualName::new(
        None,
        html5ever::Namespace::from(""),
        html5ever::LocalName::from(p.0.as_str()),
    );
    html5ever::Attribute { name, value: p.1.as_str().into() }
}

/// Relies on markup5ever_rcdom's constructors: the rcdom form of an element.
#[verifier::external_body]
fn rc_elem(tag: &String, attrs: &Vec<(String, String)>) -> Handle {
    RcNode::new(NodeData::Element {
        name: qual(tag.as_str()),
        attrs: core::cell::RefCell::new(attrs.iter().map(rcattr_from).collect()),
        template_contents: core::cell::RefCell::new(None),
        mathml_annotation_xml_integration_point: false,
    })
}

/// Relies on markup5ever_rcdom's constructors: the rcdom form of a doctype.
#[verifier::external_body]
fn rc_doctype(name: &String, public_id: &String, system_id: &String) -> Handle {
    RcNode::new(NodeData::Doctype {
        name: name.as_str().into(),
        public_id: public_id.as_str().into(),
        system_id: system_id.as_str().into(),
    })
}

/// Relies on markup5ever_rcdom's constructors: builds the rcdom form of a
/// library tree for serialization.
#[verifier::external_body]
fn rcnode_from(n: &DomNode) -> Handle {
    match n {
        DomNode::Document { children } => with_kids(RcNode::new(NodeData::Document), children),
        DomNode::Element { tag, attrs, children } => with_kids(rc_elem(tag, attrs), children),
        DomNode::Text { content } => RcNode::new(NodeData::Text { contents: core::cell::RefCell::new(content.as_str().into()) }),
        DomNode::Doctype { name, public_id, system_id } => rc_doctype(name, public_id, system_id),
        DomNode::Comment { content } => RcNode::new(NodeData::Comment { contents: content.as_str().into() }),
        DomNode::Pi { target, content } => RcNode::new(NodeData::ProcessingInstruction { target: target.as_str().into(), contents: content.as_str().into() }),
    }
}

/// Relies on markup5ever_rcdom's child list: attaches converted children.
#[verifier::external_body]
fn with_kids(h: Handle, children: &Vec<DomNode>) -> Handle {
    *h.children.borrow_mut() = children.iter().map(rcnode_from).collect();
    h
}

/// Relies on html5ever::serialize over markup5ever_rcdom: under the default
/// options it writes the node's children, and the output is a function of the
/// tree alone. The rcdom serializer refuses a document node anywhere below
/// the root, and rebuilding a string as a parser buffer refuses more than
/// 32 bits of bytes, so both bounds are required.
#[verifier::external_body]
pub fn serialize_node(n: &DomNode) -> (r: String)
    requires
        no_doc_below(n@),
        short_strs(n@),
    ensures
        r@ == serialized(n@),
{
    let handle = rcnode_from(n);
    let mut bytes: Vec<u8> = Vec::new();
    let _ = html5ever::serialize(&mut bytes, &SerializableHandle::from(handle), Default::default());
    String::from_utf8_lossy(&bytes).to_string()
}

/// Relies on url::Url::parse and the From<Url> impl for String: a string that
/// parses as an absolute URL has a normalized serialization, a function of
/// the string alone; the error carries the parser's reason.
#[verifier::external_body]
pub fn parse_url(s: &str) -> (r: Result<String, url::ParseError>)
    ensures
        match r {
            Ok(u) => parsed_url(s@) == Some(u@),
            Err(_) => parsed_url(s@) is None,
        },
{
    match url::Url::parse(s) {
        Ok(u) => Ok(String::from(u)),
        Err(e) => Err(e),
    }
}

/// Relies on url::Url::parse and Url::join: resolving a reference against a
/// base URL string is a function of the two strings alone. A returned value
/// is a normalized absolute serialization, so resolving it again against the
/// same base returns it unchanged: joining is a fixed point on its output.
#[verifier::external_body]
pub fn resolve_url(base: &str, rel: &str) -> (r: Option<String>)
    ensures
        match r {
            Some(s) => joined(base@, rel@) == Some(s@) && joined(base@, s@) == Some(s@),
            None => joined(base@, rel@) is None,
        },
{
    match url::Url::parse(base) {
        Ok(b) => match b.join(rel) {
            Ok(u) => Some(String::from(u)),
            Err(_) => None,
        },
        Err(_) => None,
    }
}

} // verus!
