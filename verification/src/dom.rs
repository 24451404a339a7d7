//! The document tree and its introspection layer: tag and attribute access,
//! text measurement, emptiness and link tests, and tag search.

use vstd::prelude::*;
use vstd::string::StrSliceExecFns;
use crate::text::{spec_trim, trim_str, trimmed_len, str_eq};

verus! {

broadcast use vstd::std_specs::vec::group_vec_axioms, vstd::seq::axiom_seq_index_decreases;

/// The mathematical model of a node: the same tree with every string seen as
/// its character sequence.
pub enum TreeV {
    Document { children: Seq<TreeV> },
    Element { tag: Seq<char>, attrs: Seq<(Seq<char>, Seq<char>)>, children: Seq<TreeV> },
    Text { content: Seq<char> },
    Doctype { name: Seq<char>, public_id: Seq<char>, system_id: Seq<char> },
    Comment { content: Seq<char> },
    Pi { target: Seq<char>, content: Seq<char> },
}

/// A node of the document tree. Element tags are stored lower-cased;
/// attributes are an ordered list of name-value pairs with first-match
/// lookup semantics.
#[derive(Debug, PartialEq, Eq)]
pub enum DomNode {
    Document { children: Vec<DomNode> },
    Element { tag: String, attrs: Vec<(String, String)>, children: Vec<DomNode> },
    Text { content: String },
    Doctype { name: String, public_id: String, system_id: String },
    Comment { content: String },
    Pi { target: String, content: String },
}

/// The character-sequence form of an attribute list.
pub open spec fn attr_views(attrs: Seq<(String, String)>) -> Seq<(Seq<char>, Seq<char>)> {
    attrs.map_values(|p: (String, String)| (p.0@, p.1@))
}

/// The model of a node.
pub open spec fn node_view(n: DomNode) -> TreeV
    decreases n, 1int,
{
    match n {
        DomNode::Document { children } => TreeV::Document { children: views_of(children@, 0) },
        DomNode::Element { tag, attrs, children } => TreeV::Element {
            tag: tag@,
            attrs: attr_views(attrs@),
            children: views_of(children@, 0),
        },
        DomNode::Text { content } => TreeV::Text { content: content@ },
        DomNode::Doctype { name, public_id, system_id } => TreeV::Doctype {
            name: name@,
            public_id: public_id@,
            system_id: system_id@,
        },
        DomNode::Comment { content } => TreeV::Comment { content: content@ },
        DomNode::Pi { target, content } => TreeV::Pi { target: target@, content: content@ },
    }
}

/// The models of the nodes of `s` from position `i` on.
pub open spec fn views_of(s: Seq<DomNode>, i: int) -> Seq<TreeV>
    decreases s, s.len() - i,
{
    if i < 0 || i >= s.len() {
        Seq::empty()
    } else {
        seq![node_view(s[i])] + views_of(s, i + 1)
    }
}

pub proof fn lemma_views_of(s: Seq<DomNode>, i: int)
    requires
        0 <= i <= s.len(),
    ensures
        views_of(s, i).len() == s.len() - i,
        forall|k: int| 0 <= k < s.len() - i ==> #[trigger] views_of(s, i)[k] == node_view(s[k + i]),
    decreases s.len() - i,
{
    if i < s.len() {
        lemma_views_of(s, i + 1);
    }
}

impl View for DomNode {
    type V = TreeV;

    open spec fn view(&self) -> TreeV {
        node_view(*self)
    }
}

/// The children of a node's model; empty for node kinds without children.
pub open spec fn kids(t: TreeV) -> Seq<TreeV> {
    match t {
        TreeV::Document { children } => children,
        TreeV::Element { children, .. } => children,
        _ => Seq::empty(),
    }
}

/// Addition saturating at the machine word, the arithmetic of the tree
/// measurements.
pub open spec fn sat_add(a: nat, b: nat) -> nat {
    if a + b > usize::MAX {
        usize::MAX as nat
    } else {
        a + b
    }
}

pub(crate) fn add_sat(a: usize, b: usize) -> (r: usize)
    ensures
        r == sat_add(a as nat, b as nat),
{
    if a > usize::MAX - b {
        usize::MAX
    } else {
        a + b
    }
}

/// The lower-cased tag of an element node, absent for other kinds.
pub fn get_tag_name(n: &DomNode) -> (r: Option<String>)
    ensures
        match n@ {
            TreeV::Element { tag, .. } => r matches Some(s) && s@ == tag,
            _ => r is None,
        },
{
    match n {
        DomNode::Element { tag, .. } => Some(tag.clone()),
        _ => None,
    }
}

/// The total trimmed length of the text in a node's subtree: each text node
/// contributes the character count of its content after trimming leading and
/// trailing whitespace. A density metric, not the extracted text.
pub open spec fn spec_text_len(t: TreeV) -> nat
    decreases t, 1int,
{
    match t {
        TreeV::Document { children } => spec_text_len_seq(children, 0),
        TreeV::Element { children, .. } => spec_text_len_seq(children, 0),
        _ => 0,
    }
}

pub open spec fn spec_text_len_seq(s: Seq<TreeV>, i: int) -> nat
    decreases s, s.len() - i,
{
    if i < 0 || i >= s.len() {
        0
    } else {
        let here: nat = match s[i] {
            TreeV::Text { content } => spec_trim(content).len(),
            TreeV::Element { .. } => spec_text_len(s[i]),
            _ => 0,
        };
        sat_add(here, spec_text_len_seq(s, i + 1))
    }
}

/// See [`spec_text_len`]; saturates at `usize::MAX`.
pub fn text_len(n: &DomNode) -> (r: usize)
    ensures
        r == spec_text_len(n@),
    decreases n, 1int,
{
    match n {
        DomNode::Document { children } => text_len_seq(children, 0),
        DomNode::Element { children, .. } => text_len_seq(children, 0),
        _ => 0,
    }
}

fn text_len_seq(children: &Vec<DomNode>, i: usize) -> (r: usize)
    ensures
        r == spec_text_len_seq(views_of(children@, 0), i as int),
    decreases children, children@.len() - i,
{
    proof {
        lemma_views_of(children@, 0);
    }
    if i >= children.len() {
        0
    } else {
        proof {
            assert(views_of(children@, 0)[i as int] == node_view(children@[i as int]));
        }
        let here: usize = match &children[i] {
            DomNode::Text { content } => trimmed_len(content.as_str()),
            DomNode::Element { .. } => text_len(&children[i]),
            _ => 0,
        };
        let rest = text_len_seq(children, i + 1);
        add_sat(here, rest)
    }
}

/// The tags an element must itself bear to count as empty at all.
pub open spec fn structural_tag(t: Seq<char>) -> bool {
    t == "li"@ || t == "dt"@ || t == "dd"@ || t == "p"@ || t == "div"@ || t == "canvas"@
}

/// The element children through which emptiness may propagate.
pub open spec fn wrapper_tag(t: Seq<char>) -> bool {
    t == "li"@ || t == "dt"@ || t == "dd"@ || t == "p"@ || t == "div"@
}

/// A node is empty when its own tag is structural, every text child is
/// whitespace-only, and every element child is a wrapper that is itself
/// empty; any other element child makes it non-empty.
pub open spec fn spec_is_empty(t: TreeV) -> bool
    decreases t, 1int,
{
    match t {
        TreeV::Element { tag, children, .. } => structural_tag(tag) && spec_vacuous_seq(
            children,
            0,
        ),
        _ => false,
    }
}

pub open spec fn spec_vacuous_seq(s: Seq<TreeV>, i: int) -> bool
    decreases s, s.len() - i,
{
    if i < 0 || i >= s.len() {
        true
    } else {
        (match s[i] {
            TreeV::Text { content } => spec_trim(content).len() == 0,
            TreeV::Element { tag, .. } => wrapper_tag(tag) && spec_is_empty(s[i]),
            _ => true,
        }) && spec_vacuous_seq(s, i + 1)
    }
}

fn is_structural(tag: &str) -> (r: bool)
    ensures
        r == structural_tag(tag@),
{
    str_eq(tag, "li") || str_eq(tag, "dt") || str_eq(tag, "dd") || str_eq(tag, "p") || str_eq(
        tag,
        "div",
    ) || str_eq(tag, "canvas")
}

fn is_wrapper(tag: &str) -> (r: bool)
    ensures
        r == wrapper_tag(tag@),
{
    str_eq(tag, "li") || str_eq(tag, "dt") || str_eq(tag, "dd") || str_eq(tag, "p") || str_eq(
        tag,
        "div",
    )
}

/// See [`spec_is_empty`].
pub fn is_empty(n: &DomNode) -> (r: bool)
    ensures
        r == spec_is_empty(n@),
    decreases n, 1int,
{
    match n {
        DomNode::Element { tag, children, .. } => is_structural(tag.as_str()) && vacuous_seq(
            children,
            0,
        ),
        _ => false,
    }
}

fn vacuous_seq(children: &Vec<DomNode>, i: usize) -> (r: bool)
    ensures
        r == spec_vacuous_seq(views_of(children@, 0), i as int),
    decreases children, children@.len() - i,
{
    proof {
        lemma_views_of(children@, 0);
    }
    if i >= children.len() {
        true
    } else {
        proof {
            assert(views_of(children@, 0)[i as int] == node_view(children@[i as int]));
        }
        let here: bool = match &children[i] {
            DomNode::Text { content } => trimmed_len(content.as_str()) == 0,
            DomNode::Element { tag, .. } => is_wrapper(tag.as_str()) && is_empty(&children[i]),
            _ => true,
        };
        here && vacuous_seq(children, i + 1)
    }
}

/// Whether the node is an anchor or has one anywhere in its subtree.
pub open spec fn spec_has_link(t: TreeV) -> bool
    decreases t, 1int,
{
    match t {
        TreeV::Element { tag, children, .. } => tag == "a"@ || spec_has_link_seq(children, 0),
        TreeV::Document { children } => spec_has_link_seq(children, 0),
        _ => false,
    }
}

pub open spec fn spec_has_link_seq(s: Seq<TreeV>, i: int) -> bool
    decreases s, s.len() - i,
{
    if i < 0 || i >= s.len() {
        false
    } else {
        spec_has_link(s[i]) || spec_has_link_seq(s, i + 1)
    }
}

/// See [`spec_has_link`].
pub fn has_link(n: &DomNode) -> (r: bool)
    ensures
        r == spec_has_link(n@),
    decreases n, 1int,
{
    match n {
        DomNode::Element { tag, children, .. } => str_eq(tag.as_str(), "a") || has_link_seq(
            children,
            0,
        ),
        DomNode::Document { children } => has_link_seq(children, 0),
        _ => false,
    }
}

fn has_link_seq(children: &Vec<DomNode>, i: usize) -> (r: bool)
    ensures
        r == spec_has_link_seq(views_of(children@, 0), i as int),
    decreases children, children@.len() - i,
{
    proof {
        lemma_views_of(children@, 0);
    }
    if i >= children.len() {
        false
    } else {
        has_link(&children[i]) || has_link_seq(children, i + 1)
    }
}

/// The concatenated text of a node: direct text children in order and, when
/// `deep`, the text of element children in the same order, with no added
/// separators.
pub open spec fn spec_extract_text(t: TreeV, deep: bool) -> Seq<char>
    decreases t, 1int,
{
    match t {
        TreeV::Document { children } => spec_extract_text_seq(children, 0, deep),
        TreeV::Element { children, .. } => spec_extract_text_seq(children, 0, deep),
        _ => Seq::empty(),
    }
}

pub open spec fn spec_extract_text_seq(s: Seq<TreeV>, i: int, deep: bool) -> Seq<char>
    decreases s, s.len() - i,
{
    if i < 0 || i >= s.len() {
        Seq::empty()
    } else {
        (match s[i] {
            TreeV::Text { content } => content,
            TreeV::Element { .. } => if deep {
                spec_extract_text(s[i], deep)
            } else {
                Seq::empty()
            },
            _ => Seq::empty(),
        }) + spec_extract_text_seq(s, i + 1, deep)
    }
}

/// Appends the node's text to `text`; see [`spec_extract_text`].
pub fn extract_text(n: &DomNode, text: &mut String, deep: bool)
    ensures
        final(text)@ == old(text)@ + spec_extract_text(n@, deep),
    decreases n, 1int,
{
    match n {
        DomNode::Document { children } => extract_text_seq(children, 0, text, deep),
        DomNode::Element { children, .. } => extract_text_seq(children, 0, text, deep),
        _ => {
            proof {
                assert(old(text)@ + Seq::<char>::empty() =~= old(text)@);
            }
        },
    }
}

fn extract_text_seq(children: &Vec<DomNode>, i: usize, text: &mut String, deep: bool)
    ensures
        final(text)@ == old(text)@ + spec_extract_text_seq(views_of(children@, 0), i as int, deep),
    decreases children, children@.len() - i,
{
    proof {
        lemma_views_of(children@, 0);
    }
    if i >= children.len() {
        proof {
            assert(old(text)@ + Seq::<char>::empty() =~= old(text)@);
        }
    } else {
        proof {
            assert(views_of(children@, 0)[i as int] == node_view(children@[i as int]));
        }
        match &children[i] {
            DomNode::Text { content } => text.append(content.as_str()),
            DomNode::Element { .. } => {
                if deep {
                    extract_text(&children[i], text, deep);
                }
            },
            _ => {},
        }
        extract_text_seq(children, i + 1, text, deep);
        proof {
            assert(text@ =~= old(text)@ + spec_extract_text_seq(
                views_of(children@, 0),
                i as int,
                deep,
            ));
        }
    }
}

/// First-match attribute lookup from position `i` on.
pub open spec fn spec_attr_from(
    attrs: Seq<(Seq<char>, Seq<char>)>,
    name: Seq<char>,
    i: int,
) -> Option<Seq<char>>
    decreases attrs.len() - i,
{
    if i < 0 || i >= attrs.len() {
        None
    } else if attrs[i].0 == name {
        Some(attrs[i].1)
    } else {
        spec_attr_from(attrs, name, i + 1)
    }
}

/// The value of the first attribute named `name`, if any.
pub open spec fn spec_attr(attrs: Seq<(Seq<char>, Seq<char>)>, name: Seq<char>) -> Option<
    Seq<char>,
> {
    spec_attr_from(attrs, name, 0)
}

/// The attribute lookup lifted to a node: absent on non-elements.
pub open spec fn spec_get_attr(t: TreeV, name: Seq<char>) -> Option<Seq<char>> {
    match t {
        TreeV::Element { attrs, .. } => spec_attr(attrs, name),
        _ => None,
    }
}

fn attr_index(attr_name: &str, attrs: &Vec<(String, String)>, i: usize) -> (r: Option<usize>)
    ensures
        match r {
            Some(j) => i <= j < attrs@.len() && attr_views(attrs@)[j as int].0 == attr_name@
                && spec_attr_from(attr_views(attrs@), attr_name@, i as int) == Some(
                attr_views(attrs@)[j as int].1,
            ),
            None => spec_attr_from(attr_views(attrs@), attr_name@, i as int) is None,
        },
    decreases attrs@.len() - i,
{
    if i >= attrs.len() {
        None
    } else {
        let p = &attrs[i];
        if str_eq(p.0.as_str(), attr_name) {
            Some(i)
        } else {
            attr_index(attr_name, attrs, i + 1)
        }
    }
}

/// The value of the first attribute named `attr_name`, borrowed from the list.
pub fn attr<'a>(attr_name: &str, attrs: &'a Vec<(String, String)>) -> (r: Option<&'a str>)
    ensures
        match r {
            Some(v) => spec_attr(attr_views(attrs@), attr_name@) == Some(v@),
            None => spec_attr(attr_views(attrs@), attr_name@) is None,
        },
{
    match attr_index(attr_name, attrs, 0) {
        Some(j) => Some(attrs[j].1.as_str()),
        None => None,
    }
}

/// The value of the node's first attribute named `attr_name`, as an owned
/// string; absent for non-elements.
pub fn get_attr(attr_name: &str, n: &DomNode) -> (r: Option<String>)
    ensures
        match r {
            Some(v) => spec_get_attr(n@, attr_name@) == Some(v@),
            None => spec_get_attr(n@, attr_name@) is None,
        },
{
    match n {
        DomNode::Element { attrs, .. } => match attr(attr_name, attrs) {
            Some(v) => Some(v.to_owned()),
            None => None,
        },
        _ => None,
    }
}

/// The attribute list with the first attribute named `name` re-valued, from
/// position `i` on; unchanged when no such attribute exists.
pub open spec fn spec_set_from(
    attrs: Seq<(Seq<char>, Seq<char>)>,
    name: Seq<char>,
    value: Seq<char>,
    i: int,
) -> Seq<(Seq<char>, Seq<char>)>
    decreases attrs.len() - i,
{
    if i < 0 || i >= attrs.len() {
        attrs
    } else if attrs[i].0 == name {
        attrs.update(i, (attrs[i].0, value))
    } else {
        spec_set_from(attrs, name, value, i + 1)
    }
}

/// The node with the first attribute named `name` set to `value`; setting a
/// missing attribute, or setting on a non-element, changes nothing.
pub open spec fn spec_set_attr(t: TreeV, name: Seq<char>, value: Seq<char>) -> TreeV {
    match t {
        TreeV::Element { tag, attrs, children } => TreeV::Element {
            tag,
            attrs: spec_set_from(attrs, name, value, 0),
            children,
        },
        _ => t,
    }
}

fn set_from(attrs: &mut Vec<(String, String)>, name: &str, value: &str, i: usize)
    ensures
        attr_views(final(attrs)@) == spec_set_from(attr_views(old(attrs)@), name@, value@, i as int),
    decreases old(attrs)@.len() - i,
{
    if i >= attrs.len() {
    } else {
        let matched = str_eq(attrs[i].0.as_str(), name);
        if matched {
            let ghost pre = attrs@;
            let old_pair = attrs.remove(i);
            attrs.insert(i, (old_pair.0, value.to_owned()));
            proof {
                assert(attrs@ =~= pre.update(i as int, (pre[i as int].0, attrs@[i as int].1)));
                assert(attr_views(attrs@) =~= attr_views(pre).update(
                    i as int,
                    (attr_views(pre)[i as int].0, value@),
                ));
            }
        } else {
            set_from(attrs, name, value, i + 1);
        }
    }
}

/// See [`spec_set_attr`]: first-match replacement, no-op when absent.
pub fn set_attr(attr_name: &str, value: &str, n: &mut DomNode)
    ensures
        final(n)@ == spec_set_attr(old(n)@, attr_name@, value@),
{
    match n {
        DomNode::Element { attrs, .. } => {
            set_from(attrs, attr_name, value, 0);
        },
        _ => {},
    }
}

/// The attribute list with the first attribute named `name` removed, from
/// position `i` on.
pub open spec fn spec_remove_from(
    attrs: Seq<(Seq<char>, Seq<char>)>,
    name: Seq<char>,
    i: int,
) -> Seq<(Seq<char>, Seq<char>)>
    decreases attrs.len() - i,
{
    if i < 0 || i >= attrs.len() {
        attrs
    } else if attrs[i].0 == name {
        attrs.remove(i)
    } else {
        spec_remove_from(attrs, name, i + 1)
    }
}

fn remove_from(attrs: &mut Vec<(String, String)>, name: &str, i: usize)
    ensures
        attr_views(final(attrs)@) == spec_remove_from(attr_views(old(attrs)@), name@, i as int),
    decreases old(attrs)@.len() - i,
{
    if i >= attrs.len() {
    } else {
        let matched = str_eq(attrs[i].0.as_str(), name);
        if matched {
            let ghost pre = attrs@;
            let _ = attrs.remove(i);
            proof {
                assert(attr_views(attrs@) =~= attr_views(pre).remove(i as int));
            }
        } else {
            remove_from(attrs, name, i + 1);
        }
    }
}

/// Removes the first attribute named `attr_name` from the list, if present.
pub fn clean_attr(attr_name: &str, attrs: &mut Vec<(String, String)>)
    ensures
        attr_views(final(attrs)@) == spec_remove_from(attr_views(old(attrs)@), attr_name@, 0),
{
    remove_from(attrs, attr_name, 0);
}

/// How many descendant elements bear the given tag.
pub open spec fn spec_count_nodes(t: TreeV, tag: Seq<char>) -> nat
    decreases t, 1int,
{
    match t {
        TreeV::Document { children } => spec_count_seq(children, 0, tag),
        TreeV::Element { children, .. } => spec_count_seq(children, 0, tag),
        _ => 0,
    }
}

pub open spec fn spec_count_seq(s: Seq<TreeV>, i: int, tag: Seq<char>) -> nat
    decreases s, s.len() - i,
{
    if i < 0 || i >= s.len() {
        0
    } else {
        let here: nat = match s[i] {
            TreeV::Element { tag: t2, .. } => sat_add(
                if t2 == tag {
                    1nat
                } else {
                    0nat
                },
                spec_count_nodes(s[i], tag),
            ),
            _ => 0,
        };
        sat_add(here, spec_count_seq(s, i + 1, tag))
    }
}

/// See [`spec_count_nodes`]; saturates at `usize::MAX`.
pub fn count_nodes(n: &DomNode, tag_name: &str) -> (r: usize)
    ensures
        r == spec_count_nodes(n@, tag_name@),
    decreases n, 1int,
{
    match n {
        DomNode::Document { children } => count_seq(children, 0, tag_name),
        DomNode::Element { children, .. } => count_seq(children, 0, tag_name),
        _ => 0,
    }
}

fn count_seq(children: &Vec<DomNode>, i: usize, tag_name: &str) -> (r: usize)
    ensures
        r == spec_count_seq(views_of(children@, 0), i as int, tag_name@),
    decreases children, children@.len() - i,
{
    proof {
        lemma_views_of(children@, 0);
    }
    if i >= children.len() {
        0
    } else {
        proof {
            assert(views_of(children@, 0)[i as int] == node_view(children@[i as int]));
        }
        let here: usize = match &children[i] {
            DomNode::Element { tag, .. } => {
                let sub = count_nodes(&children[i], tag_name);
                if str_eq(tag.as_str(), tag_name) {
                    add_sat(1, sub)
                } else {
                    sub
                }
            },
            _ => 0,
        };
        let rest = count_seq(children, i + 1, tag_name);
        add_sat(here, rest)
    }
}

/// Whether `t` occurs in the list of tag names.
pub open spec fn tag_in_list(t: Seq<char>, names: Seq<&str>) -> bool {
    exists|k: int| 0 <= k < names.len() && names[k]@ == t
}

/// Whether any descendant element bears one of the given tags.
pub open spec fn spec_has_nodes(t: TreeV, names: Seq<&str>) -> bool
    decreases t, 1int,
{
    match t {
        TreeV::Document { children } => spec_has_nodes_seq(children, 0, names),
        TreeV::Element { children, .. } => spec_has_nodes_seq(children, 0, names),
        _ => false,
    }
}

pub open spec fn spec_has_nodes_seq(s: Seq<TreeV>, i: int, names: Seq<&str>) -> bool
    decreases s, s.len() - i,
{
    if i < 0 || i >= s.len() {
        false
    } else {
        (match s[i] {
            TreeV::Element { tag, .. } => tag_in_list(tag, names) || spec_has_nodes(s[i], names),
            _ => false,
        }) || spec_has_nodes_seq(s, i + 1, names)
    }
}

fn name_in_list(tag: &str, names: &Vec<&str>) -> (r: bool)
    ensures
        r == tag_in_list(tag@, names@),
{
    let mut k: usize = 0;
    while k < names.len()
        invariant
            0 <= k <= names@.len(),
            forall|t: int| 0 <= t < k ==> names@[t]@ != tag@,
        decreases names@.len() - k,
    {
        if str_eq(names[k], tag) {
            return true;
        }
        k = k + 1;
    }
    false
}

/// See [`spec_has_nodes`].
pub fn has_nodes(n: &DomNode, tag_names: &Vec<&str>) -> (r: bool)
    ensures
        r == spec_has_nodes(n@, tag_names@),
    decreases n, 1int,
{
    match n {
        DomNode::Document { children } => has_nodes_seq(children, 0, tag_names),
        DomNode::Element { children, .. } => has_nodes_seq(children, 0, tag_names),
        _ => false,
    }
}

fn has_nodes_seq(children: &Vec<DomNode>, i: usize, tag_names: &Vec<&str>) -> (r: bool)
    ensures
        r == spec_has_nodes_seq(views_of(children@, 0), i as int, tag_names@),
    decreases children, children@.len() - i,
{
    proof {
        lemma_views_of(children@, 0);
    }
    if i >= children.len() {
        false
    } else {
        proof {
            assert(views_of(children@, 0)[i as int] == node_view(children@[i as int]));
        }
        let here: bool = match &children[i] {
            DomNode::Element { tag, .. } => name_in_list(tag.as_str(), tag_names) || has_nodes(
                &children[i],
                tag_names,
            ),
            _ => false,
        };
        here || has_nodes_seq(children, i + 1, tag_names)
    }
}

/// How many direct text children have a trimmed length of at least 20
/// characters: a cheap paragraph-density signal.
pub open spec fn spec_text_children_count(t: TreeV) -> nat {
    spec_tcc_seq(kids(t), 0)
}

pub open spec fn spec_tcc_seq(s: Seq<TreeV>, i: int) -> nat
    decreases s.len() - i,
{
    if i < 0 || i >= s.len() {
        0
    } else {
        (match s[i] {
            TreeV::Text { content } => if spec_trim(content).len() >= 20 {
                1nat
            } else {
                0nat
            },
            _ => 0nat,
        }) + spec_tcc_seq(s, i + 1)
    }
}

proof fn lemma_tcc_bound(s: Seq<TreeV>, i: int)
    requires
        0 <= i <= s.len(),
    ensures
        spec_tcc_seq(s, i) <= s.len() - i,
    decreases s.len() - i,
{
    if i < s.len() {
        lemma_tcc_bound(s, i + 1);
    }
}

/// See [`spec_text_children_count`].
pub fn text_children_count(n: &DomNode) -> (r: usize)
    ensures
        r == spec_text_children_count(n@),
{
    match n {
        DomNode::Document { children } => tcc_seq(children, 0),
        DomNode::Element { children, .. } => tcc_seq(children, 0),
        _ => 0,
    }
}

fn tcc_seq(children: &Vec<DomNode>, i: usize) -> (r: usize)
    ensures
        r == spec_tcc_seq(views_of(children@, 0), i as int),
    decreases children@.len() - i,
{
    proof {
        lemma_views_of(children@, 0);
    }
    if i >= children.len() {
        0
    } else {
        proof {
            assert(views_of(children@, 0)[i as int] == node_view(children@[i as int]));
            lemma_tcc_bound(views_of(children@, 0), i + 1);
        }
        let here: usize = match &children[i] {
            DomNode::Text { content } => {
                if trimmed_len(content.as_str()) >= 20 {
                    1
                } else {
                    0
                }
            },
            _ => 0,
        };
        let rest = tcc_seq(children, i + 1);
        here + rest
    }
}

pub(crate) fn clone_attrs(attrs: &Vec<(String, String)>) -> (r: Vec<(String, String)>)
    ensures
        r@ == attrs@,
{
    let mut out: Vec<(String, String)> = Vec::new();
    let mut j: usize = 0;
    while j < attrs.len()
        invariant
            out@.len() == j,
            0 <= j <= attrs@.len(),
            forall|k: int| 0 <= k < j ==> out@[k] == attrs@[k],
        decreases attrs@.len() - j,
    {
        let p = &attrs[j];
        out.push((p.0.clone(), p.1.clone()));
        j = j + 1;
    }
    proof {
        assert(out@ =~= attrs@);
    }
    out
}

fn clone_kids(children: &Vec<DomNode>) -> (r: Vec<DomNode>)
    ensures
        views_of(r@, 0) == views_of(children@, 0),
    decreases children, 0int,
{
    let mut out: Vec<DomNode> = Vec::new();
    let mut j: usize = 0;
    while j < children.len()
        invariant
            out@.len() == j,
            0 <= j <= children@.len(),
            forall|k: int| 0 <= k < j ==> node_view(out@[k]) == node_view(children@[k]),
        decreases children@.len() - j,
    {
        let c = clone_node(&children[j]);
        out.push(c);
        j = j + 1;
    }
    proof {
        lemma_views_of(out@, 0);
        lemma_views_of(children@, 0);
        assert forall|k: int| 0 <= k < views_of(out@, 0).len() implies views_of(out@, 0)[k]
            == views_of(children@, 0)[k] by {
            assert(node_view(out@[k]) == node_view(children@[k]));
        }
        assert(views_of(out@, 0) =~= views_of(children@, 0));
    }
    out
}

fn clone_node(n: &DomNode) -> (r: DomNode)
    ensures
        r@ == n@,
    decreases n, 1int,
{
    match n {
        DomNode::Document { children } => DomNode::Document { children: clone_kids(children) },
        DomNode::Element { tag, attrs, children } => DomNode::Element {
            tag: tag.clone(),
            attrs: clone_attrs(attrs),
            children: clone_kids(children),
        },
        DomNode::Text { content } => DomNode::Text { content: content.clone() },
        DomNode::Doctype { name, public_id, system_id } => DomNode::Doctype {
            name: name.clone(),
            public_id: public_id.clone(),
            system_id: system_id.clone(),
        },
        DomNode::Comment { content } => DomNode::Comment { content: content.clone() },
        DomNode::Pi { target, content } => DomNode::Pi {
            target: target.clone(),
            content: content.clone(),
        },
    }
}

impl Clone for DomNode {
    /// A deep copy with the same model.
    fn clone(&self) -> (r: DomNode)
        ensures
            r@ == self@,
    {
        clone_node(self)
    }
}

/// The descendant elements bearing the given tag, in document pre-order.
pub open spec fn spec_find(t: TreeV, tag: Seq<char>) -> Seq<TreeV>
    decreases t, 1int,
{
    match t {
        TreeV::Document { children } => spec_find_seq(children, 0, tag),
        TreeV::Element { children, .. } => spec_find_seq(children, 0, tag),
        _ => Seq::empty(),
    }
}

pub open spec fn spec_find_seq(s: Seq<TreeV>, i: int, tag: Seq<char>) -> Seq<TreeV>
    decreases s, s.len() - i,
{
    if i < 0 || i >= s.len() {
        Seq::empty()
    } else {
        (match s[i] {
            TreeV::Element { tag: t2, .. } => (if t2 == tag {
                seq![s[i]]
            } else {
                Seq::empty()
            }) + spec_find(s[i], tag),
            _ => Seq::empty(),
        }) + spec_find_seq(s, i + 1, tag)
    }
}

/// Appends copies of the matching descendants to `nodes`; see [`spec_find`].
pub fn find_node(n: &DomNode, tag_name: &str, nodes: &mut Vec<DomNode>)
    ensures
        views_of(final(nodes)@, 0) == views_of(old(nodes)@, 0) + spec_find(n@, tag_name@),
    decreases n, 1int,
{
    match n {
        DomNode::Document { children } => find_seq(children, 0, tag_name, nodes),
        DomNode::Element { children, .. } => find_seq(children, 0, tag_name, nodes),
        _ => {
            proof {
                assert(views_of(nodes@, 0) + Seq::<TreeV>::empty() =~= views_of(nodes@, 0));
            }
        },
    }
}

fn find_seq(children: &Vec<DomNode>, i: usize, tag_name: &str, nodes: &mut Vec<DomNode>)
    ensures
        views_of(final(nodes)@, 0) == views_of(old(nodes)@, 0) + spec_find_seq(
            views_of(children@, 0),
            i as int,
            tag_name@,
        ),
    decreases children, children@.len() - i,
{
    proof {
        lemma_views_of(children@, 0);
    }
    if i >= children.len() {
        proof {
            assert(views_of(nodes@, 0) + Seq::<TreeV>::empty() =~= views_of(nodes@, 0));
        }
    } else {
        proof {
            assert(views_of(children@, 0)[i as int] == node_view(children@[i as int]));
        }
        match &children[i] {
            DomNode::Element { tag, .. } => {
                if str_eq(tag.as_str(), tag_name) {
                    let ghost pre = nodes@;
                    let c = clone_node(&children[i]);
                    nodes.push(c);
                    proof {
                        lemma_views_of(pre, 0);
                        lemma_views_of(nodes@, 0);
                        let target = views_of(pre, 0) + seq![node_view(children@[i as int])];
                        assert forall|k: int| 0 <= k < views_of(nodes@, 0).len() implies views_of(
                            nodes@,
                            0,
                        )[k] == target[k] by {
                            if k < pre.len() {
                                assert(nodes@[k] == pre[k]);
                            } else {
                                assert(nodes@[k] == c);
                            }
                        }
                        assert(views_of(nodes@, 0) =~= target);
                    }
                }
                find_node(&children[i], tag_name, nodes);
            },
            _ => {},
        }
        find_seq(children, i + 1, tag_name, nodes);
        proof {
            assert(views_of(nodes@, 0) =~= views_of(old(nodes)@, 0) + spec_find_seq(
                views_of(children@, 0),
                i as int,
                tag_name@,
            ));
        }
    }
}

/// A tree holding no document node at all, as every proper subtree of a
/// parsed document is.
pub open spec fn doc_free(t: TreeV) -> bool
    decreases t, 1int,
{
    match t {
        TreeV::Document { .. } => false,
        TreeV::Element { children, .. } => doc_free_seq(children, 0),
        _ => true,
    }
}

pub open spec fn doc_free_seq(s: Seq<TreeV>, i: int) -> bool
    decreases s, s.len() - i,
{
    if i < 0 || i >= s.len() {
        true
    } else {
        doc_free(s[i]) && doc_free_seq(s, i + 1)
    }
}

/// No document node stands below the root: what the HTML parser guarantees of
/// the tree it builds, and what the serializer needs of the tree it is given.
pub open spec fn no_doc_below(t: TreeV) -> bool {
    match t {
        TreeV::Document { children } => doc_free_seq(children, 0),
        TreeV::Element { children, .. } => doc_free_seq(children, 0),
        _ => true,
    }
}

pub proof fn lemma_doc_free_seq_index(s: Seq<TreeV>, i: int, j: int)
    requires
        0 <= i <= j < s.len(),
        doc_free_seq(s, i),
    ensures
        doc_free(s[j]),
    decreases j - i,
{
    if i < j {
        lemma_doc_free_seq_index(s, i + 1, j);
    }
}

pub proof fn lemma_doc_free_below(t: TreeV)
    requires
        doc_free(t),
    ensures
        no_doc_below(t),
{
}

proof fn lemma_doc_free_seq_mono(s: Seq<TreeV>, i: int, j: int)
    requires
        0 <= i <= j,
        doc_free_seq(s, i),
    ensures
        doc_free_seq(s, j),
    decreases j - i,
{
    if i < j {
        lemma_doc_free_seq_mono(s, i + 1, j);
    }
}

pub proof fn lemma_doc_free_seq_concat(a: Seq<TreeV>, b: Seq<TreeV>, i: int)
    requires
        0 <= i,
        doc_free_seq(a, i),
        doc_free_seq(b, 0),
    ensures
        doc_free_seq(a + b, i),
    decreases a.len() - i,
{
    if i < a.len() {
        assert((a + b)[i] == a[i]);
        lemma_doc_free_seq_concat(a, b, i + 1);
    } else {
        lemma_doc_free_seq_mono(b, 0, i - a.len());
        lemma_doc_free_seq_shift(a, b, i - a.len());
    }
}

proof fn lemma_doc_free_seq_shift(a: Seq<TreeV>, b: Seq<TreeV>, j: int)
    requires
        0 <= j,
        doc_free_seq(b, j),
    ensures
        doc_free_seq(a + b, a.len() + j),
    decreases b.len() - j,
{
    if j < b.len() {
        assert((a + b)[a.len() + j] == b[j]);
        lemma_doc_free_seq_shift(a, b, j + 1);
    }
}

/// The UTF-8 byte length of one character.
pub open spec fn utf8_len_char(c: char) -> nat {
    let u = c as u32;
    if u < 0x80 {
        1
    } else if u < 0x800 {
        2
    } else if u < 0x10000 {
        3
    } else {
        4
    }
}

/// The UTF-8 byte length of the characters of `s` from position `i` on.
pub open spec fn utf8_len(s: Seq<char>, i: int) -> nat
    decreases s.len() - i,
{
    if i < 0 || i >= s.len() {
        0
    } else {
        utf8_len_char(s[i]) + utf8_len(s, i + 1)
    }
}

pub proof fn lemma_utf8_len_bound(s: Seq<char>, i: int)
    requires
        0 <= i <= s.len(),
    ensures
        utf8_len(s, i) <= 4 * (s.len() - i),
    decreases s.len() - i,
{
    if i < s.len() {
        lemma_utf8_len_bound(s, i + 1);
    }
}

/// Whether every attribute value fits the serializer's 32-bit buffer.
pub open spec fn bounded_attr_vals(attrs: Seq<(Seq<char>, Seq<char>)>) -> bool {
    forall|k: int| 0 <= k < attrs.len() ==> utf8_len((#[trigger] attrs[k]).1, 0) <= u32::MAX
}

/// Every string the serializer turns back into a parser buffer — text,
/// comments, attribute values, doctype fields, processing-instruction
/// fields — fits that buffer's 32-bit byte length. Tag and attribute names
/// become interned atoms and need no bound.
pub open spec fn short_strs(t: TreeV) -> bool
    decreases t, 1int,
{
    match t {
        TreeV::Document { children } => short_strs_seq(children, 0),
        TreeV::Element { attrs, children, .. } => bounded_attr_vals(attrs) && short_strs_seq(
            children,
            0,
        ),
        TreeV::Text { content } => utf8_len(content, 0) <= u32::MAX,
        TreeV::Doctype { name, public_id, system_id } => utf8_len(name, 0) <= u32::MAX
            && utf8_len(public_id, 0) <= u32::MAX && utf8_len(system_id, 0) <= u32::MAX,
        TreeV::Comment { content } => utf8_len(content, 0) <= u32::MAX,
        TreeV::Pi { target, content } => utf8_len(target, 0) <= u32::MAX && utf8_len(content, 0)
            <= u32::MAX,
    }
}

pub open spec fn short_strs_seq(s: Seq<TreeV>, i: int) -> bool
    decreases s, s.len() - i,
{
    if i < 0 || i >= s.len() {
        true
    } else {
        short_strs(s[i]) && short_strs_seq(s, i + 1)
    }
}

pub proof fn lemma_short_strs_seq_index(s: Seq<TreeV>, i: int, j: int)
    requires
        0 <= i <= j < s.len(),
        short_strs_seq(s, i),
    ensures
        short_strs(s[j]),
    decreases j - i,
{
    if i < j {
        lemma_short_strs_seq_index(s, i + 1, j);
    }
}

proof fn lemma_short_strs_seq_mono(s: Seq<TreeV>, i: int, j: int)
    requires
        0 <= i <= j,
        short_strs_seq(s, i),
    ensures
        short_strs_seq(s, j),
    decreases j - i,
{
    if i < j {
        lemma_short_strs_seq_mono(s, i + 1, j);
    }
}

pub proof fn lemma_short_strs_seq_concat(a: Seq<TreeV>, b: Seq<TreeV>, i: int)
    requires
        0 <= i,
        short_strs_seq(a, i),
        short_strs_seq(b, 0),
    ensures
        short_strs_seq(a + b, i),
    decreases a.len() - i,
{
    if i < a.len() {
        assert((a + b)[i] == a[i]);
        lemma_short_strs_seq_concat(a, b, i + 1);
    } else {
        lemma_short_strs_seq_mono(b, 0, i - a.len());
        lemma_short_strs_seq_shift(a, b, i - a.len());
    }
}

proof fn lemma_short_strs_seq_shift(a: Seq<TreeV>, b: Seq<TreeV>, j: int)
    requires
        0 <= j,
        short_strs_seq(b, j),
    ensures
        short_strs_seq(a + b, a.len() + j),
    decreases b.len() - j,
{
    if j < b.len() {
        assert((a + b)[a.len() + j] == b[j]);
        lemma_short_strs_seq_shift(a, b, j + 1);
    }
}

} // verus!
