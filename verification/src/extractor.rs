//! The extraction orchestrator: parse, preprocess, score, select, clean,
//! serialize, and assemble the product.

use vstd::prelude::*;
use vstd::string::StringSliceAdditionalSpecFns;
use crate::bindings::{
    parse_html, parse_url, parsed_doc, parsed_url, serialize_node, serialized, MAX_PARSE_BYTES,
};
use crate::dom::{extract_text, spec_extract_text, DomNode, TreeV};
use crate::error::Error;
use crate::scorer::{
    cand_views, clean_root, find_candidates, get_title, node_at, preprocess, select_top,
    spec_candidates, spec_clean_root, spec_node_at, spec_preprocess, spec_select, spec_title,
    Candidate,
};

verus! {

broadcast use vstd::slice::axiom_spec_len;

/// The result of one extraction: the document title, the sanitized markup of
/// the winning subtree, and its plain text.
#[derive(Debug, Clone, PartialEq, Eq)]
pub struct Product {
    pub title: String,
    pub content: String,
    pub text: String,
}

/// The model of an extraction: the title, content markup and plain text drawn
/// from the model of a parsed document and the normalized base URL.
pub open spec fn spec_product(doc: TreeV, base: Seq<char>) -> (Seq<char>, Seq<char>, Seq<char>) {
    let pre = spec_preprocess(doc);
    let cands = spec_candidates(pre, Seq::empty());
    let top_path = spec_select(pre, cands);
    let top = match spec_node_at(pre, top_path, 0) {
        Some(t) => t,
        None => pre,
    };
    let cleaned = spec_clean_root(top, base);
    (spec_title(pre), serialized(cleaned), spec_extract_text(cleaned, true))
}

/// Extracts the primary readable content of `input`, resolving relative links
/// against the absolute source URL `url`. Returns the title, the serialized
/// cleaned winning subtree and its plain text; fails exactly when the URL does
/// not parse or the input is too long for the parser's buffers.
pub fn extract(input: &str, url: &str) -> (r: Result<Product, Error>)
    ensures
        r is Ok <==> parsed_url(url@) is Some && input.spec_bytes().len() <= MAX_PARSE_BYTES,
        r matches Ok(p) ==> (p.title@, p.content@, p.text@) == spec_product(
            parsed_doc(input@).unwrap(),
            parsed_url(url@).unwrap(),
        ),
        parsed_url(url@) is None ==> (r matches Err(e) && e is UrlParseError),
        parsed_url(url@) is Some && input.spec_bytes().len() > MAX_PARSE_BYTES ==> (r matches Err(
            e,
        ) && e is InvalidTendrilBuffer),
{
    let base = match parse_url(url) {
        Ok(b) => b,
        Err(e) => {
            return Err(Error::UrlParseError(e));
        },
    };
    if input.as_bytes().len() > MAX_PARSE_BYTES {
        return Err(Error::InvalidTendrilBuffer);
    }
    let doc = match parse_html(input) {
        Some(d) => d,
        None => {
            return Err(Error::InvalidTendrilBuffer);
        },
    };
    let pre = preprocess(&doc);
    let title = get_title(&pre);
    let mut path: Vec<usize> = Vec::new();
    let mut cands: Vec<Candidate> = Vec::new();
    proof {
        assert(path@ =~= Seq::<usize>::empty());
        assert(cand_views(cands@) =~= Seq::<(Seq<usize>, int)>::empty());
    }
    find_candidates(&pre, &mut path, &mut cands);
    proof {
        assert(cand_views(cands@) =~= Seq::<(Seq<usize>, int)>::empty() + spec_candidates(
            pre@,
            Seq::<usize>::empty(),
        ));
        assert(cand_views(cands@) =~= spec_candidates(pre@, Seq::<usize>::empty()));
    }
    let top_path = select_top(&pre, &cands);
    let top: &DomNode = match node_at(&pre, &top_path, 0) {
        Some(t) => t,
        None => &pre,
    };
    proof {
        crate::scorer::lemma_preprocess_no_doc(doc@);
        crate::scorer::lemma_preprocess_short(doc@);
        crate::scorer::lemma_node_at_no_doc(pre@, top_path@, 0);
        crate::scorer::lemma_node_at_short(pre@, top_path@, 0);
    }
    let cleaned = clean_root(top, base.as_str());
    proof {
        crate::scorer::lemma_clean_root_no_doc(top@, base@);
        crate::scorer::lemma_clean_root_short(top@, base@);
    }
    let content = serialize_node(&cleaned);
    let mut text = String::new();
    extract_text(&cleaned, &mut text, true);
    proof {
        assert(Seq::<char>::empty() + spec_extract_text(cleaned@, true) =~= spec_extract_text(
            cleaned@,
            true,
        ));
    }
    Ok(Product { title, content, text })
}

/// Determinism: the product is a function of the parsed document and the base
/// URL alone, so two extractions from the same input and URL agree in title,
/// content and text.
pub proof fn lemma_extract_deterministic(
    doc: TreeV,
    base: Seq<char>,
    p1: (Seq<char>, Seq<char>, Seq<char>),
    p2: (Seq<char>, Seq<char>, Seq<char>),
)
    requires
        p1 == spec_product(doc, base),
        p2 == spec_product(doc, base),
    ensures
        p1 == p2,
{
}

} // verus!
