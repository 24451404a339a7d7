//! The candidate scorer, selector, preprocessor and cleaner: the heuristic
//! that rates each container by its text density, discounts link-heavy
//! blocks, picks the likeliest article body, and sanitizes it.

use vstd::prelude::*;
use crate::dom::{
    DomNode, TreeV, node_view, views_of, lemma_views_of, spec_text_len, spec_text_children_count,
    spec_is_empty, sat_add, text_len, text_children_count, is_empty, attr_views, clone_attrs,
    extract_text, spec_extract_text, kids, add_sat, doc_free, doc_free_seq, no_doc_below,
    lemma_doc_free_seq_index, lemma_doc_free_below, lemma_doc_free_seq_concat, utf8_len,
    lemma_utf8_len_bound, bounded_attr_vals, short_strs, short_strs_seq,
    lemma_short_strs_seq_index, lemma_short_strs_seq_concat, spec_attr, spec_attr_from,
    structural_tag,
};
use vstd::string::StrSliceExecFns;
use crate::text::{str_eq, spec_trim, trim_str};
use crate::bindings::{joined, resolve_url};

verus! {

broadcast use vstd::std_specs::vec::group_vec_axioms, vstd::seq::axiom_seq_index_decreases, vstd::string::group_string_axioms;

/// The bound on every raw and adjusted score; accumulation clamps here.
pub const SCORE_CAP: i64 = 1_000_000_000;

/// The least trimmed subtree text length that makes a block eligible.
pub const MIN_CANDIDATE_TEXT: usize = 20;

/// The paragraph-bearing tags whose nodes are scored directly.
pub open spec fn scoring_tag(t: Seq<char>) -> bool {
    t == "p"@ || t == "pre"@ || t == "blockquote"@ || t == "article"@ || t == "section"@
        || t == "div"@ || t == "td"@ || t == "center"@
}

fn is_scoring_tag(tag: &str) -> (r: bool)
    ensures
        r == scoring_tag(tag@),
{
    str_eq(tag, "p") || str_eq(tag, "pre") || str_eq(tag, "blockquote") || str_eq(tag, "article")
        || str_eq(tag, "section") || str_eq(tag, "div") || str_eq(tag, "td") || str_eq(
        tag,
        "center",
    )
}

/// An element earns a base score when its tag is paragraph-bearing and its
/// subtree holds enough trimmed text.
pub open spec fn spec_eligible(t: TreeV) -> bool {
    match t {
        TreeV::Element { tag, .. } => scoring_tag(tag) && spec_text_len(t)
            >= MIN_CANDIDATE_TEXT as nat,
        _ => false,
    }
}

fn eligible(n: &DomNode) -> (r: bool)
    ensures
        r == spec_eligible(n@),
{
    match n {
        DomNode::Element { tag, .. } => is_scoring_tag(tag.as_str()) && text_len(n)
            >= MIN_CANDIDATE_TEXT,
        _ => false,
    }
}

/// The prior weight of a tag: content containers positive, list, heading and
/// navigation tags negative.
pub open spec fn tag_weight(t: Seq<char>) -> int {
    if t == "article"@ {
        8
    } else if t == "section"@ {
        6
    } else if t == "div"@ {
        5
    } else if t == "pre"@ || t == "td"@ || t == "blockquote"@ {
        3
    } else if t == "address"@ || t == "ol"@ || t == "ul"@ || t == "dl"@ || t == "dd"@ || t
        == "dt"@ || t == "li"@ || t == "form"@ {
        -3
    } else if t == "th"@ || t == "h1"@ || t == "h2"@ || t == "h3"@ || t == "h4"@ || t == "h5"@
        || t == "h6"@ {
        -5
    } else if t == "nav"@ || t == "aside"@ || t == "header"@ || t == "footer"@ {
        -10
    } else {
        0
    }
}

/// The prior weight of a node: its tag's weight for elements, zero otherwise.
pub open spec fn node_weight(t: TreeV) -> int {
    match t {
        TreeV::Element { tag, .. } => tag_weight(tag),
        _ => 0,
    }
}

fn exec_tag_weight(tag: &str) -> (r: i64)
    ensures
        r as int == tag_weight(tag@),
        -10 <= r <= 10,
{
    if str_eq(tag, "article") {
        8
    } else if str_eq(tag, "section") {
        6
    } else if str_eq(tag, "div") {
        5
    } else if str_eq(tag, "pre") || str_eq(tag, "td") || str_eq(tag, "blockquote") {
        3
    } else if str_eq(tag, "address") || str_eq(tag, "ol") || str_eq(tag, "ul") || str_eq(tag, "dl")
        || str_eq(tag, "dd") || str_eq(tag, "dt") || str_eq(tag, "li") || str_eq(tag, "form") {
        -3
    } else if str_eq(tag, "th") || str_eq(tag, "h1") || str_eq(tag, "h2") || str_eq(tag, "h3")
        || str_eq(tag, "h4") || str_eq(tag, "h5") || str_eq(tag, "h6") {
        -5
    } else if str_eq(tag, "nav") || str_eq(tag, "aside") || str_eq(tag, "header") || str_eq(
        tag,
        "footer",
    ) {
        -10
    } else {
        0
    }
}

/// The capped value: `a`, but no more than `c`.
pub open spec fn cap_at(a: nat, c: nat) -> nat {
    if a > c {
        c
    } else {
        a
    }
}

/// The base content score of a node: one point, one per long direct text
/// child (capped), one per hundred characters of trimmed text (capped at
/// three).
pub open spec fn spec_calc(t: TreeV) -> int {
    1 + cap_at(spec_text_children_count(t), 1000) as int + cap_at(spec_text_len(t) / 100, 3) as int
}

fn calc_score(n: &DomNode) -> (r: i64)
    ensures
        r as int == spec_calc(n@),
        1 <= r <= 1004,
{
    let tcc = text_children_count(n);
    let tl = text_len(n);
    let a: usize = if tcc > 1000 {
        1000
    } else {
        tcc
    };
    let q = tl / 100;
    let b: usize = if q > 3 {
        3
    } else {
        q
    };
    1 + (a as i64) + (b as i64)
}

/// The trimmed text length lying under anchor elements of the subtree; an
/// anchor nested in an anchor is counted once per enclosing anchor.
pub open spec fn spec_link_text_len(t: TreeV) -> nat
    decreases t, 1int,
{
    match t {
        TreeV::Document { children } => spec_ltl_seq(children, 0),
        TreeV::Element { children, .. } => spec_ltl_seq(children, 0),
        _ => 0,
    }
}

pub open spec fn spec_ltl_seq(s: Seq<TreeV>, i: int) -> nat
    decreases s, s.len() - i,
{
    if i < 0 || i >= s.len() {
        0
    } else {
        let here: nat = match s[i] {
            TreeV::Element { tag, .. } => sat_add(
                if tag == "a"@ {
                    spec_text_len(s[i])
                } else {
                    0nat
                },
                spec_link_text_len(s[i]),
            ),
            _ => 0,
        };
        sat_add(here, spec_ltl_seq(s, i + 1))
    }
}

/// See [`spec_link_text_len`]; saturates at `usize::MAX`.
pub fn link_text_len(n: &DomNode) -> (r: usize)
    ensures
        r == spec_link_text_len(n@),
    decreases n, 1int,
{
    match n {
        DomNode::Document { children } => ltl_seq(children, 0),
        DomNode::Element { children, .. } => ltl_seq(children, 0),
        _ => 0,
    }
}

fn ltl_seq(children: &Vec<DomNode>, i: usize) -> (r: usize)
    ensures
        r == spec_ltl_seq(views_of(children@, 0), i as int),
    decreases children, children@.len() - i,
{
    proof {
        lemma_views_of(children@, 0);
    }
    if i >= children.len() {
        0
    } else {
        proof {
            assert(views_of(children@, 0)[i as int] == node_view(children@[i as int]));
        }
        let here: usize = match &children[i] {
            DomNode::Element { tag, .. } => {
                let sub = link_text_len(&children[i]);
                if str_eq(tag.as_str(), "a") {
                    add_sat(text_len(&children[i]), sub)
                } else {
                    sub
                }
            },
            _ => 0,
        };
        let rest = ltl_seq(children, i + 1);
        add_sat(here, rest)
    }
}

/// The score range clamp.
pub open spec fn clamp_score(x: int) -> int {
    if x > SCORE_CAP as int {
        SCORE_CAP as int
    } else if x < -(SCORE_CAP as int) {
        -(SCORE_CAP as int)
    } else {
        x
    }
}

fn clamp_add(a: i64, b: i64) -> (r: i64)
    requires
        -(SCORE_CAP as int) <= a <= SCORE_CAP as int,
        -2000 <= b <= 2000,
    ensures
        r as int == clamp_score(a + b),
        -(SCORE_CAP as int) <= r <= SCORE_CAP as int,
{
    let s = a + b;
    if s > SCORE_CAP {
        SCORE_CAP
    } else if s < -SCORE_CAP {
        -SCORE_CAP
    } else {
        s
    }
}

/// Whether any node of the sequence is eligible.
pub open spec fn any_eligible(s: Seq<TreeV>) -> bool {
    exists|j: int| 0 <= j < s.len() && spec_eligible(s[j])
}

/// A node is a candidate when an eligible block stands one or two levels
/// below it.
pub open spec fn spec_is_candidate(t: TreeV) -> bool {
    exists|k: int|
        0 <= k < kids(t).len() && (spec_eligible(kids(t)[k]) || any_eligible(
            kids(kids(t)[k]),
        ))
}

fn any_eligible_grandchild(child: &DomNode) -> (r: bool)
    ensures
        r == any_eligible(kids(child@)),
{
    match child {
        DomNode::Document { children } => any_eligible_in(children),
        DomNode::Element { children, .. } => any_eligible_in(children),
        _ => false,
    }
}

fn any_eligible_in(children: &Vec<DomNode>) -> (r: bool)
    ensures
        r == any_eligible(views_of(children@, 0)),
{
    proof {
        lemma_views_of(children@, 0);
    }
    let mut j: usize = 0;
    while j < children.len()
        invariant
            0 <= j <= children@.len(),
            views_of(children@, 0).len() == children@.len(),
            forall|k: int|
                0 <= k < children@.len() ==> #[trigger] views_of(children@, 0)[k] == node_view(
                    children@[k],
                ),
            forall|k: int| 0 <= k < j ==> !spec_eligible(views_of(children@, 0)[k]),
        decreases children@.len() - j,
    {
        if eligible(&children[j]) {
            assert(spec_eligible(views_of(children@, 0)[j as int]));
            return true;
        }
        j = j + 1;
    }
    false
}

/// See [`spec_is_candidate`].
pub fn is_candidate_node(n: &DomNode) -> (r: bool)
    ensures
        r == spec_is_candidate(n@),
{
    let children: &Vec<DomNode> = match n {
        DomNode::Document { children } => children,
        DomNode::Element { children, .. } => children,
        _ => {
            return false;
        },
    };
    proof {
        lemma_views_of(children@, 0);
    }
    let mut k: usize = 0;
    while k < children.len()
        invariant
            0 <= k <= children@.len(),
            kids(n@) == views_of(children@, 0),
            views_of(children@, 0).len() == children@.len(),
            forall|t: int|
                0 <= t < children@.len() ==> #[trigger] views_of(children@, 0)[t] == node_view(
                    children@[t],
                ),
            forall|t: int|
                0 <= t < k ==> !(spec_eligible(#[trigger] kids(n@)[t]) || any_eligible(
                    kids(kids(n@)[t]),
                )),
        decreases children@.len() - k,
    {
        if eligible(&children[k]) {
            assert(spec_eligible(kids(n@)[k as int]));
            return true;
        }
        if any_eligible_grandchild(&children[k]) {
            assert(any_eligible(kids(kids(n@)[k as int])));
            return true;
        }
        k = k + 1;
    }
    false
}

/// The raw score of a candidate: its tag's prior weight, plus the base score
/// of each eligible child, plus half the base score of each eligible
/// grandchild, every addition clamped into the score range.
pub open spec fn spec_local_score(t: TreeV) -> int {
    spec_grand_sum(kids(t), 0, spec_child_sum(kids(t), 0, node_weight(t)))
}

pub open spec fn spec_child_sum(s: Seq<TreeV>, i: int, acc: int) -> int
    decreases s.len() - i,
{
    if i < 0 || i >= s.len() {
        acc
    } else {
        let acc2 = if spec_eligible(s[i]) {
            clamp_score(acc + spec_calc(s[i]))
        } else {
            acc
        };
        spec_child_sum(s, i + 1, acc2)
    }
}

pub open spec fn spec_grand_sum(s: Seq<TreeV>, i: int, acc: int) -> int
    decreases s.len() - i,
{
    if i < 0 || i >= s.len() {
        acc
    } else {
        spec_grand_sum(s, i + 1, spec_grand_one(kids(s[i]), 0, acc))
    }
}

pub open spec fn spec_grand_one(g: Seq<TreeV>, j: int, acc: int) -> int
    decreases g.len() - j,
{
    if j < 0 || j >= g.len() {
        acc
    } else {
        let acc2 = if spec_eligible(g[j]) {
            clamp_score(acc + spec_calc(g[j]) / 2)
        } else {
            acc
        };
        spec_grand_one(g, j + 1, acc2)
    }
}

/// See [`spec_local_score`].
pub fn local_score(n: &DomNode) -> (r: i64)
    ensures
        r as int == spec_local_score(n@),
        -(SCORE_CAP as int) <= r as int <= SCORE_CAP as int,
{
    let w: i64 = match n {
        DomNode::Element { tag, .. } => exec_tag_weight(tag.as_str()),
        _ => 0,
    };
    let children: &Vec<DomNode> = match n {
        DomNode::Document { children } => children,
        DomNode::Element { children, .. } => children,
        _ => {
            return w;
        },
    };
    proof {
        lemma_views_of(children@, 0);
    }
    let ghost vs = views_of(children@, 0);
    let mut acc: i64 = w;
    let mut k: usize = 0;
    while k < children.len()
        invariant
            0 <= k <= children@.len(),
            vs == views_of(children@, 0),
            kids(n@) == vs,
            vs.len() == children@.len(),
            forall|t: int|
                0 <= t < children@.len() ==> #[trigger] vs[t] == node_view(children@[t]),
            -(SCORE_CAP as int) <= acc as int <= SCORE_CAP as int,
            spec_child_sum(vs, k as int, acc as int) == spec_child_sum(vs, 0, w as int),
        decreases children@.len() - k,
    {
        if eligible(&children[k]) {
            let c = calc_score(&children[k]);
            acc = clamp_add(acc, c);
        }
        k = k + 1;
    }
    let ghost mid = acc as int;
    let mut g: usize = 0;
    while g < children.len()
        invariant
            0 <= g <= children@.len(),
            vs == views_of(children@, 0),
            kids(n@) == vs,
            vs.len() == children@.len(),
            forall|t: int|
                0 <= t < children@.len() ==> #[trigger] vs[t] == node_view(children@[t]),
            -(SCORE_CAP as int) <= acc as int <= SCORE_CAP as int,
            spec_grand_sum(vs, g as int, acc as int) == spec_grand_sum(vs, 0, mid),
            mid == spec_child_sum(vs, 0, w as int),
        decreases children@.len() - g,
    {
        let grandkids: &Vec<DomNode> = match &children[g] {
            DomNode::Document { children } => children,
            DomNode::Element { children, .. } => children,
            _ => {
                g = g + 1;
                continue ;
            },
        };
        proof {
            lemma_views_of(grandkids@, 0);
        }
        let ghost gvs = views_of(grandkids@, 0);
        let ghost acc_in = acc as int;
        let mut j: usize = 0;
        while j < grandkids.len()
            invariant
                0 <= j <= grandkids@.len(),
                gvs == views_of(grandkids@, 0),
                gvs.len() == grandkids@.len(),
                forall|t: int|
                    0 <= t < grandkids@.len() ==> #[trigger] gvs[t] == node_view(grandkids@[t]),
                -(SCORE_CAP as int) <= acc as int <= SCORE_CAP as int,
                spec_grand_one(gvs, j as int, acc as int) == spec_grand_one(gvs, 0, acc_in),
            decreases grandkids@.len() - j,
        {
            if eligible(&grandkids[j]) {
                let c = calc_score(&grandkids[j]);
                acc = clamp_add(acc, c / 2);
            }
            j = j + 1;
        }
        proof {
            assert(kids(vs[g as int]) == gvs);
            assert(spec_grand_one(gvs, 0, acc_in) == acc as int);
            assert(spec_grand_sum(vs, g as int, acc_in) == spec_grand_sum(vs, g + 1, acc as int));
        }
        g = g + 1;
    }
    acc
}

/// A scored container: the node's path (child indices from the root) and its
/// raw article-likelihood score.
pub struct Candidate {
    pub path: Vec<usize>,
    pub score: i64,
}

/// The model of a candidate list.
pub open spec fn cand_views(v: Seq<Candidate>) -> Seq<(Seq<usize>, int)> {
    v.map_values(|c: Candidate| (c.path@, c.score as int))
}

/// The candidate entries of the subtree rooted at `t` (whose path is `path`),
/// in document pre-order: one entry per candidate node, keyed by its path,
/// carrying its raw score. Paths are unique by construction.
pub open spec fn spec_candidates(t: TreeV, path: Seq<usize>) -> Seq<(Seq<usize>, int)>
    decreases t, 1int,
{
    let head: Seq<(Seq<usize>, int)> = if spec_is_candidate(t) {
        seq![(path, spec_local_score(t))]
    } else {
        Seq::empty()
    };
    match t {
        TreeV::Document { children } => head + spec_cands_seq(children, 0, path),
        TreeV::Element { children, .. } => head + spec_cands_seq(children, 0, path),
        _ => head,
    }
}

pub open spec fn spec_cands_seq(s: Seq<TreeV>, i: int, path: Seq<usize>) -> Seq<
    (Seq<usize>, int),
>
    decreases s, s.len() - i,
{
    if i < 0 || i >= s.len() {
        Seq::empty()
    } else {
        spec_candidates(s[i], path.push(i as usize)) + spec_cands_seq(s, i + 1, path)
    }
}

fn clone_path(path: &Vec<usize>) -> (r: Vec<usize>)
    ensures
        r@ == path@,
{
    let mut out: Vec<usize> = Vec::new();
    let mut j: usize = 0;
    while j < path.len()
        invariant
            out@.len() == j,
            0 <= j <= path@.len(),
            forall|k: int| 0 <= k < j ==> out@[k] == path@[k],
        decreases path@.len() - j,
    {
        out.push(path[j]);
        j = j + 1;
    }
    proof {
        assert(out@ =~= path@);
    }
    out
}

/// Appends the candidate entries of the subtree at `n` (standing at `path`)
/// to `out`; see [`spec_candidates`].
pub fn find_candidates(n: &DomNode, path: &mut Vec<usize>, out: &mut Vec<Candidate>)
    ensures
        cand_views(final(out)@) == cand_views(old(out)@) + spec_candidates(n@, old(path)@),
        final(path)@ == old(path)@,
    decreases n, 1int,
{
    let ghost pre = out@;
    if is_candidate_node(n) {
        let s = local_score(n);
        out.push(Candidate { path: clone_path(path), score: s });
        proof {
            assert(cand_views(out@) =~= cand_views(pre) + seq![(path@, s as int)]);
        }
    }
    match n {
        DomNode::Document { children } => cands_seq(children, 0, path, out),
        DomNode::Element { children, .. } => cands_seq(children, 0, path, out),
        _ => {},
    }
    proof {
        assert(cand_views(out@) =~= cand_views(pre) + spec_candidates(n@, path@));
    }
}

fn cands_seq(children: &Vec<DomNode>, i: usize, path: &mut Vec<usize>, out: &mut Vec<Candidate>)
    ensures
        cand_views(final(out)@) == cand_views(old(out)@) + spec_cands_seq(
            views_of(children@, 0),
            i as int,
            old(path)@,
        ),
        final(path)@ == old(path)@,
    decreases children, children@.len() - i,
{
    proof {
        lemma_views_of(children@, 0);
    }
    if i >= children.len() {
        proof {
            assert(cand_views(out@) =~= cand_views(out@) + Seq::<(Seq<usize>, int)>::empty());
        }
    } else {
        proof {
            assert(views_of(children@, 0)[i as int] == node_view(children@[i as int]));
        }
        let ghost pre_path = path@;
        path.push(i);
        find_candidates(&children[i], path, out);
        let _ = path.pop();
        proof {
            assert(path@ =~= pre_path);
        }
        cands_seq(children, i + 1, path, out);
        proof {
            assert(cand_views(out@) =~= cand_views(old(out)@) + spec_cands_seq(
                views_of(children@, 0),
                i as int,
                old(path)@,
            ));
        }
    }
}

/// The node standing at `path` (read from position `k` on), if the path is
/// valid: each step selects the indexed child.
pub open spec fn spec_node_at(t: TreeV, path: Seq<usize>, k: int) -> Option<TreeV>
    decreases path.len() - k,
{
    if k < 0 || k >= path.len() {
        Some(t)
    } else if (path[k] as int) < kids(t).len() {
        spec_node_at(kids(t)[path[k] as int], path, k + 1)
    } else {
        None
    }
}

/// See [`spec_node_at`].
pub fn node_at<'a>(n: &'a DomNode, path: &Vec<usize>, k: usize) -> (r: Option<&'a DomNode>)
    ensures
        match r {
            Some(m) => spec_node_at(n@, path@, k as int) == Some(m@),
            None => spec_node_at(n@, path@, k as int) is None,
        },
    decreases path@.len() - k,
{
    if k >= path.len() {
        Some(n)
    } else {
        let children: &Vec<DomNode> = match n {
            DomNode::Document { children } => children,
            DomNode::Element { children, .. } => children,
            _ => {
                return None;
            },
        };
        proof {
            lemma_views_of(children@, 0);
        }
        let step = path[k];
        if step < children.len() {
            proof {
                assert(views_of(children@, 0)[step as int] == node_view(children@[step as int]));
            }
            node_at(&children[step], path, k + 1)
        } else {
            None
        }
    }
}

/// The link-density-adjusted score: a positive raw score is scaled by the
/// share of the subtree's text that lies outside anchors; a non-positive raw
/// score, or an empty subtree, is kept as it is.
pub open spec fn spec_adjusted(raw: int, tl: nat, ll: nat) -> int {
    if raw <= 0 {
        raw
    } else if tl == 0 {
        raw
    } else if ll >= tl {
        0
    } else {
        raw * ((tl - ll) as int) / (tl as int)
    }
}

/// See [`spec_adjusted`].
pub fn adjusted_score(raw: i64, tl: usize, ll: usize) -> (r: i64)
    requires
        -(SCORE_CAP as int) <= raw <= SCORE_CAP as int,
    ensures
        r as int == spec_adjusted(raw as int, tl as nat, ll as nat),
        -(SCORE_CAP as int) <= r as int <= SCORE_CAP as int,
{
    if raw <= 0 {
        raw
    } else if tl == 0 {
        raw
    } else if ll >= tl {
        0
    } else {
        proof {
            assert((raw as int) * ((tl - ll) as int) >= 0 && (raw as int) * ((tl - ll) as int)
                <= (raw as int) * (tl as int)) by (nonlinear_arith)
                requires
                    0 < raw,
                    0 < tl - ll <= tl,
            ;
            assert((raw as int) * (tl as int) <= (SCORE_CAP as int) * (usize::MAX as int))
                by (nonlinear_arith)
                requires
                    0 < raw <= SCORE_CAP as int,
                    0 < tl <= usize::MAX as int,
            ;
        }
        let num: u128 = (raw as u128) * ((tl - ll) as u128);
        let den: u128 = tl as u128;
        let q = num / den;
        proof {
            assert((raw as int) * ((tl - ll) as int) <= (tl as int) * (raw as int))
                by (nonlinear_arith)
                requires
                    0 < raw,
                    0 <= tl - ll <= tl,
            ;
            vstd::arithmetic::div_mod::lemma_div_is_ordered(
                num as int,
                (tl as int) * (raw as int),
                tl as int,
            );
            vstd::arithmetic::div_mod::lemma_div_multiples_vanish(raw as int, tl as int);
            vstd::arithmetic::div_mod::lemma_div_is_ordered(0, num as int, tl as int);
        }
        q as i64
    }
}

/// The selection fold: walks the candidate list in order keeping the first
/// entry whose adjusted score strictly exceeds the best so far, starting from
/// the document root with score zero.
pub open spec fn spec_select_from(
    t: TreeV,
    cs: Seq<(Seq<usize>, int)>,
    i: int,
    bp: Seq<usize>,
    ba: int,
) -> (Seq<usize>, int)
    decreases cs.len() - i,
{
    if i < 0 || i >= cs.len() {
        (bp, ba)
    } else {
        match spec_node_at(t, cs[i].0, 0) {
            Some(nd) => {
                let adj = spec_adjusted(
                    clamp_score(cs[i].1),
                    spec_text_len(nd),
                    spec_link_text_len(nd),
                );
                if adj > ba {
                    spec_select_from(t, cs, i + 1, cs[i].0, adj)
                } else {
                    spec_select_from(t, cs, i + 1, bp, ba)
                }
            },
            None => spec_select_from(t, cs, i + 1, bp, ba),
        }
    }
}

/// The path of the top candidate: the document root (the empty path) unless
/// some candidate's adjusted score strictly exceeds zero and every earlier
/// winner.
pub open spec fn spec_select(t: TreeV, cs: Seq<(Seq<usize>, int)>) -> Seq<usize> {
    spec_select_from(t, cs, 0, Seq::empty(), 0).0
}

/// See [`spec_select`]; the returned path always addresses a node.
pub fn select_top(n: &DomNode, cands: &Vec<Candidate>) -> (r: Vec<usize>)
    ensures
        r@ == spec_select(n@, cand_views(cands@)),
        spec_node_at(n@, r@, 0) is Some,
{
    let ghost cvs = cand_views(cands@);
    let mut bp: Vec<usize> = Vec::new();
    let mut ba: i64 = 0;
    proof {
        assert(bp@ =~= Seq::<usize>::empty());
    }
    let mut i: usize = 0;
    while i < cands.len()
        invariant
            0 <= i <= cands@.len(),
            cvs == cand_views(cands@),
            cvs.len() == cands@.len(),
            -(SCORE_CAP as int) <= ba as int <= SCORE_CAP as int,
            spec_node_at(n@, bp@, 0) is Some,
            spec_select_from(n@, cvs, i as int, bp@, ba as int) == spec_select_from(
                n@,
                cvs,
                0,
                Seq::<usize>::empty(),
                0,
            ),
        decreases cands@.len() - i,
    {
        proof {
            assert(cvs[i as int] == (cands@[i as int].path@, cands@[i as int].score as int));
        }
        let raw0 = cands[i].score;
        let raw = if raw0 > SCORE_CAP {
            SCORE_CAP
        } else if raw0 < -SCORE_CAP {
            -SCORE_CAP
        } else {
            raw0
        };
        match node_at(n, &cands[i].path, 0) {
            Some(nd) => {
                let tl = text_len(nd);
                let ll = link_text_len(nd);
                let adj = adjusted_score(raw, tl, ll);
                if adj > ba {
                    bp = clone_path(&cands[i].path);
                    ba = adj;
                }
            },
            None => {},
        }
        i = i + 1;
    }
    bp
}

/// The tags the preprocessor strips before scoring, so that they never
/// contribute to text or link measurements.
pub open spec fn strip_tag(t: Seq<char>) -> bool {
    t == "script"@ || t == "style"@ || t == "link"@
}

fn is_strip_tag(tag: &str) -> (r: bool)
    ensures
        r == strip_tag(tag@),
{
    str_eq(tag, "script") || str_eq(tag, "style") || str_eq(tag, "link")
}

/// The tree with script, style and link elements pruned.
pub open spec fn spec_preprocess(t: TreeV) -> TreeV
    decreases t, 1int,
{
    match t {
        TreeV::Document { children } => TreeV::Document {
            children: spec_preprocess_seq(children, 0),
        },
        TreeV::Element { tag, attrs, children } => TreeV::Element {
            tag,
            attrs,
            children: spec_preprocess_seq(children, 0),
        },
        _ => t,
    }
}

pub open spec fn spec_preprocess_seq(s: Seq<TreeV>, i: int) -> Seq<TreeV>
    decreases s, s.len() - i,
{
    if i < 0 || i >= s.len() {
        Seq::empty()
    } else {
        (match s[i] {
            TreeV::Element { tag, .. } => if strip_tag(tag) {
                Seq::empty()
            } else {
                seq![spec_preprocess(s[i])]
            },
            _ => seq![s[i]],
        }) + spec_preprocess_seq(s, i + 1)
    }
}

/// See [`spec_preprocess`].
pub fn preprocess(n: &DomNode) -> (r: DomNode)
    ensures
        r@ == spec_preprocess(n@),
    decreases n, 1int,
{
    match n {
        DomNode::Document { children } => DomNode::Document { children: preprocess_seq(children) },
        DomNode::Element { tag, attrs, children } => DomNode::Element {
            tag: tag.clone(),
            attrs: clone_attrs(attrs),
            children: preprocess_seq(children),
        },
        _ => n.clone(),
    }
}

fn preprocess_seq(children: &Vec<DomNode>) -> (r: Vec<DomNode>)
    ensures
        views_of(r@, 0) == spec_preprocess_seq(views_of(children@, 0), 0),
    decreases children, 0int,
{
    proof {
        lemma_views_of(children@, 0);
    }
    let ghost vs = views_of(children@, 0);
    let mut out: Vec<DomNode> = Vec::new();
    proof {
        assert(views_of(out@, 0) + spec_preprocess_seq(vs, 0) =~= spec_preprocess_seq(vs, 0));
    }
    let mut j: usize = 0;
    while j < children.len()
        invariant
            0 <= j <= children@.len(),
            vs == views_of(children@, 0),
            vs.len() == children@.len(),
            forall|t: int|
                0 <= t < children@.len() ==> #[trigger] vs[t] == node_view(children@[t]),
            views_of(out@, 0) + spec_preprocess_seq(vs, j as int) == spec_preprocess_seq(vs, 0),
        decreases children@.len() - j,
    {
        let ghost pre = out@;
        let keep: bool = match &children[j] {
            DomNode::Element { tag, .. } => !is_strip_tag(tag.as_str()),
            _ => true,
        };
        if keep {
            let c: DomNode = match &children[j] {
                DomNode::Element { .. } => preprocess(&children[j]),
                _ => children[j].clone(),
            };
            out.push(c);
            proof {
                lemma_views_of(pre, 0);
                lemma_views_of(out@, 0);
                assert forall|k: int| 0 <= k < views_of(out@, 0).len() implies views_of(out@, 0)[k]
                    == (views_of(pre, 0) + seq![c@])[k] by {
                    if k < pre.len() {
                        assert(out@[k] == pre[k]);
                    } else {
                        assert(out@[k] == c);
                    }
                }
                assert(views_of(out@, 0) =~= views_of(pre, 0) + seq![c@]);
                assert(spec_preprocess_seq(vs, j as int) == seq![c@] + spec_preprocess_seq(
                    vs,
                    j + 1,
                ));
                assert(views_of(out@, 0) + spec_preprocess_seq(vs, j + 1) =~= spec_preprocess_seq(
                    vs,
                    0,
                ));
            }
        } else {
            proof {
                assert(spec_preprocess_seq(vs, j as int) =~= Seq::<TreeV>::empty()
                    + spec_preprocess_seq(vs, j + 1));
                assert(views_of(out@, 0) + spec_preprocess_seq(vs, j + 1) =~= spec_preprocess_seq(
                    vs,
                    0,
                ));
            }
        }
        j = j + 1;
    }
    out
}

/// The first title element of the tree, in document pre-order.
pub open spec fn spec_find_title(t: TreeV) -> Option<TreeV>
    decreases t, 1int,
{
    match t {
        TreeV::Document { children } => spec_find_title_seq(children, 0),
        TreeV::Element { tag, children, .. } => if tag == "title"@ {
            Some(t)
        } else {
            spec_find_title_seq(children, 0)
        },
        _ => None,
    }
}

pub open spec fn spec_find_title_seq(s: Seq<TreeV>, i: int) -> Option<TreeV>
    decreases s, s.len() - i,
{
    if i < 0 || i >= s.len() {
        None
    } else {
        match spec_find_title(s[i]) {
            Some(x) => Some(x),
            None => spec_find_title_seq(s, i + 1),
        }
    }
}

fn find_title<'a>(n: &'a DomNode) -> (r: Option<&'a DomNode>)
    ensures
        match r {
            Some(m) => spec_find_title(n@) == Some(m@),
            None => spec_find_title(n@) is None,
        },
    decreases n, 1int,
{
    match n {
        DomNode::Document { children } => find_title_seq(children, 0),
        DomNode::Element { tag, children, .. } => {
            if str_eq(tag.as_str(), "title") {
                Some(n)
            } else {
                find_title_seq(children, 0)
            }
        },
        _ => None,
    }
}

fn find_title_seq<'a>(children: &'a Vec<DomNode>, i: usize) -> (r: Option<&'a DomNode>)
    ensures
        match r {
            Some(m) => spec_find_title_seq(views_of(children@, 0), i as int) == Some(m@),
            None => spec_find_title_seq(views_of(children@, 0), i as int) is None,
        },
    decreases children, children@.len() - i,
{
    proof {
        lemma_views_of(children@, 0);
    }
    if i >= children.len() {
        None
    } else {
        proof {
            assert(views_of(children@, 0)[i as int] == node_view(children@[i as int]));
        }
        match find_title(&children[i]) {
            Some(m) => Some(m),
            None => find_title_seq(children, i + 1),
        }
    }
}

/// The document title: the trimmed deep text of the first title element, or
/// the empty string when the document has none.
pub open spec fn spec_title(t: TreeV) -> Seq<char> {
    match spec_find_title(t) {
        Some(ti) => spec_trim(spec_extract_text(ti, true)),
        None => Seq::empty(),
    }
}

/// See [`spec_title`].
pub fn get_title(n: &DomNode) -> (r: String)
    ensures
        r@ == spec_title(n@),
{
    match find_title(n) {
        Some(ti) => {
            let mut s = String::new();
            extract_text(ti, &mut s, true);
            proof {
                assert(Seq::<char>::empty() + spec_extract_text(ti@, true) =~= spec_extract_text(
                    ti@,
                    true,
                ));
            }
            trim_str(s.as_str())
        },
        None => String::new(),
    }
}

/// The noise tags the cleaner removes outright from the winning subtree.
pub open spec fn strip_elem_tag(t: Seq<char>) -> bool {
    t == "script"@ || t == "style"@ || t == "link"@ || t == "noscript"@ || t == "meta"@ || t
        == "iframe"@ || t == "object"@ || t == "embed"@ || t == "form"@ || t == "button"@ || t
        == "input"@ || t == "textarea"@ || t == "select"@ || t == "nav"@ || t == "aside"@ || t
        == "header"@ || t == "footer"@
}

fn is_strip_elem(tag: &str) -> (r: bool)
    ensures
        r == strip_elem_tag(tag@),
{
    str_eq(tag, "script") || str_eq(tag, "style") || str_eq(tag, "link") || str_eq(tag, "noscript")
        || str_eq(tag, "meta") || str_eq(tag, "iframe") || str_eq(tag, "object") || str_eq(
        tag,
        "embed",
    ) || str_eq(tag, "form") || str_eq(tag, "button") || str_eq(tag, "input") || str_eq(
        tag,
        "textarea",
    ) || str_eq(tag, "select") || str_eq(tag, "nav") || str_eq(tag, "aside") || str_eq(
        tag,
        "header",
    ) || str_eq(tag, "footer")
}

/// The attributes the cleaner keeps.
pub open spec fn allowed_attr(a: Seq<char>) -> bool {
    a == "href"@ || a == "src"@ || a == "alt"@ || a == "title"@
}

fn is_allowed_attr(a: &str) -> (r: bool)
    ensures
        r == allowed_attr(a@),
{
    str_eq(a, "href") || str_eq(a, "src") || str_eq(a, "alt") || str_eq(a, "title")
}

/// The attribute list restricted to the allow list, order kept.
pub open spec fn spec_filter_attrs(attrs: Seq<(Seq<char>, Seq<char>)>, i: int) -> Seq<
    (Seq<char>, Seq<char>),
>
    decreases attrs.len() - i,
{
    if i < 0 || i >= attrs.len() {
        Seq::empty()
    } else {
        (if allowed_attr(attrs[i].0) {
            seq![attrs[i]]
        } else {
            Seq::empty()
        }) + spec_filter_attrs(attrs, i + 1)
    }
}

fn filter_attrs(attrs: &Vec<(String, String)>) -> (r: Vec<(String, String)>)
    ensures
        attr_views(r@) == spec_filter_attrs(attr_views(attrs@), 0),
{
    let ghost avs = attr_views(attrs@);
    let mut out: Vec<(String, String)> = Vec::new();
    proof {
        assert(attr_views(out@) + spec_filter_attrs(avs, 0) =~= spec_filter_attrs(avs, 0));
    }
    let mut j: usize = 0;
    while j < attrs.len()
        invariant
            0 <= j <= attrs@.len(),
            avs == attr_views(attrs@),
            avs.len() == attrs@.len(),
            attr_views(out@) + spec_filter_attrs(avs, j as int) == spec_filter_attrs(avs, 0),
        decreases attrs@.len() - j,
    {
        let ghost pre = out@;
        let p = &attrs[j];
        if is_allowed_attr(p.0.as_str()) {
            out.push((p.0.clone(), p.1.clone()));
            proof {
                assert(attr_views(out@) =~= attr_views(pre) + seq![avs[j as int]]);
                assert(spec_filter_attrs(avs, j as int) == seq![avs[j as int]]
                    + spec_filter_attrs(avs, j + 1));
                assert(attr_views(out@) + spec_filter_attrs(avs, j + 1) =~= spec_filter_attrs(
                    avs,
                    0,
                ));
            }
        } else {
            proof {
                assert(spec_filter_attrs(avs, j as int) =~= Seq::<(Seq<char>, Seq<char>)>::empty()
                    + spec_filter_attrs(avs, j + 1));
                assert(attr_views(out@) + spec_filter_attrs(avs, j + 1) =~= spec_filter_attrs(
                    avs,
                    0,
                ));
            }
        }
        j = j + 1;
    }
    out
}

/// Whether `p` is a prefix of `v`.
pub open spec fn has_prefix(v: Seq<char>, p: Seq<char>) -> bool {
    v.len() >= p.len() && v.subrange(0, p.len() as int) == p
}

fn starts_with_str(v: &str, p: &str) -> (r: bool)
    ensures
        r == has_prefix(v@, p@),
{
    let nv = v.unicode_len();
    let np = p.unicode_len();
    if nv < np {
        return false;
    }
    let mut k: usize = 0;
    while k < np
        invariant
            nv == v@.len(),
            np == p@.len(),
            np <= nv,
            0 <= k <= np,
            forall|t: int| 0 <= t < k ==> v@[t] == p@[t],
        decreases np - k,
    {
        if v.get_char(k) != p.get_char(k) {
            proof {
                assert(v@.subrange(0, np as int)[k as int] != p@[k as int]);
            }
            return false;
        }
        k = k + 1;
    }
    proof {
        assert(v@.subrange(0, np as int) =~= p@);
    }
    true
}

/// A link value the cleaner leaves alone: absolute with a web scheme, or
/// scheme-relative.
pub open spec fn settled_url(v: Seq<char>) -> bool {
    has_prefix(v, "http://"@) || has_prefix(v, "https://"@) || has_prefix(v, "//"@)
}

fn is_settled_url(v: &str) -> (r: bool)
    ensures
        r == settled_url(v@),
{
    starts_with_str(v, "http://") || starts_with_str(v, "https://") || starts_with_str(v, "//")
}

/// The largest resolved link the cleaner stores, in characters: a character
/// takes at most four bytes, so such a value always fits the serializer's
/// 32-bit buffers.
pub const RESOLVED_URL_CAP: usize = 0x3fff_ffff;

/// The resolved form of a link value: a settled value stays; any other is
/// resolved against the base, and stays as it is when resolution fails or
/// the resolved form is too long for the serializer.
pub open spec fn spec_resolve_value(v: Seq<char>, base: Seq<char>) -> Seq<char> {
    if settled_url(v) {
        v
    } else {
        match joined(base, v) {
            Some(a) => if a.len() <= RESOLVED_URL_CAP {
                a
            } else {
                v
            },
            None => v,
        }
    }
}

/// The attribute list with the first attribute named `name` resolved against
/// the base, from position `i` on.
pub open spec fn spec_fix_attr(
    attrs: Seq<(Seq<char>, Seq<char>)>,
    name: Seq<char>,
    base: Seq<char>,
    i: int,
) -> Seq<(Seq<char>, Seq<char>)>
    decreases attrs.len() - i,
{
    if i < 0 || i >= attrs.len() {
        attrs
    } else if attrs[i].0 == name {
        attrs.update(i, (attrs[i].0, spec_resolve_value(attrs[i].1, base)))
    } else {
        spec_fix_attr(attrs, name, base, i + 1)
    }
}

fn fix_attr(attrs: &mut Vec<(String, String)>, name: &str, base: &str, i: usize)
    ensures
        attr_views(final(attrs)@) == spec_fix_attr(
            attr_views(old(attrs)@),
            name@,
            base@,
            i as int,
        ),
    decreases old(attrs)@.len() - i,
{
    if i >= attrs.len() {
    } else {
        let matched = str_eq(attrs[i].0.as_str(), name);
        if matched {
            let newv: Option<String> = if is_settled_url(attrs[i].1.as_str()) {
                None
            } else {
                match resolve_url(base, attrs[i].1.as_str()) {
                    Some(a) => {
                        if a.as_str().unicode_len() <= RESOLVED_URL_CAP {
                            Some(a)
                        } else {
                            None
                        }
                    },
                    None => None,
                }
            };
            let ghost pre = attrs@;
            match newv {
                Some(a) => {
                    let old_pair = attrs.remove(i);
                    attrs.insert(i, (old_pair.0, a));
                    proof {
                        assert(attr_views(attrs@) =~= attr_views(pre).update(
                            i as int,
                            (attr_views(pre)[i as int].0, spec_resolve_value(
                                attr_views(pre)[i as int].1,
                                base@,
                            )),
                        ));
                    }
                },
                None => {
                    proof {
                        assert(attr_views(attrs@) =~= attr_views(pre).update(
                            i as int,
                            (attr_views(pre)[i as int].0, spec_resolve_value(
                                attr_views(pre)[i as int].1,
                                base@,
                            )),
                        ));
                    }
                },
            }
        } else {
            fix_attr(attrs, name, base, i + 1);
        }
    }
}

/// The cleaned attribute list of an element: filtered to the allow list, with
/// the link attribute of anchors and images resolved against the base.
pub open spec fn spec_fix_urls(
    tag: Seq<char>,
    attrs: Seq<(Seq<char>, Seq<char>)>,
    base: Seq<char>,
) -> Seq<(Seq<char>, Seq<char>)> {
    if tag == "a"@ {
        spec_fix_attr(attrs, "href"@, base, 0)
    } else if tag == "img"@ {
        spec_fix_attr(attrs, "src"@, base, 0)
    } else {
        attrs
    }
}

/// The cleaned form of a node inside the winning subtree: noise elements
/// vanish, attributes are filtered and link attributes resolved, children are
/// cleaned in order, and an element empty after cleaning vanishes.
pub open spec fn spec_clean(t: TreeV, base: Seq<char>) -> Option<TreeV>
    decreases t, 1int,
{
    match t {
        TreeV::Document { children } => Some(
            TreeV::Document { children: spec_clean_seq(children, 0, base) },
        ),
        TreeV::Element { tag, attrs, children } => {
            if strip_elem_tag(tag) {
                None
            } else {
                let c = TreeV::Element {
                    tag,
                    attrs: spec_fix_urls(tag, spec_filter_attrs(attrs, 0), base),
                    children: spec_clean_seq(children, 0, base),
                };
                if spec_is_empty(c) {
                    None
                } else {
                    Some(c)
                }
            }
        },
        _ => Some(t),
    }
}

pub open spec fn spec_clean_seq(s: Seq<TreeV>, i: int, base: Seq<char>) -> Seq<TreeV>
    decreases s, s.len() - i,
{
    if i < 0 || i >= s.len() {
        Seq::empty()
    } else {
        (match spec_clean(s[i], base) {
            Some(c) => seq![c],
            None => Seq::empty(),
        }) + spec_clean_seq(s, i + 1, base)
    }
}

/// See [`spec_clean`].
pub fn clean_node(n: &DomNode, base: &str) -> (r: Option<DomNode>)
    ensures
        match r {
            Some(c) => spec_clean(n@, base@) == Some(c@),
            None => spec_clean(n@, base@) is None,
        },
    decreases n, 1int,
{
    match n {
        DomNode::Document { children } => Some(
            DomNode::Document { children: clean_seq(children, base) },
        ),
        DomNode::Element { tag, attrs, children } => {
            if is_strip_elem(tag.as_str()) {
                None
            } else {
                let mut new_attrs = filter_attrs(attrs);
                if str_eq(tag.as_str(), "a") {
                    fix_attr(&mut new_attrs, "href", base, 0);
                } else if str_eq(tag.as_str(), "img") {
                    fix_attr(&mut new_attrs, "src", base, 0);
                }
                let new_children = clean_seq(children, base);
                let c = DomNode::Element {
                    tag: tag.clone(),
                    attrs: new_attrs,
                    children: new_children,
                };
                if is_empty(&c) {
                    None
                } else {
                    Some(c)
                }
            }
        },
        _ => Some(n.clone()),
    }
}

fn clean_seq(children: &Vec<DomNode>, base: &str) -> (r: Vec<DomNode>)
    ensures
        views_of(r@, 0) == spec_clean_seq(views_of(children@, 0), 0, base@),
    decreases children, 0int,
{
    proof {
        lemma_views_of(children@, 0);
    }
    let ghost vs = views_of(children@, 0);
    let mut out: Vec<DomNode> = Vec::new();
    proof {
        assert(views_of(out@, 0) + spec_clean_seq(vs, 0, base@) =~= spec_clean_seq(vs, 0, base@));
    }
    let mut j: usize = 0;
    while j < children.len()
        invariant
            0 <= j <= children@.len(),
            vs == views_of(children@, 0),
            vs.len() == children@.len(),
            forall|t: int|
                0 <= t < children@.len() ==> #[trigger] vs[t] == node_view(children@[t]),
            views_of(out@, 0) + spec_clean_seq(vs, j as int, base@) == spec_clean_seq(
                vs,
                0,
                base@,
            ),
        decreases children@.len() - j,
    {
        let ghost pre = out@;
        match clean_node(&children[j], base) {
            Some(c) => {
                out.push(c);
                proof {
                    lemma_views_of(pre, 0);
                    lemma_views_of(out@, 0);
                    assert forall|k: int| 0 <= k < views_of(out@, 0).len() implies views_of(
                        out@,
                        0,
                    )[k] == (views_of(pre, 0) + seq![c@])[k] by {
                        if k < pre.len() {
                            assert(out@[k] == pre[k]);
                        } else {
                            assert(out@[k] == c);
                        }
                    }
                    assert(views_of(out@, 0) =~= views_of(pre, 0) + seq![c@]);
                    assert(spec_clean_seq(vs, j as int, base@) == seq![c@] + spec_clean_seq(
                        vs,
                        j + 1,
                        base@,
                    ));
                    assert(views_of(out@, 0) + spec_clean_seq(vs, j + 1, base@)
                        =~= spec_clean_seq(vs, 0, base@));
                }
            },
            None => {
                proof {
                    assert(spec_clean_seq(vs, j as int, base@) =~= Seq::<TreeV>::empty()
                        + spec_clean_seq(vs, j + 1, base@));
                    assert(views_of(out@, 0) + spec_clean_seq(vs, j + 1, base@)
                        =~= spec_clean_seq(vs, 0, base@));
                }
            },
        }
        j = j + 1;
    }
    out
}

/// The cleaned winning subtree: as [`spec_clean`], except that the root node
/// itself is kept even when empty or noise-tagged.
pub open spec fn spec_clean_root(t: TreeV, base: Seq<char>) -> TreeV {
    match t {
        TreeV::Document { children } => TreeV::Document {
            children: spec_clean_seq(children, 0, base),
        },
        TreeV::Element { tag, attrs, children } => TreeV::Element {
            tag,
            attrs: spec_fix_urls(tag, spec_filter_attrs(attrs, 0), base),
            children: spec_clean_seq(children, 0, base),
        },
        _ => t,
    }
}

/// See [`spec_clean_root`].
pub fn clean_root(n: &DomNode, base: &str) -> (r: DomNode)
    ensures
        r@ == spec_clean_root(n@, base@),
{
    match n {
        DomNode::Document { children } => DomNode::Document { children: clean_seq(children, base) },
        DomNode::Element { tag, attrs, children } => {
            let mut new_attrs = filter_attrs(attrs);
            if str_eq(tag.as_str(), "a") {
                fix_attr(&mut new_attrs, "href", base, 0);
            } else if str_eq(tag.as_str(), "img") {
                fix_attr(&mut new_attrs, "src", base, 0);
            }
            DomNode::Element {
                tag: tag.clone(),
                attrs: new_attrs,
                children: clean_seq(children, base),
            }
        },
        _ => n.clone(),
    }
}

/// An element whose tag is not structural — an image, say — is never empty,
/// and the cleaner keeps every such element whose tag is not in the strip
/// set: a leaf like `<img>` cannot vanish however little text it holds.
pub proof fn lemma_non_structural_kept(t: TreeV, base: Seq<char>)
    requires
        match t {
            TreeV::Element { tag, .. } => !crate::dom::structural_tag(tag) && !strip_elem_tag(tag),
            _ => false,
        },
    ensures
        !spec_is_empty(t),
        spec_clean(t, base) is Some,
{
}

/// The link-density penalty: of two candidates with the same positive raw
/// score, one with any of its subtree text inside anchors and one with no
/// anchor text at all, the selector returns the anchor-free one.
pub proof fn lemma_link_density_penalty(t: TreeV, dense: Seq<usize>, free: Seq<usize>, raw: int)
    requires
        0 < raw <= SCORE_CAP as int,
        match spec_node_at(t, dense, 0) {
            Some(nd) => spec_text_len(nd) > 0 && spec_link_text_len(nd) > 0,
            None => false,
        },
        match spec_node_at(t, free, 0) {
            Some(nf) => spec_link_text_len(nf) == 0,
            None => false,
        },
    ensures
        spec_select(t, seq![(dense, raw), (free, raw)]) == free,
{
    let cs = seq![(dense, raw), (free, raw)];
    let nd = spec_node_at(t, dense, 0).unwrap();
    let nf = spec_node_at(t, free, 0).unwrap();
    assert(cs[0] == (dense, raw));
    assert(cs[1] == (free, raw));
    assert(clamp_score(raw) == raw);
    let tld = spec_text_len(nd);
    let lld = spec_link_text_len(nd);
    let adj_d = spec_adjusted(raw, tld, lld);
    if lld < tld {
        assert(raw * ((tld - lld) as int) < raw * (tld as int)) by (nonlinear_arith)
            requires
                0 < raw,
                0 <= tld - lld < tld,
        ;
        assert(raw * (tld as int) == raw * (tld as int) * 1int) by (nonlinear_arith);
        vstd::arithmetic::div_mod::lemma_div_by_multiple_is_strongly_ordered(
            raw * ((tld - lld) as int),
            raw * (tld as int),
            raw,
            tld as int,
        );
        assert(raw * (tld as int) == (tld as int) * raw) by (nonlinear_arith);
        vstd::arithmetic::div_mod::lemma_div_multiples_vanish(raw, tld as int);
        assert(adj_d < raw);
    } else {
        assert(adj_d == 0);
    }
    assert(adj_d < raw);
    let tlf = spec_text_len(nf);
    if tlf == 0 {
        assert(spec_adjusted(raw, tlf, 0) == raw);
    } else {
        assert(raw * (tlf as int) == (tlf as int) * raw) by (nonlinear_arith);
        vstd::arithmetic::div_mod::lemma_div_multiples_vanish(raw, tlf as int);
        assert(spec_adjusted(raw, tlf, 0) == raw);
    }
    if adj_d > 0 {
        assert(spec_select_from(t, cs, 2, free, raw) == (free, raw));
        assert(spec_select_from(t, cs, 1, dense, adj_d) == spec_select_from(t, cs, 2, free, raw));
        assert(spec_select_from(t, cs, 0, Seq::<usize>::empty(), 0) == spec_select_from(
            t,
            cs,
            1,
            dense,
            adj_d,
        ));
    } else {
        assert(spec_select_from(t, cs, 2, free, raw) == (free, raw));
        assert(spec_select_from(t, cs, 1, Seq::<usize>::empty(), 0) == spec_select_from(
            t,
            cs,
            2,
            free,
            raw,
        ));
        assert(spec_select_from(t, cs, 0, Seq::<usize>::empty(), 0) == spec_select_from(
            t,
            cs,
            1,
            Seq::<usize>::empty(),
            0,
        ));
    }
}

/// The resolver maps every value it returns to itself: resolving an already
/// resolved link against the same base gives it back unchanged. This is what
/// [`crate::bindings::resolve_url`] states of each value it hands back, and
/// what the URL library's normalization guarantees.
pub open spec fn join_fp(base: Seq<char>) -> bool {
    forall|v: Seq<char>, s: Seq<char>|
        #![trigger joined(base, v), joined(base, s)]
        joined(base, v) == Some(s) ==> joined(base, s) == Some(s)
}

proof fn lemma_resolve_fixed(v: Seq<char>, base: Seq<char>)
    requires
        join_fp(base),
    ensures
        spec_resolve_value(spec_resolve_value(v, base), base) == spec_resolve_value(v, base),
{
    let w = spec_resolve_value(v, base);
    if !settled_url(w) && !settled_url(v) {
        match joined(base, v) {
            Some(a) => {
                assert(joined(base, a) == Some(a));
            },
            None => {
                assert(joined(base, w) == joined(base, v));
            },
        }
    }
}

proof fn lemma_filter_allowed(attrs: Seq<(Seq<char>, Seq<char>)>, i: int)
    ensures
        forall|k: int|
            0 <= k < spec_filter_attrs(attrs, i).len() ==> allowed_attr(
                #[trigger] spec_filter_attrs(attrs, i)[k].0,
            ),
    decreases attrs.len() - i,
{
    if 0 <= i < attrs.len() {
        lemma_filter_allowed(attrs, i + 1);
        let u = spec_filter_attrs(attrs, i + 1);
        assert forall|k: int| 0 <= k < spec_filter_attrs(attrs, i).len() implies allowed_attr(
            spec_filter_attrs(attrs, i)[k].0,
        ) by {
            if allowed_attr(attrs[i].0) {
                if k == 0 {
                    assert(spec_filter_attrs(attrs, i)[0] == attrs[i]);
                } else {
                    assert(spec_filter_attrs(attrs, i)[k] == u[k - 1]);
                }
            } else {
                assert(spec_filter_attrs(attrs, i)[k] == (Seq::<(Seq<char>, Seq<char>)>::empty()
                    + u)[k]);
            }
        }
    }
}

proof fn lemma_filter_identity(attrs: Seq<(Seq<char>, Seq<char>)>, i: int)
    requires
        0 <= i <= attrs.len(),
        forall|k: int| i <= k < attrs.len() ==> allowed_attr(#[trigger] attrs[k].0),
    ensures
        spec_filter_attrs(attrs, i) == attrs.subrange(i, attrs.len() as int),
    decreases attrs.len() - i,
{
    if i < attrs.len() {
        lemma_filter_identity(attrs, i + 1);
        assert(seq![attrs[i]] + attrs.subrange(i + 1, attrs.len() as int) =~= attrs.subrange(
            i,
            attrs.len() as int,
        ));
    } else {
        assert(spec_filter_attrs(attrs, i) =~= attrs.subrange(i, attrs.len() as int));
    }
}

proof fn lemma_fix_shape(attrs: Seq<(Seq<char>, Seq<char>)>, name: Seq<char>, base: Seq<char>, i: int)
    ensures
        spec_fix_attr(attrs, name, base, i).len() == attrs.len(),
        forall|k: int|
            0 <= k < attrs.len() ==> (#[trigger] spec_fix_attr(attrs, name, base, i)[k]).0
                == attrs[k].0,
        forall|k: int|
            0 <= k < i && k < attrs.len() ==> #[trigger] spec_fix_attr(attrs, name, base, i)[k]
                == attrs[k],
    decreases attrs.len() - i,
{
    if 0 <= i < attrs.len() {
        if attrs[i].0 == name {
        } else {
            lemma_fix_shape(attrs, name, base, i + 1);
        }
    }
}

proof fn lemma_fix_fix(attrs: Seq<(Seq<char>, Seq<char>)>, name: Seq<char>, base: Seq<char>, i: int)
    requires
        join_fp(base),
        0 <= i,
    ensures
        spec_fix_attr(spec_fix_attr(attrs, name, base, i), name, base, i) == spec_fix_attr(
            attrs,
            name,
            base,
            i,
        ),
    decreases attrs.len() - i,
{
    let f1 = spec_fix_attr(attrs, name, base, i);
    if i >= attrs.len() {
    } else if attrs[i].0 == name {
        let rv = spec_resolve_value(attrs[i].1, base);
        lemma_resolve_fixed(attrs[i].1, base);
        assert(f1[i as int] == (attrs[i].0, rv));
        assert(spec_fix_attr(f1, name, base, i) == f1.update(i, (f1[i as int].0, rv)));
        assert(f1.update(i, (f1[i as int].0, rv)) =~= f1);
    } else {
        lemma_fix_fix(attrs, name, base, i + 1);
        lemma_fix_shape(attrs, name, base, i + 1);
        assert(f1[i as int] == attrs[i as int]);
    }
}

proof fn lemma_clean_seq_fixed(u: Seq<TreeV>, j: int, base: Seq<char>)
    requires
        0 <= j <= u.len(),
        forall|k: int| j <= k < u.len() ==> spec_clean(#[trigger] u[k], base) == Some(u[k]),
    ensures
        spec_clean_seq(u, j, base) == u.subrange(j, u.len() as int),
    decreases u.len() - j,
{
    if j < u.len() {
        lemma_clean_seq_fixed(u, j + 1, base);
        assert(seq![u[j]] + u.subrange(j + 1, u.len() as int) =~= u.subrange(j, u.len() as int));
    } else {
        assert(spec_clean_seq(u, j, base) =~= u.subrange(j, u.len() as int));
    }
}

proof fn lemma_clean_idem_seq(s: Seq<TreeV>, i: int, base: Seq<char>)
    requires
        join_fp(base),
    ensures
        forall|k: int|
            0 <= k < spec_clean_seq(s, i, base).len() ==> spec_clean(
                #[trigger] spec_clean_seq(s, i, base)[k],
                base,
            ) == Some(spec_clean_seq(s, i, base)[k]),
    decreases s, s.len() - i,
{
    if 0 <= i < s.len() {
        lemma_clean_idempotent(s[i], base);
        lemma_clean_idem_seq(s, i + 1, base);
        let head: Seq<TreeV> = match spec_clean(s[i], base) {
            Some(c) => seq![c],
            None => Seq::empty(),
        };
        let rest = spec_clean_seq(s, i + 1, base);
        assert forall|k: int| 0 <= k < spec_clean_seq(s, i, base).len() implies spec_clean(
            spec_clean_seq(s, i, base)[k],
            base,
        ) == Some(spec_clean_seq(s, i, base)[k]) by {
            if k < head.len() {
                assert(spec_clean_seq(s, i, base)[k] == head[0]);
            } else {
                assert(spec_clean_seq(s, i, base)[k] == rest[k - head.len()]);
            }
        }
    }
}

/// Idempotent cleaning: a second cleaning pass strips no attribute, rewrites
/// no link and removes no node — it returns its input unchanged. The one
/// premise is the resolver's fixed-point law `join_fp`, which
/// [`crate::bindings::resolve_url`] states of every value it returns.
pub proof fn lemma_clean_idempotent(t: TreeV, base: Seq<char>)
    requires
        join_fp(base),
    ensures
        match spec_clean(t, base) {
            Some(c) => spec_clean(c, base) == Some(c),
            None => true,
        },
    decreases t, 1int,
{
    match t {
        TreeV::Document { children } => {
            let cc = spec_clean_seq(children, 0, base);
            lemma_clean_idem_seq(children, 0, base);
            lemma_clean_seq_fixed(cc, 0, base);
            assert(cc.subrange(0, cc.len() as int) =~= cc);
        },
        TreeV::Element { tag, attrs, children } => {
            if !strip_elem_tag(tag) {
                let fa = spec_filter_attrs(attrs, 0);
                lemma_filter_allowed(attrs, 0);
                let fixed = spec_fix_urls(tag, fa, base);
                if tag == "a"@ {
                    lemma_fix_shape(fa, "href"@, base, 0);
                    lemma_fix_fix(fa, "href"@, base, 0);
                } else if tag == "img"@ {
                    lemma_fix_shape(fa, "src"@, base, 0);
                    lemma_fix_fix(fa, "src"@, base, 0);
                }
                assert(fixed.len() == fa.len());
                assert forall|k: int| 0 <= k < fixed.len() implies allowed_attr(
                    #[trigger] fixed[k].0,
                ) by {
                    assert(fixed[k].0 == fa[k].0);
                    assert(allowed_attr(fa[k].0));
                }
                lemma_filter_identity(fixed, 0);
                assert(fixed.subrange(0, fixed.len() as int) =~= fixed);
                assert(spec_filter_attrs(fixed, 0) == fixed);
                assert(spec_fix_urls(tag, fixed, base) == fixed);
                let cc = spec_clean_seq(children, 0, base);
                lemma_clean_idem_seq(children, 0, base);
                lemma_clean_seq_fixed(cc, 0, base);
                assert(cc.subrange(0, cc.len() as int) =~= cc);
                let c = TreeV::Element { tag, attrs: fixed, children: cc };
                if !spec_is_empty(c) {
                    assert(spec_clean(t, base) == Some(c));
                    assert(spec_clean(c, base) == Some(c));
                }
            }
        },
        _ => {},
    }
}

/// Pruning preserves the absence of document nodes.
proof fn lemma_preprocess_doc_free(t: TreeV)
    requires
        doc_free(t),
    ensures
        doc_free(spec_preprocess(t)),
    decreases t, 1int,
{
    match t {
        TreeV::Element { children, .. } => lemma_preprocess_seq_doc_free(children, 0),
        _ => {},
    }
}

proof fn lemma_preprocess_seq_doc_free(s: Seq<TreeV>, i: int)
    requires
        0 <= i,
        doc_free_seq(s, i),
    ensures
        doc_free_seq(spec_preprocess_seq(s, i), 0),
    decreases s, s.len() - i,
{
    if 0 <= i < s.len() {
        lemma_preprocess_seq_doc_free(s, i + 1);
        let rest = spec_preprocess_seq(s, i + 1);
        let head: Seq<TreeV> = match s[i] {
            TreeV::Element { tag, .. } => if strip_tag(tag) {
                Seq::empty()
            } else {
                seq![spec_preprocess(s[i])]
            },
            _ => seq![s[i]],
        };
        match s[i] {
            TreeV::Element { .. } => lemma_preprocess_doc_free(s[i]),
            _ => {},
        }
        if head.len() > 0 {
            assert(doc_free(head[0]));
            assert(doc_free_seq(head, 1));
        }
        assert(doc_free_seq(head, 0));
        lemma_doc_free_seq_concat(head, rest, 0);
        assert(spec_preprocess_seq(s, i) == head + rest);
    }
}

/// The preprocessed tree keeps document nodes away from everywhere below the
/// root, as the parsed tree has them.
pub proof fn lemma_preprocess_no_doc(t: TreeV)
    requires
        no_doc_below(t),
    ensures
        no_doc_below(spec_preprocess(t)),
{
    match t {
        TreeV::Document { children } => lemma_preprocess_seq_doc_free(children, 0),
        TreeV::Element { children, .. } => lemma_preprocess_seq_doc_free(children, 0),
        _ => {},
    }
}

proof fn lemma_clean_doc_free(t: TreeV, base: Seq<char>)
    requires
        doc_free(t),
    ensures
        match spec_clean(t, base) {
            Some(c) => doc_free(c),
            None => true,
        },
    decreases t, 1int,
{
    match t {
        TreeV::Element { tag, children, .. } => {
            if !strip_elem_tag(tag) {
                lemma_clean_seq_doc_free(children, 0, base);
            }
        },
        _ => {},
    }
}

proof fn lemma_clean_seq_doc_free(s: Seq<TreeV>, i: int, base: Seq<char>)
    requires
        0 <= i,
        doc_free_seq(s, i),
    ensures
        doc_free_seq(spec_clean_seq(s, i, base), 0),
    decreases s, s.len() - i,
{
    if 0 <= i < s.len() {
        lemma_clean_seq_doc_free(s, i + 1, base);
        lemma_clean_doc_free(s[i], base);
        let rest = spec_clean_seq(s, i + 1, base);
        let head: Seq<TreeV> = match spec_clean(s[i], base) {
            Some(c) => seq![c],
            None => Seq::empty(),
        };
        if head.len() > 0 {
            assert(doc_free(head[0]));
            assert(doc_free_seq(head, 1));
        }
        assert(doc_free_seq(head, 0));
        lemma_doc_free_seq_concat(head, rest, 0);
        assert(spec_clean_seq(s, i, base) == head + rest);
    }
}

/// Cleaning the winning subtree keeps document nodes away from everywhere
/// below its root.
pub proof fn lemma_clean_root_no_doc(t: TreeV, base: Seq<char>)
    requires
        no_doc_below(t),
    ensures
        no_doc_below(spec_clean_root(t, base)),
{
    match t {
        TreeV::Document { children } => lemma_clean_seq_doc_free(children, 0, base),
        TreeV::Element { children, .. } => lemma_clean_seq_doc_free(children, 0, base),
        _ => {},
    }
}

/// A node addressed by a path into a tree with no document nodes below the
/// root itself has no document nodes below it.
pub proof fn lemma_node_at_no_doc(t: TreeV, path: Seq<usize>, k: int)
    requires
        no_doc_below(t),
        0 <= k,
    ensures
        match spec_node_at(t, path, k) {
            Some(m) => no_doc_below(m),
            None => true,
        },
    decreases path.len() - k,
{
    if k < path.len() {
        if (path[k] as int) < kids(t).len() {
            let child = kids(t)[path[k] as int];
            lemma_doc_free_seq_index(kids(t), 0, path[k] as int);
            lemma_doc_free_below(child);
            lemma_node_at_no_doc(child, path, k + 1);
        }
    }
}

/// Every child list of the tree fits the machine word, as every tree built
/// from a real document does.
pub open spec fn sized_tree(t: TreeV) -> bool
    decreases t, 1int,
{
    match t {
        TreeV::Document { children } => children.len() <= usize::MAX && sized_seq(children, 0),
        TreeV::Element { children, .. } => children.len() <= usize::MAX && sized_seq(children, 0),
        _ => true,
    }
}

pub open spec fn sized_seq(s: Seq<TreeV>, i: int) -> bool
    decreases s, s.len() - i,
{
    if i < 0 || i >= s.len() {
        true
    } else {
        sized_tree(s[i]) && sized_seq(s, i + 1)
    }
}

proof fn lemma_cands_seq_shape(s: Seq<TreeV>, i: int, path: Seq<usize>)
    requires
        0 <= i,
        s.len() <= usize::MAX,
        sized_seq(s, i),
    ensures
        forall|k: int|
            0 <= k < spec_cands_seq(s, i, path).len() ==> {
                let q = (#[trigger] spec_cands_seq(s, i, path)[k]).0;
                q.len() > path.len() && q.subrange(0, path.len() as int) == path && i <= q[path.len() as int]
            },
        forall|a: int, b: int|
            0 <= a < b < spec_cands_seq(s, i, path).len() ==> (#[trigger] spec_cands_seq(
                s,
                i,
                path,
            )[a]).0 != (#[trigger] spec_cands_seq(s, i, path)[b]).0,
    decreases s, s.len() - i,
{
    if 0 <= i < s.len() {
        let child_path = path.push(i as usize);
        lemma_cands_shape(s[i], child_path);
        lemma_cands_seq_shape(s, i + 1, path);
        let ca = spec_candidates(s[i], child_path);
        let cb = spec_cands_seq(s, i + 1, path);
        assert(spec_cands_seq(s, i, path) == ca + cb);
        assert forall|k: int| 0 <= k < spec_cands_seq(s, i, path).len() implies {
            let q = (#[trigger] spec_cands_seq(s, i, path)[k]).0;
            q.len() > path.len() && q.subrange(0, path.len() as int) == path && i <= q[path.len() as int]
        } by {
            if k < ca.len() {
                let q = ca[k].0;
                assert(spec_cands_seq(s, i, path)[k] == ca[k]);
                assert(q.len() >= child_path.len() && q.subrange(0, child_path.len() as int)
                    == child_path);
                assert(q.subrange(0, path.len() as int) =~= path);
                assert(q[path.len() as int] == q.subrange(0, child_path.len() as int)[path.len() as int]);
            } else {
                assert(spec_cands_seq(s, i, path)[k] == cb[k - ca.len()]);
            }
        }
        assert forall|a: int, b: int|
            0 <= a < b < spec_cands_seq(s, i, path).len() implies (spec_cands_seq(s, i, path)[a]).0
            != (spec_cands_seq(s, i, path)[b]).0 by {
            if b < ca.len() {
                assert(spec_cands_seq(s, i, path)[a] == ca[a]);
                assert(spec_cands_seq(s, i, path)[b] == ca[b]);
            } else if a >= ca.len() {
                assert(spec_cands_seq(s, i, path)[a] == cb[a - ca.len()]);
                assert(spec_cands_seq(s, i, path)[b] == cb[b - ca.len()]);
            } else {
                let qa = ca[a].0;
                let qb = cb[b - ca.len()].0;
                assert(spec_cands_seq(s, i, path)[a] == ca[a]);
                assert(spec_cands_seq(s, i, path)[b] == cb[b - ca.len()]);
                assert(qa.len() >= child_path.len() && qa.subrange(0, child_path.len() as int)
                    == child_path);
                assert(qa[path.len() as int] == qa.subrange(0, child_path.len() as int)[path.len() as int]);
                assert(qa[path.len() as int] == i);
                assert(qb[path.len() as int] >= i + 1);
            }
        }
    }
}

proof fn lemma_cands_shape(t: TreeV, path: Seq<usize>)
    requires
        sized_tree(t),
    ensures
        forall|k: int|
            0 <= k < spec_candidates(t, path).len() ==> {
                let q = (#[trigger] spec_candidates(t, path)[k]).0;
                q.len() >= path.len() && q.subrange(0, path.len() as int) == path
            },
        forall|a: int, b: int|
            0 <= a < b < spec_candidates(t, path).len() ==> (#[trigger] spec_candidates(
                t,
                path,
            )[a]).0 != (#[trigger] spec_candidates(t, path)[b]).0,
    decreases t, 1int,
{
    let head: Seq<(Seq<usize>, int)> = if spec_is_candidate(t) {
        seq![(path, spec_local_score(t))]
    } else {
        Seq::empty()
    };
    let rest: Seq<(Seq<usize>, int)> = match t {
        TreeV::Document { children } => spec_cands_seq(children, 0, path),
        TreeV::Element { children, .. } => spec_cands_seq(children, 0, path),
        _ => Seq::empty(),
    };
    match t {
        TreeV::Document { children } => lemma_cands_seq_shape(children, 0, path),
        TreeV::Element { children, .. } => lemma_cands_seq_shape(children, 0, path),
        _ => {},
    }
    assert(spec_candidates(t, path) =~= head + rest);
    assert(path.subrange(0, path.len() as int) =~= path);
    assert forall|k: int| 0 <= k < spec_candidates(t, path).len() implies {
        let q = (#[trigger] spec_candidates(t, path)[k]).0;
        q.len() >= path.len() && q.subrange(0, path.len() as int) == path
    } by {
        if k < head.len() {
            assert(spec_candidates(t, path)[k] == head[0]);
        } else {
            assert(spec_candidates(t, path)[k] == rest[k - head.len()]);
        }
    }
    assert forall|a: int, b: int|
        0 <= a < b < spec_candidates(t, path).len() implies (spec_candidates(t, path)[a]).0 != (
    spec_candidates(t, path)[b]).0 by {
        if a < head.len() {
            assert(spec_candidates(t, path)[a] == head[0]);
            assert(spec_candidates(t, path)[b] == rest[b - head.len()]);
            assert(rest[b - head.len()].0.len() > path.len());
        } else {
            assert(spec_candidates(t, path)[a] == rest[a - head.len()]);
            assert(spec_candidates(t, path)[b] == rest[b - head.len()]);
        }
    }
}

/// Every entry in the candidate list carries a unique path key: two distinct
/// entries never address the same node. Holds of every sized tree, and every
/// tree built from a real document is sized.
pub proof fn lemma_candidate_paths_unique(t: TreeV, path: Seq<usize>)
    requires
        sized_tree(t),
    ensures
        forall|a: int, b: int|
            0 <= a < b < spec_candidates(t, path).len() ==> (#[trigger] spec_candidates(
                t,
                path,
            )[a]).0 != (#[trigger] spec_candidates(t, path)[b]).0,
{
    lemma_cands_shape(t, path);
}

/// The adjusted score the selection fold settles on.
pub open spec fn spec_select_score(t: TreeV, cs: Seq<(Seq<usize>, int)>) -> int {
    spec_select_from(t, cs, 0, Seq::empty(), 0).1
}

proof fn lemma_select_from_max(
    t: TreeV,
    cs: Seq<(Seq<usize>, int)>,
    i: int,
    bp: Seq<usize>,
    ba: int,
)
    requires
        0 <= i,
    ensures
        spec_select_from(t, cs, i, bp, ba).1 >= ba,
        forall|k: int|
            i <= k < cs.len() ==> match spec_node_at(t, (#[trigger] cs[k]).0, 0) {
                Some(nd) => spec_select_from(t, cs, i, bp, ba).1 >= spec_adjusted(
                    clamp_score(cs[k].1),
                    spec_text_len(nd),
                    spec_link_text_len(nd),
                ),
                None => true,
            },
    decreases cs.len() - i,
{
    if i < cs.len() {
        match spec_node_at(t, cs[i].0, 0) {
            Some(nd) => {
                let adj = spec_adjusted(
                    clamp_score(cs[i].1),
                    spec_text_len(nd),
                    spec_link_text_len(nd),
                );
                if adj > ba {
                    lemma_select_from_max(t, cs, i + 1, cs[i].0, adj);
                } else {
                    lemma_select_from_max(t, cs, i + 1, bp, ba);
                }
            },
            None => {
                lemma_select_from_max(t, cs, i + 1, bp, ba);
            },
        }
    }
}

/// The selector is sound: the adjusted score it settles on is never negative
/// (the document root's default) and is at least the adjusted score of every
/// candidate whose path addresses a node.
pub proof fn lemma_select_max(t: TreeV, cs: Seq<(Seq<usize>, int)>)
    ensures
        spec_select_score(t, cs) >= 0,
        forall|k: int|
            0 <= k < cs.len() ==> match spec_node_at(t, (#[trigger] cs[k]).0, 0) {
                Some(nd) => spec_select_score(t, cs) >= spec_adjusted(
                    clamp_score(cs[k].1),
                    spec_text_len(nd),
                    spec_link_text_len(nd),
                ),
                None => true,
            },
{
    lemma_select_from_max(t, cs, 0, Seq::empty(), 0);
}

proof fn lemma_filter_bounded(attrs: Seq<(Seq<char>, Seq<char>)>, i: int)
    requires
        bounded_attr_vals(attrs),
    ensures
        bounded_attr_vals(spec_filter_attrs(attrs, i)),
    decreases attrs.len() - i,
{
    if 0 <= i < attrs.len() {
        lemma_filter_bounded(attrs, i + 1);
        let u = spec_filter_attrs(attrs, i + 1);
        assert forall|k: int| 0 <= k < spec_filter_attrs(attrs, i).len() implies utf8_len(
            (#[trigger] spec_filter_attrs(attrs, i)[k]).1,
            0,
        ) <= u32::MAX by {
            if allowed_attr(attrs[i].0) {
                if k == 0 {
                    assert(spec_filter_attrs(attrs, i)[0] == attrs[i]);
                } else {
                    assert(spec_filter_attrs(attrs, i)[k] == u[k - 1]);
                }
            } else {
                assert(spec_filter_attrs(attrs, i)[k] == (Seq::<(Seq<char>, Seq<char>)>::empty()
                    + u)[k]);
            }
        }
    }
}

proof fn lemma_fix_bounded(attrs: Seq<(Seq<char>, Seq<char>)>, name: Seq<char>, base: Seq<char>, i: int)
    requires
        bounded_attr_vals(attrs),
    ensures
        bounded_attr_vals(spec_fix_attr(attrs, name, base, i)),
    decreases attrs.len() - i,
{
    if 0 <= i < attrs.len() {
        if attrs[i].0 == name {
            let rv = spec_resolve_value(attrs[i].1, base);
            assert(utf8_len(rv, 0) <= u32::MAX) by {
                if !settled_url(attrs[i].1) {
                    match joined(base, attrs[i].1) {
                        Some(a) => {
                            if a.len() <= RESOLVED_URL_CAP {
                                lemma_utf8_len_bound(a, 0);
                            }
                        },
                        None => {},
                    }
                }
            }
            let f = spec_fix_attr(attrs, name, base, i);
            assert forall|k: int| 0 <= k < f.len() implies utf8_len((#[trigger] f[k]).1, 0)
                <= u32::MAX by {
                if k != i {
                    assert(f[k] == attrs[k]);
                }
            }
        } else {
            lemma_fix_bounded(attrs, name, base, i + 1);
        }
    }
}

/// Pruning keeps every stored string within the serializer's buffer bound.
pub proof fn lemma_preprocess_short(t: TreeV)
    requires
        short_strs(t),
    ensures
        short_strs(spec_preprocess(t)),
    decreases t, 1int,
{
    match t {
        TreeV::Document { children } => lemma_preprocess_seq_short(children, 0),
        TreeV::Element { children, .. } => lemma_preprocess_seq_short(children, 0),
        _ => {},
    }
}

proof fn lemma_preprocess_seq_short(s: Seq<TreeV>, i: int)
    requires
        0 <= i,
        short_strs_seq(s, i),
    ensures
        short_strs_seq(spec_preprocess_seq(s, i), 0),
    decreases s, s.len() - i,
{
    if 0 <= i < s.len() {
        lemma_preprocess_seq_short(s, i + 1);
        let rest = spec_preprocess_seq(s, i + 1);
        let head: Seq<TreeV> = match s[i] {
            TreeV::Element { tag, .. } => if strip_tag(tag) {
                Seq::empty()
            } else {
                seq![spec_preprocess(s[i])]
            },
            _ => seq![s[i]],
        };
        match s[i] {
            TreeV::Element { .. } => lemma_preprocess_short(s[i]),
            _ => {},
        }
        if head.len() > 0 {
            assert(short_strs(head[0]));
            assert(short_strs_seq(head, 1));
        }
        assert(short_strs_seq(head, 0));
        lemma_short_strs_seq_concat(head, rest, 0);
        assert(spec_preprocess_seq(s, i) == head + rest);
    }
}

proof fn lemma_clean_short(t: TreeV, base: Seq<char>)
    requires
        short_strs(t),
    ensures
        match spec_clean(t, base) {
            Some(c) => short_strs(c),
            None => true,
        },
    decreases t, 1int,
{
    match t {
        TreeV::Document { children } => lemma_clean_seq_short(children, 0, base),
        TreeV::Element { tag, attrs, children } => {
            if !strip_elem_tag(tag) {
                lemma_filter_bounded(attrs, 0);
                if tag == "a"@ {
                    lemma_fix_bounded(spec_filter_attrs(attrs, 0), "href"@, base, 0);
                } else if tag == "img"@ {
                    lemma_fix_bounded(spec_filter_attrs(attrs, 0), "src"@, base, 0);
                }
                lemma_clean_seq_short(children, 0, base);
            }
        },
        _ => {},
    }
}

proof fn lemma_clean_seq_short(s: Seq<TreeV>, i: int, base: Seq<char>)
    requires
        0 <= i,
        short_strs_seq(s, i),
    ensures
        short_strs_seq(spec_clean_seq(s, i, base), 0),
    decreases s, s.len() - i,
{
    if 0 <= i < s.len() {
        lemma_clean_seq_short(s, i + 1, base);
        lemma_clean_short(s[i], base);
        let rest = spec_clean_seq(s, i + 1, base);
        let head: Seq<TreeV> = match spec_clean(s[i], base) {
            Some(c) => seq![c],
            None => Seq::empty(),
        };
        if head.len() > 0 {
            assert(short_strs(head[0]));
            assert(short_strs_seq(head, 1));
        }
        assert(short_strs_seq(head, 0));
        lemma_short_strs_seq_concat(head, rest, 0);
        assert(spec_clean_seq(s, i, base) == head + rest);
    }
}

/// Cleaning the winning subtree keeps every stored string within the
/// serializer's buffer bound.
pub proof fn lemma_clean_root_short(t: TreeV, base: Seq<char>)
    requires
        short_strs(t),
    ensures
        short_strs(spec_clean_root(t, base)),
{
    match t {
        TreeV::Document { children } => lemma_clean_seq_short(children, 0, base),
        TreeV::Element { tag, attrs, children } => {
            lemma_filter_bounded(attrs, 0);
            if tag == "a"@ {
                lemma_fix_bounded(spec_filter_attrs(attrs, 0), "href"@, base, 0);
            } else if tag == "img"@ {
                lemma_fix_bounded(spec_filter_attrs(attrs, 0), "src"@, base, 0);
            }
            lemma_clean_seq_short(children, 0, base);
        },
        _ => {},
    }
}

/// A node addressed by a path into a tree whose strings are bounded itself
/// has bounded strings.
pub proof fn lemma_node_at_short(t: TreeV, path: Seq<usize>, k: int)
    requires
        short_strs(t),
        0 <= k,
    ensures
        match spec_node_at(t, path, k) {
            Some(m) => short_strs(m),
            None => true,
        },
    decreases path.len() - k,
{
    if k < path.len() {
        if (path[k] as int) < kids(t).len() {
            let child = kids(t)[path[k] as int];
            lemma_short_strs_seq_index(kids(t), 0, path[k] as int);
            lemma_node_at_short(child, path, k + 1);
        }
    }
}

proof fn lemma_attr_from_cons(
    x: (Seq<char>, Seq<char>),
    u: Seq<(Seq<char>, Seq<char>)>,
    name: Seq<char>,
    j: int,
)
    requires
        0 <= j <= u.len(),
    ensures
        spec_attr_from(seq![x] + u, name, j + 1) == spec_attr_from(u, name, j),
    decreases u.len() - j,
{
    if j < u.len() {
        assert((seq![x] + u)[j + 1] == u[j]);
        lemma_attr_from_cons(x, u, name, j + 1);
    }
}

proof fn lemma_attr_filter(attrs: Seq<(Seq<char>, Seq<char>)>, name: Seq<char>, i: int)
    requires
        allowed_attr(name),
    ensures
        spec_attr_from(spec_filter_attrs(attrs, i), name, 0) == spec_attr_from(attrs, name, i),
    decreases attrs.len() - i,
{
    if i < 0 || i >= attrs.len() {
    } else {
        lemma_attr_filter(attrs, name, i + 1);
        let u = spec_filter_attrs(attrs, i + 1);
        if allowed_attr(attrs[i].0) {
            assert((seq![attrs[i]] + u)[0] == attrs[i]);
            if attrs[i].0 == name {
            } else {
                lemma_attr_from_cons(attrs[i], u, name, 0);
            }
        } else {
            assert(Seq::<(Seq<char>, Seq<char>)>::empty() + u =~= u);
        }
    }
}

proof fn lemma_fix_attr_first(
    attrs: Seq<(Seq<char>, Seq<char>)>,
    name: Seq<char>,
    base: Seq<char>,
    i: int,
)
    requires
        0 <= i,
    ensures
        spec_attr_from(spec_fix_attr(attrs, name, base, i), name, i) == (
        match spec_attr_from(attrs, name, i) {
            Some(v) => Some(spec_resolve_value(v, base)),
            None => None,
        }),
    decreases attrs.len() - i,
{
    let f = spec_fix_attr(attrs, name, base, i);
    if i >= attrs.len() {
    } else if attrs[i].0 == name {
        assert(f[i as int] == (attrs[i as int].0, spec_resolve_value(attrs[i as int].1, base)));
    } else {
        lemma_fix_attr_first(attrs, name, base, i + 1);
        lemma_fix_shape(attrs, name, base, i + 1);
        assert(f[i as int] == attrs[i as int]);
    }
}

proof fn lemma_link_tag_facts()
    ensures
        !strip_elem_tag("a"@),
        !structural_tag("a"@),
        !strip_elem_tag("img"@),
        !structural_tag("img"@),
        "a"@ != "img"@,
{
    reveal_strlit("a");
    reveal_strlit("img");
    reveal_strlit("script");
    reveal_strlit("style");
    reveal_strlit("link");
    reveal_strlit("noscript");
    reveal_strlit("meta");
    reveal_strlit("iframe");
    reveal_strlit("object");
    reveal_strlit("embed");
    reveal_strlit("form");
    reveal_strlit("button");
    reveal_strlit("input");
    reveal_strlit("textarea");
    reveal_strlit("select");
    reveal_strlit("nav");
    reveal_strlit("aside");
    reveal_strlit("header");
    reveal_strlit("footer");
    reveal_strlit("li");
    reveal_strlit("dt");
    reveal_strlit("dd");
    reveal_strlit("p");
    reveal_strlit("div");
    reveal_strlit("canvas");
    assert("a"@.len() == 1);
    assert("img"@.len() == 3);
    assert("script"@.len() == 6);
    assert("style"@.len() == 5);
    assert("link"@.len() == 4);
    assert("noscript"@.len() == 8);
    assert("meta"@.len() == 4);
    assert("iframe"@.len() == 6);
    assert("object"@.len() == 6);
    assert("embed"@.len() == 5);
    assert("form"@.len() == 4);
    assert("button"@.len() == 6);
    assert("input"@.len() == 5);
    assert("textarea"@.len() == 8);
    assert("select"@.len() == 6);
    assert("nav"@.len() == 3);
    assert("aside"@.len() == 5);
    assert("header"@.len() == 6);
    assert("footer"@.len() == 6);
    assert("li"@.len() == 2);
    assert("dt"@.len() == 2);
    assert("dd"@.len() == 2);
    assert("p"@.len() == 1);
    assert("div"@.len() == 3);
    assert("canvas"@.len() == 6);
    assert("a"@[0] == 'a');
    assert("p"@[0] == 'p');
    assert("img"@[0] == 'i');
    assert("nav"@[0] == 'n');
    assert("div"@[0] == 'd');
}

/// Relative link resolution: the cleaner never removes an anchor; the cleaned
/// anchor keeps its tag and its cleaned children in order — its text
/// untouched — and its first `href` becomes the resolver's result on the old
/// value, an unresolvable value staying as it was.
pub proof fn lemma_anchor_href_resolved(t: TreeV, base: Seq<char>)
    requires
        match t {
            TreeV::Element { tag, .. } => tag == "a"@,
            _ => false,
        },
    ensures
        spec_clean(t, base) is Some,
        match (t, spec_clean(t, base)) {
            (
                TreeV::Element { tag, attrs, children },
                Some(TreeV::Element { tag: tag2, attrs: attrs2, children: children2 }),
            ) => tag2 == tag && children2 == spec_clean_seq(children, 0, base) && spec_attr(
                attrs2,
                "href"@,
            ) == (match spec_attr(attrs, "href"@) {
                Some(v) => Some(spec_resolve_value(v, base)),
                None => None,
            }),
            _ => false,
        },
{
    lemma_link_tag_facts();
    match t {
        TreeV::Element { tag, attrs, children } => {
            let fa = spec_filter_attrs(attrs, 0);
            lemma_attr_filter(attrs, "href"@, 0);
            lemma_fix_attr_first(fa, "href"@, base, 0);
            let c = TreeV::Element {
                tag,
                attrs: spec_fix_urls(tag, fa, base),
                children: spec_clean_seq(children, 0, base),
            };
            assert(!spec_is_empty(c));
        },
        _ => {},
    }
}

/// Relative image resolution: the cleaner never removes an image, textless or
/// not; the cleaned image keeps its tag and cleaned children, and its first
/// `src` becomes the resolver's result on the old value, an unresolvable
/// value staying as it was.
pub proof fn lemma_img_src_resolved(t: TreeV, base: Seq<char>)
    requires
        match t {
            TreeV::Element { tag, .. } => tag == "img"@,
            _ => false,
        },
    ensures
        spec_clean(t, base) is Some,
        match (t, spec_clean(t, base)) {
            (
                TreeV::Element { tag, attrs, children },
                Some(TreeV::Element { tag: tag2, attrs: attrs2, children: children2 }),
            ) => tag2 == tag && children2 == spec_clean_seq(children, 0, base) && spec_attr(
                attrs2,
                "src"@,
            ) == (match spec_attr(attrs, "src"@) {
                Some(v) => Some(spec_resolve_value(v, base)),
                None => None,
            }),
            _ => false,
        },
{
    lemma_link_tag_facts();
    match t {
        TreeV::Element { tag, attrs, children } => {
            let fa = spec_filter_attrs(attrs, 0);
            lemma_attr_filter(attrs, "src"@, 0);
            lemma_fix_attr_first(fa, "src"@, base, 0);
            let c = TreeV::Element {
                tag,
                attrs: spec_fix_urls(tag, fa, base),
                children: spec_clean_seq(children, 0, base),
            };
            assert(!spec_is_empty(c));
        },
        _ => {},
    }
}

/// No element below this node is empty.
pub open spec fn no_empty_below(t: TreeV) -> bool
    decreases t, 1int,
{
    match t {
        TreeV::Document { children } => no_empty_seq(children, 0),
        TreeV::Element { children, .. } => no_empty_seq(children, 0),
        _ => true,
    }
}

pub open spec fn no_empty_seq(s: Seq<TreeV>, i: int) -> bool
    decreases s, s.len() - i,
{
    if i < 0 || i >= s.len() {
        true
    } else {
        !spec_is_empty(s[i]) && no_empty_below(s[i]) && no_empty_seq(s, i + 1)
    }
}

proof fn lemma_no_empty_seq_mono(s: Seq<TreeV>, i: int, j: int)
    requires
        0 <= i <= j,
        no_empty_seq(s, i),
    ensures
        no_empty_seq(s, j),
    decreases j - i,
{
    if i < j {
        lemma_no_empty_seq_mono(s, i + 1, j);
    }
}

proof fn lemma_no_empty_seq_concat(a: Seq<TreeV>, b: Seq<TreeV>, i: int)
    requires
        0 <= i,
        no_empty_seq(a, i),
        no_empty_seq(b, 0),
    ensures
        no_empty_seq(a + b, i),
    decreases a.len() - i,
{
    if i < a.len() {
        assert((a + b)[i] == a[i]);
        lemma_no_empty_seq_concat(a, b, i + 1);
    } else {
        lemma_no_empty_seq_mono(b, 0, i - a.len());
        lemma_no_empty_seq_shift(a, b, i - a.len());
    }
}

proof fn lemma_no_empty_seq_shift(a: Seq<TreeV>, b: Seq<TreeV>, j: int)
    requires
        0 <= j,
        no_empty_seq(b, j),
    ensures
        no_empty_seq(a + b, a.len() + j),
    decreases b.len() - j,
{
    if j < b.len() {
        assert((a + b)[a.len() + j] == b[j]);
        lemma_no_empty_seq_shift(a, b, j + 1);
    }
}

proof fn lemma_clean_no_empty(t: TreeV, base: Seq<char>)
    ensures
        match spec_clean(t, base) {
            Some(c) => !spec_is_empty(c) && no_empty_below(c),
            None => true,
        },
    decreases t, 1int,
{
    match t {
        TreeV::Document { children } => lemma_clean_seq_no_empty(children, 0, base),
        TreeV::Element { tag, children, .. } => {
            if !strip_elem_tag(tag) {
                lemma_clean_seq_no_empty(children, 0, base);
            }
        },
        _ => {},
    }
}

proof fn lemma_clean_seq_no_empty(s: Seq<TreeV>, i: int, base: Seq<char>)
    requires
        0 <= i,
    ensures
        no_empty_seq(spec_clean_seq(s, i, base), 0),
    decreases s, s.len() - i,
{
    if 0 <= i < s.len() {
        lemma_clean_seq_no_empty(s, i + 1, base);
        lemma_clean_no_empty(s[i], base);
        let rest = spec_clean_seq(s, i + 1, base);
        let head: Seq<TreeV> = match spec_clean(s[i], base) {
            Some(c) => seq![c],
            None => Seq::empty(),
        };
        if head.len() > 0 {
            assert(!spec_is_empty(head[0]) && no_empty_below(head[0]));
            assert(no_empty_seq(head, 1));
        }
        assert(no_empty_seq(head, 0));
        lemma_no_empty_seq_concat(head, rest, 0);
        assert(spec_clean_seq(s, i, base) == head + rest);
    }
}

/// Empty-node collapse, stated generally: below the cleaned winning subtree's
/// root no element satisfying the emptiness rule remains — every vacuous
/// wrapper chain is gone — while [`lemma_non_structural_kept`] shows that
/// non-structural leaves such as images never vanish.
pub proof fn lemma_clean_root_no_empty(t: TreeV, base: Seq<char>)
    ensures
        no_empty_below(spec_clean_root(t, base)),
{
    match t {
        TreeV::Document { children } => lemma_clean_seq_no_empty(children, 0, base),
        TreeV::Element { children, .. } => lemma_clean_seq_no_empty(children, 0, base),
        _ => {},
    }
}

} // verus!
