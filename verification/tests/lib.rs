use readability::dom::{
    attr, clean_attr, count_nodes, extract_text, find_node, get_attr, get_tag_name, has_link,
    has_nodes, is_empty, set_attr, text_children_count, text_len, DomNode,
};
use readability::error::Error;
use readability::extractor::extract;
use readability::scorer::{clean_node, clean_root, get_title, link_text_len, preprocess};
use readability::text::{str_eq, trim_str, trimmed_len};

fn elem(tag: &str, attrs: Vec<(&str, &str)>, children: Vec<DomNode>) -> DomNode {
    DomNode::Element {
        tag: tag.to_string(),
        attrs: attrs
            .into_iter()
            .map(|(k, v)| (k.to_string(), v.to_string()))
            .collect(),
        children,
    }
}

fn textn(s: &str) -> DomNode {
    DomNode::Text {
        content: s.to_string(),
    }
}

#[test]
fn test_extract_title() {
    let content = "<!DOCTYPE html><html><head><title>This is title</title></head><body><p>Short text.</p></body></html>";
    let product = extract(content, "https://example.com").unwrap();
    assert_eq!(product.title, "This is title");
}

#[test]
fn test_fix_rel_links() {
    let content = "<!DOCTYPE html><html><head><title>This is title</title></head><body><p><a href=\"/poop\"> poop </a></p></body></html>";
    let product = extract(content, "https://example.com").unwrap();
    assert_eq!(product.content, "<!DOCTYPE html><html><head><title>This is title</title></head><body><p><a href=\"https://example.com/poop\"> poop </a></p></body></html>");
}

#[test]
fn test_fix_img_links() {
    let content = "<!DOCTYPE html><html><head><title>This is title</title></head><body><p><img src=\"/poop.png\"></p></body></html>";
    let product = extract(content, "https://example.com").unwrap();
    assert_eq!(product.content, "<!DOCTYPE html><html><head><title>This is title</title></head><body><p><img src=\"https://example.com/poop.png\"></p></body></html>");
}

#[test]
fn test_title_is_trimmed() {
    let content = "<html><head><title>  This is title \n</title></head><body></body></html>";
    let product = extract(content, "https://example.com").unwrap();
    assert_eq!(product.title, "This is title");
}

#[test]
fn test_bad_url_is_rejected() {
    let r = extract("<html></html>", "not a url");
    assert!(matches!(r, Err(Error::UrlParseError(_))));
}

#[test]
fn test_extract_is_deterministic() {
    let content = "<html><head><title>T</title></head><body><div><p>Some paragraph with a reasonable amount of text in it for scoring.</p></div></body></html>";
    let p1 = extract(content, "https://example.com/a/b").unwrap();
    let p2 = extract(content, "https://example.com/a/b").unwrap();
    assert_eq!(p1, p2);
}

#[test]
fn test_link_density_penalizes_anchor_heavy_candidate() {
    let content = "<!DOCTYPE html><html><head><title>T</title></head><body><div><div><p>Alpha paragraph carrying plenty of readable body text for the scorer.</p></div><div><p><a href=\"/x\">Beta paragraph carrying plenty of readable body text for the scorer.</a></p></div></div></body></html>";
    let product = extract(content, "https://example.com").unwrap();
    assert!(product.content.contains("Alpha paragraph"));
    assert!(!product.content.contains("Beta paragraph"));
}

#[test]
fn test_clean_is_idempotent_on_its_output() {
    let tree = elem(
        "div",
        vec![("style", "x"), ("href", "keep-me")],
        vec![
            elem("p", vec![], vec![textn("Some real content here.")]),
            elem("div", vec![], vec![textn("   ")]),
            elem("script", vec![], vec![textn("var x = 1;")]),
            elem(
                "a",
                vec![("href", "/rel"), ("onclick", "evil()")],
                vec![textn("link")],
            ),
        ],
    );
    let once = clean_node(&tree, "https://example.com").unwrap();
    let twice = clean_node(&once, "https://example.com").unwrap();
    assert_eq!(once, twice);
}

#[test]
fn test_empty_wrapper_chain_collapses() {
    let tree = elem(
        "div",
        vec![],
        vec![elem("p", vec![], vec![]), elem("div", vec![], vec![textn("   ")])],
    );
    assert!(is_empty(&tree));
    assert!(clean_node(&tree, "https://example.com").is_none());
}

#[test]
fn test_img_never_collapses() {
    let img = elem("img", vec![], vec![]);
    assert!(!is_empty(&img));
    let cleaned = clean_node(&img, "https://example.com");
    assert!(cleaned.is_some());
    let p = elem("p", vec![], vec![elem("img", vec![], vec![])]);
    assert!(!is_empty(&p));
}

#[test]
fn test_text_len_trims_each_text_node() {
    let tree = elem(
        "div",
        vec![],
        vec![textn("  ab  "), elem("p", vec![], vec![textn(" cde ")])],
    );
    assert_eq!(text_len(&tree), 5);
}

#[test]
fn test_extract_text_deep_and_shallow() {
    let tree = elem(
        "div",
        vec![],
        vec![textn("a"), elem("p", vec![], vec![textn("b")]), textn("c")],
    );
    let mut deep = String::new();
    extract_text(&tree, &mut deep, true);
    assert_eq!(deep, "abc");
    let mut shallow = String::new();
    extract_text(&tree, &mut shallow, false);
    assert_eq!(shallow, "ac");
}

#[test]
fn test_has_link_sees_nested_anchor() {
    let tree = elem(
        "div",
        vec![],
        vec![elem("p", vec![], vec![elem("a", vec![("href", "x")], vec![])])],
    );
    assert!(has_link(&tree));
    let plain = elem("div", vec![], vec![textn("no links")]);
    assert!(!has_link(&plain));
}

#[test]
fn test_count_and_find_nodes() {
    let tree = elem(
        "div",
        vec![],
        vec![
            elem("p", vec![], vec![elem("p", vec![], vec![])]),
            elem("span", vec![], vec![]),
        ],
    );
    assert_eq!(count_nodes(&tree, "p"), 2);
    assert_eq!(count_nodes(&tree, "span"), 1);
    assert_eq!(count_nodes(&tree, "a"), 0);
    let mut found: Vec<DomNode> = Vec::new();
    find_node(&tree, "p", &mut found);
    assert_eq!(found.len(), 2);
    assert_eq!(get_tag_name(&found[0]).unwrap(), "p");
}

#[test]
fn test_has_nodes_list() {
    let tree = elem("div", vec![], vec![elem("table", vec![], vec![])]);
    let hit: Vec<&str> = vec!["ul", "table"];
    let miss: Vec<&str> = vec!["ul", "ol"];
    assert!(has_nodes(&tree, &hit));
    assert!(!has_nodes(&tree, &miss));
}

#[test]
fn test_attr_first_match_and_mutation() {
    let mut node = elem(
        "a",
        vec![("href", "one"), ("href", "two"), ("alt", "x")],
        vec![],
    );
    assert_eq!(get_attr("href", &node).unwrap(), "one");
    assert_eq!(get_attr("missing", &node), None);
    set_attr("href", "new", &mut node);
    assert_eq!(get_attr("href", &node).unwrap(), "new");
    if let DomNode::Element { attrs, .. } = &mut node {
        assert_eq!(attr("alt", attrs).unwrap(), "x");
        clean_attr("href", attrs);
        assert_eq!(attr("href", attrs).unwrap(), "two");
    } else {
        panic!("expected an element");
    }
}

#[test]
fn test_text_children_count_threshold() {
    let tree = elem(
        "div",
        vec![],
        vec![
            textn("this direct text child is long enough to count"),
            textn("short"),
            elem("p", vec![], vec![textn("nested text does not count even when long enough")]),
        ],
    );
    assert_eq!(text_children_count(&tree), 1);
}

#[test]
fn test_link_text_len_ratio_parts() {
    let tree = elem(
        "div",
        vec![],
        vec![
            elem("a", vec![], vec![textn("linked")]),
            textn("plain text here"),
        ],
    );
    assert_eq!(link_text_len(&tree), 6);
    assert!(text_len(&tree) > link_text_len(&tree));
}

#[test]
fn test_preprocess_strips_scripts_and_keeps_title() {
    let tree = elem(
        "html",
        vec![],
        vec![
            elem("script", vec![], vec![textn("var x;")]),
            elem("title", vec![], vec![textn(" My title ")]),
            elem("style", vec![], vec![textn("p{}")]),
        ],
    );
    let pre = preprocess(&tree);
    assert_eq!(count_nodes(&pre, "script"), 0);
    assert_eq!(count_nodes(&pre, "style"), 0);
    assert_eq!(count_nodes(&pre, "title"), 1);
    assert_eq!(get_title(&pre), "My title");
}

#[test]
fn test_clean_root_keeps_empty_root_and_strips_attrs() {
    let tree = elem("div", vec![("class", "x"), ("alt", "keep")], vec![]);
    let cleaned = clean_root(&tree, "https://example.com");
    assert_eq!(get_attr("class", &cleaned), None);
    assert_eq!(get_attr("alt", &cleaned).unwrap(), "keep");
    assert_eq!(get_tag_name(&cleaned).unwrap(), "div");
}

#[test]
fn test_unresolvable_relative_url_left_untouched() {
    let node = elem("a", vec![("href", "ftp://")], vec![textn("x")]);
    let cleaned = clean_node(&node, "https://example.com").unwrap();
    assert_eq!(get_attr("href", &cleaned).unwrap(), "ftp://");
}

#[test]
fn test_text_helpers() {
    assert_eq!(trim_str("  a b  "), "a b");
    assert_eq!(trim_str("\t\n"), "");
    assert_eq!(trimmed_len("  abc "), 3);
    assert!(str_eq("abc", "abc"));
    assert!(!str_eq("abc", "abd"));
    assert!(!str_eq("abc", "ab"));
}

#[test]
fn test_trim_handles_unicode_whitespace() {
    assert_eq!(trim_str("\u{a0}\u{2003}a\u{2028}\u{3000}"), "a");
    assert_eq!(trimmed_len("\u{1680}x y\u{205f}"), 3);
    let tree = elem("div", vec![], vec![textn("\u{2002}\u{2003}")]);
    assert!(is_empty(&tree));
}

#[test]
fn test_clean_is_idempotent_under_other_scheme() {
    let tree = elem(
        "div",
        vec![],
        vec![elem("a", vec![("href", "/rel")], vec![textn("link")])],
    );
    let once = clean_node(&tree, "ftp://example.com").unwrap();
    let twice = clean_node(&once, "ftp://example.com").unwrap();
    assert_eq!(once, twice);
}
