use paragraphs::dom::{
    fits_parser, parse_tree, render_tree, written_or_error, MAX_MARKUP_CHARS,
};
use paragraphs::segment::SegmentError;
use paragraphs::tree::{
    all_well_formed, has_distinct_keys, is_well_formed, Attr, Data, Node, QName,
};

const HTML_NS: &str = "http://www.w3.org/1999/xhtml";

fn html_name(local: &str) -> QName {
    QName { prefix: None, ns: HTML_NS.to_string(), local: local.to_string() }
}

fn plain(local: &str, value: &str) -> Attr {
    Attr {
        name: QName { prefix: None, ns: String::new(), local: local.to_string() },
        value: value.to_string(),
    }
}

fn element(local: &str, attrs: Vec<Attr>, children: Vec<Node>) -> Node {
    Node { data: Data::Element { name: html_name(local), attrs }, children, template: None }
}

fn text(s: &str) -> Node {
    Node { data: Data::Text { text: s.to_string() }, children: Vec::new(), template: None }
}

fn document(children: Vec<Node>) -> Node {
    Node { data: Data::Document, children, template: None }
}

#[test]
fn a_fragment_is_parsed_below_a_root_element() {
    let tree = parse_tree("<p class=\"a\" id=\"b\">Hi <b>there</b></p><!--note-->");
    let expected = document(vec![element(
        "html",
        Vec::new(),
        vec![
            element(
                "p",
                vec![plain("class", "a"), plain("id", "b")],
                vec![text("Hi "), element("b", Vec::new(), vec![text("there")])],
            ),
            Node { data: Data::Comment { text: "note".to_string() }, children: Vec::new(), template: None },
        ],
    )]);
    assert_eq!(tree, expected);
}

#[test]
fn empty_markup_is_an_empty_root_element() {
    let tree = parse_tree("");
    assert_eq!(tree, document(vec![element("html", Vec::new(), Vec::new())]));
}

#[test]
fn a_repeated_attribute_is_kept_once() {
    let tree = parse_tree("<p id=\"a\" id=\"b\">x</p>");
    let expected = document(vec![element(
        "html",
        Vec::new(),
        vec![element("p", vec![plain("id", "a")], vec![text("x")])],
    )]);
    assert_eq!(tree, expected);
}

#[test]
fn foreign_elements_keep_their_namespace() {
    let tree = parse_tree("<svg><circle r=\"1\"></circle></svg>");
    let svg = "http://www.w3.org/2000/svg";
    let expected = document(vec![element(
        "html",
        Vec::new(),
        vec![Node {
            data: Data::Element {
                name: QName { prefix: None, ns: svg.to_string(), local: "svg".to_string() },
                attrs: Vec::new(),
            },
            children: vec![Node {
                data: Data::Element {
                    name: QName { prefix: None, ns: svg.to_string(), local: "circle".to_string() },
                    attrs: vec![plain("r", "1")],
                },
                children: Vec::new(),
                template: None,
            }],
            template: None,
        }],
    )]);
    assert_eq!(tree, expected);
}

fn template(contents: Vec<Node>) -> Node {
    Node {
        data: Data::Element { name: html_name("template"), attrs: Vec::new() },
        children: Vec::new(),
        template: Some(contents),
    }
}

#[test]
fn template_contents_are_kept_apart_from_children() {
    let tree = parse_tree("<template><p>t</p></template>");
    let inner = vec![element("p", Vec::new(), vec![text("t")])];
    let expected = document(vec![element("html", Vec::new(), vec![template(inner)])]);
    assert_eq!(tree, expected);
    let body = document(vec![template(vec![element("p", Vec::new(), vec![text("t")])])]);
    assert!(is_well_formed(&body));
    assert_eq!(render_tree(&body), Ok("<template><p>t</p></template>".to_string()));
    assert_eq!(render_tree(&document(vec![template(Vec::new())])), Ok("<template></template>".to_string()));
}

#[test]
fn well_formed_trees() {
    assert!(is_well_formed(&parse_tree("<p id=\"a\" class=\"b\">x<template>t</template></p>")));
    assert!(is_well_formed(&document(Vec::new())));
    let twice = element("p", vec![plain("id", "a"), plain("id", "b")], Vec::new());
    assert!(!is_well_formed(&twice));
    assert!(!is_well_formed(&document(vec![text("x"), twice])));
    let other_ns = Attr {
        name: QName { prefix: None, ns: "urn:x".to_string(), local: "id".to_string() },
        value: "b".to_string(),
    };
    assert!(is_well_formed(&element("p", vec![plain("id", "a"), other_ns], Vec::new())));
    assert!(has_distinct_keys(&vec![plain("a", "1"), plain("b", "1")]));
    assert!(!has_distinct_keys(&vec![plain("a", "1"), plain("b", "1"), plain("a", "2")]));
    let without = element("template", Vec::new(), Vec::new());
    assert!(!is_well_formed(&without));
    let mut with = element("div", Vec::new(), Vec::new());
    with.template = Some(Vec::new());
    assert!(!is_well_formed(&with));
    assert!(!is_well_formed(&template(vec![element("p", vec![plain("a", "1"), plain("a", "2")], Vec::new())])));
    assert!(all_well_formed(&vec![text("a"), template(Vec::new())]));
}

#[test]
fn markup_within_the_limit_fits_the_parser() {
    assert!(fits_parser(""));
    assert!(fits_parser("<p>x</p>"));
    assert_eq!(MAX_MARKUP_CHARS, (u32::MAX / 4) as usize);
}

#[test]
fn an_element_is_written_with_its_attributes_and_children() {
    let tree = document(vec![element(
        "p",
        vec![plain("id", "x"), plain("title", "a \"b\" & c")],
        vec![text("1 < 2 & 3"), element("br", Vec::new(), Vec::new()), text("end")],
    )]);
    assert_eq!(
        render_tree(&tree),
        Ok("<p id=\"x\" title=\"a &quot;b&quot; &amp; c\">1 &lt; 2 &amp; 3<br>end</p>".to_string())
    );
}

#[test]
fn a_prefixed_name_is_written_with_its_prefix() {
    let xlink = "http://www.w3.org/1999/xlink";
    let tree = document(vec![Node {
        data: Data::Element {
            name: html_name("a"),
            attrs: vec![Attr {
                name: QName {
                    prefix: Some("xlink".to_string()),
                    ns: xlink.to_string(),
                    local: "href".to_string(),
                },
                value: "#x".to_string(),
            }],
        },
        children: Vec::new(),
        template: None,
    }]);
    assert_eq!(render_tree(&tree), Ok("<a xlink:href=\"#x\"></a>".to_string()));
}

#[test]
fn every_kind_of_node_is_written() {
    let tree = document(vec![
        Node {
            data: Data::Doctype {
                name: "html".to_string(),
                public_id: String::new(),
                system_id: String::new(),
            },
            children: Vec::new(),
            template: None,
        },
        Node { data: Data::Comment { text: " c ".to_string() }, children: Vec::new(), template: None },
        Node {
            data: Data::Instruction { target: "xml".to_string(), data: "v".to_string() },
            children: Vec::new(),
            template: None,
        },
        Node { data: Data::Fragment, children: vec![text("in")], template: None },
        text("out"),
    ]);
    assert_eq!(render_tree(&tree), Ok("<!DOCTYPE html><!-- c --><?xml v>inout".to_string()));
}

#[test]
fn an_empty_document_is_written_as_nothing() {
    assert_eq!(render_tree(&document(Vec::new())), Ok(String::new()));
}

#[test]
fn what_is_parsed_is_written_back() {
    let html = "<div class=\"x\"><p>One &amp; two</p><ul><li>a</li><li>b</li></ul></div>";
    let tree = parse_tree(html);
    let fragment = match tree.children.into_iter().next() {
        Some(root) => document(root.children),
        None => panic!("no root element"),
    };
    assert_eq!(render_tree(&fragment), Ok(html.to_string()));
}

#[test]
fn a_failed_write_is_a_serialize_error() {
    assert_eq!(written_or_error(Ok("x".to_string())), Ok("x".to_string()));
    assert_eq!(written_or_error(Err(std::fmt::Error)), Err(SegmentError::Serialize));
}
