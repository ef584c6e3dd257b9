use paragraphs::attrs::with_attr;
use paragraphs::process::{into_fragment, process_html, process_tree};
use paragraphs::segment::{
    contains_break, make_span_units, mark_code_node, node_has_element_child, node_has_mixed,
    segment_children, segment_node, set_plain, SegmentError,
};
use paragraphs::tree::{copy_attrs, Attr, Data, Node, QName};

const HTML_NS: &str = "http://www.w3.org/1999/xhtml";

fn html_name(local: &str) -> QName {
    QName { prefix: None, ns: HTML_NS.to_string(), local: local.to_string() }
}

fn plain(local: &str, value: &str) -> Attr {
    Attr {
        name: QName { prefix: None, ns: String::new(), local: local.to_string() },
        value: value.to_string(),
    }
}

fn element(local: &str, attrs: Vec<Attr>, children: Vec<Node>) -> Node {
    Node { data: Data::Element { name: html_name(local), attrs }, children, template: None }
}

fn text(s: &str) -> Node {
    Node { data: Data::Text { text: s.to_string() }, children: Vec::new(), template: None }
}

fn comment(s: &str) -> Node {
    Node { data: Data::Comment { text: s.to_string() }, children: Vec::new(), template: None }
}

fn document(children: Vec<Node>) -> Node {
    Node { data: Data::Document, children, template: None }
}

fn unit(n: u32, s: &str) -> Node {
    element("span", vec![plain("id", &format!("para_{}", n))], vec![text(s)])
}

fn ids_in_order(node: &Node, out: &mut Vec<String>) {
    if let Data::Element { attrs, .. } = &node.data {
        for a in attrs {
            if a.name.ns.is_empty() && a.name.local == "id" && a.value.starts_with("para_") {
                out.push(a.value.clone());
            }
        }
    }
    for child in &node.children {
        ids_in_order(child, out);
    }
}

fn sample() -> Node {
    document(vec![element(
        "html",
        Vec::new(),
        vec![
            element("h1", Vec::new(), vec![text("Title")]),
            element(
                "div",
                Vec::new(),
                vec![
                    element("p", Vec::new(), vec![text("First "), element("em", Vec::new(), vec![text("one")])]),
                    text("\n  "),
                    element("script", Vec::new(), vec![text("var p = 1;")]),
                    text("loose words here"),
                    element("pre", Vec::new(), vec![element("code", Vec::new(), vec![text("a\tb")])]),
                    element("ul", Vec::new(), vec![
                        element("li", Vec::new(), vec![text("alpha beta gamma delta")]),
                        element("li", Vec::new(), vec![text("x")]),
                    ]),
                ],
            ),
        ],
    )])
}

#[test]
fn a_block_with_text_is_sealed() {
    let p = element("p", vec![plain("class", "lead")], vec![text("Hello world")]);
    let (out, next) = segment_node(&p, 500, 0).unwrap();
    let expected =
        element("p", vec![plain("class", "lead"), plain("id", "para_0")], vec![text("Hello world")]);
    assert_eq!(out, expected);
    assert_eq!(next, 1);
}

#[test]
fn an_id_that_is_there_is_overwritten_in_place() {
    let p = element("p", vec![plain("id", "intro"), plain("class", "x")], vec![text("Hi")]);
    let (out, next) = segment_node(&p, 500, 7).unwrap();
    let expected = element("p", vec![plain("id", "para_7"), plain("class", "x")], vec![text("Hi")]);
    assert_eq!(out, expected);
    assert_eq!(next, 8);
}

#[test]
fn a_block_as_long_as_the_maximum_is_not_sealed() {
    let p = element("p", Vec::new(), vec![text("abcde")]);
    let (out, next) = segment_node(&p, 5, 0).unwrap();
    assert_eq!(out, element("p", Vec::new(), vec![unit(0, "abcde")]));
    assert_eq!(next, 1);
    let (out, next) = segment_node(&p, 6, 0).unwrap();
    assert_eq!(out, element("p", vec![plain("id", "para_0")], vec![text("abcde")]));
    assert_eq!(next, 1);
}

#[test]
fn a_block_of_blocks_is_walked() {
    let div = element(
        "div",
        Vec::new(),
        vec![
            element("p", Vec::new(), vec![text("One")]),
            text("\n"),
            element("p", Vec::new(), vec![text("Two")]),
        ],
    );
    let (out, next) = segment_node(&div, 500, 0).unwrap();
    let expected = element(
        "div",
        Vec::new(),
        vec![
            element("p", vec![plain("id", "para_0")], vec![text("One")]),
            text("\n"),
            element("p", vec![plain("id", "para_1")], vec![text("Two")]),
        ],
    );
    assert_eq!(out, expected);
    assert_eq!(next, 2);
}

#[test]
fn an_inline_element_with_text_is_cut_into_units() {
    let span = element("span", Vec::new(), vec![text("Inline")]);
    let (out, next) = segment_node(&span, 500, 3).unwrap();
    assert_eq!(out, element("span", Vec::new(), vec![unit(3, "Inline")]));
    assert_eq!(next, 4);
}

#[test]
fn loose_text_is_wrapped() {
    let div = element(
        "div",
        Vec::new(),
        vec![text("aaa bbb ccc"), element("p", Vec::new(), vec![text("dd")]), text("  "), comment("c")],
    );
    let (out, next) = segment_node(&div, 8, 0).unwrap();
    let expected = element(
        "div",
        Vec::new(),
        vec![
            element("span", Vec::new(), vec![unit(0, "aaa bbb "), unit(1, "ccc")]),
            element("p", vec![plain("id", "para_2")], vec![text("dd")]),
            text("  "),
            comment("c"),
        ],
    );
    assert_eq!(out, expected);
    assert_eq!(next, 3);
}

#[test]
fn cutting_replaces_all_children() {
    let p = element("p", Vec::new(), vec![text("aaa "), comment("gone"), text("bbb ccc")]);
    let (out, next) = segment_node(&p, 4, 0).unwrap();
    assert_eq!(
        out,
        element("p", Vec::new(), vec![unit(0, "aaa "), unit(1, "bbb "), unit(2, "ccc")])
    );
    assert_eq!(next, 3);
}

#[test]
fn an_element_without_text_is_left() {
    let p = element("p", Vec::new(), vec![text(""), comment("c")]);
    let (out, next) = segment_node(&p, 500, 0).unwrap();
    assert_eq!(out, p);
    assert_eq!(next, 0);
    let hr = element("hr", Vec::new(), Vec::new());
    let (out, next) = segment_node(&hr, 500, 0).unwrap();
    assert_eq!(out, hr);
    assert_eq!(next, 0);
}

#[test]
fn a_skipped_element_comes_back_as_it_is() {
    let script = element("script", vec![plain("id", "s")], vec![text("evil()")]);
    let (out, next) = segment_node(&script, 500, 5).unwrap();
    assert_eq!(out, script);
    assert_eq!(next, 5);
    let svg = element("svg", Vec::new(), vec![element("p", Vec::new(), vec![text("x")])]);
    let (out, next) = segment_node(&svg, 500, 5).unwrap();
    assert_eq!(out, svg);
    assert_eq!(next, 5);
}

#[test]
fn code_is_sealed_whole_and_marked() {
    let pre = element(
        "pre",
        Vec::new(),
        vec![
            element("code", vec![plain("class", "rust")], vec![text("fn main() {\n}")]),
            element("code", Vec::new(), vec![text("short")]),
        ],
    );
    let (out, next) = segment_node(&pre, 3, 0).unwrap();
    let expected = element(
        "pre",
        vec![plain("id", "para_0")],
        vec![
            element("code", vec![plain("class", "tts_code_block")], vec![text("fn main() {\n}")]),
            element("code", Vec::new(), vec![text("short")]),
        ],
    );
    assert_eq!(out, expected);
    assert_eq!(next, 1);
}

#[test]
fn a_code_element_itself_is_a_unit() {
    let code = element("code", Vec::new(), vec![text("a\tb")]);
    let (out, next) = segment_node(&code, 500, 0).unwrap();
    assert_eq!(
        out,
        element("code", vec![plain("id", "para_0"), plain("class", "tts_code_block")], vec![text("a\tb")])
    );
    assert_eq!(next, 1);
}

#[test]
fn code_in_a_sealed_block_is_marked() {
    let p = element(
        "p",
        Vec::new(),
        vec![text("See "), element("code", Vec::new(), vec![text("x\ny")])],
    );
    let (out, _) = segment_node(&p, 500, 0).unwrap();
    let expected = element(
        "p",
        vec![plain("id", "para_0")],
        vec![text("See "), element("code", vec![plain("class", "tts_code_block")], vec![text("x\ny")])],
    );
    assert_eq!(out, expected);
}

#[test]
fn marking_stops_at_the_outermost_code() {
    let tree = element(
        "div",
        Vec::new(),
        vec![element(
            "code",
            Vec::new(),
            vec![text("a\n"), element("code", Vec::new(), vec![text("b\n")])],
        )],
    );
    let expected = element(
        "div",
        Vec::new(),
        vec![element(
            "code",
            vec![plain("class", "tts_code_block")],
            vec![text("a\n"), element("code", Vec::new(), vec![text("b\n")])],
        )],
    );
    assert_eq!(mark_code_node(&tree), expected);
}

#[test]
fn text_directly_below_a_document_is_left() {
    let doc = document(vec![text("loose"), element("p", Vec::new(), vec![text("x")])]);
    let (out, next) = segment_node(&doc, 500, 0).unwrap();
    assert_eq!(
        out,
        document(vec![text("loose"), element("p", vec![plain("id", "para_0")], vec![text("x")])])
    );
    assert_eq!(next, 1);
}

#[test]
fn other_nodes_are_left() {
    for node in [text("x"), comment("x"), Node { data: Data::Fragment, children: vec![text("x")], template: None }] {
        let (out, next) = segment_node(&node, 500, 9).unwrap();
        assert_eq!(out, node);
        assert_eq!(next, 9);
    }
}

#[test]
fn children_are_walked_with_and_without_wrapping() {
    let kids = vec![text("abc"), element("b", Vec::new(), vec![text("d")])];
    let (out, next) = segment_children(&kids, 500, 0, true).unwrap();
    assert_eq!(
        out,
        vec![
            element("span", Vec::new(), vec![unit(0, "abc")]),
            element("b", Vec::new(), vec![unit(1, "d")]),
        ]
    );
    assert_eq!(next, 2);
    let (out, next) = segment_children(&kids, 500, 0, false).unwrap();
    assert_eq!(out, vec![text("abc"), element("b", Vec::new(), vec![unit(0, "d")])]);
    assert_eq!(next, 1);
}

#[test]
fn units_are_numbered_in_document_order() {
    let (out, next) = segment_node(&sample(), 12, 10).unwrap();
    let mut ids = Vec::new();
    ids_in_order(&out, &mut ids);
    let expected: Vec<String> = (10..next).map(|n| format!("para_{}", n)).collect();
    assert_eq!(ids, expected);
    assert_eq!(next, 18);
}

#[test]
fn the_text_of_a_document_is_kept() {
    let tree = sample();
    for max in [0, 1, 5, 12, 500] {
        let (out, _) = segment_node(&tree, max, 0).unwrap();
        assert_eq!(out.text_contents(), tree.text_contents());
    }
}

#[test]
fn nothing_is_addressed_below_a_skipped_element() {
    let (out, _) = segment_node(&sample(), 12, 0).unwrap();
    let script = &out.children[0].children[1].children[2];
    assert_eq!(script, &element("script", Vec::new(), vec![text("var p = 1;")]));
}

#[test]
fn units_are_within_the_maximum() {
    fn check(node: &Node, max: usize) {
        if let Data::Element { name, attrs } = &node.data {
            let addressed = attrs.iter().any(|a| a.name.local == "id" && a.value.starts_with("para_"));
            if addressed && name.local != "pre" && name.local != "code" {
                let s = node.text_contents();
                let words = s.split_inclusive(|c: char| c.is_whitespace()).count();
                assert!(s.chars().count() <= max || words == 1, "{:?}", s);
            }
        }
        for child in &node.children {
            check(child, max);
        }
    }
    for max in [0, 1, 5, 12, 500] {
        let (out, _) = segment_node(&sample(), max, 0).unwrap();
        check(&out, max);
    }
}

#[test]
fn segmentation_is_a_function_of_its_input() {
    let a = segment_node(&sample(), 12, 4).unwrap();
    let b = segment_node(&sample(), 12, 4).unwrap();
    assert_eq!(a, b);
}

#[test]
fn the_counter_may_reach_its_last_value() {
    let p = element("p", Vec::new(), vec![text("x")]);
    let (_, next) = segment_node(&p, 500, u32::MAX - 1).unwrap();
    assert_eq!(next, u32::MAX);
}

#[test]
fn a_full_counter_is_an_error() {
    let p = element("p", Vec::new(), vec![text("x")]);
    assert_eq!(segment_node(&p, 500, u32::MAX), Err(SegmentError::CounterOverflow));
    let long = element("span", Vec::new(), vec![text("a b c")]);
    assert_eq!(segment_node(&long, 1, u32::MAX - 2), Err(SegmentError::CounterOverflow));
    let (_, next) = segment_node(&long, 1, u32::MAX - 3).unwrap();
    assert_eq!(next, u32::MAX);
    let div = element("div", Vec::new(), vec![element("p", Vec::new(), vec![text("x")]), text("y")]);
    assert_eq!(
        segment_children(&div.children, 500, u32::MAX - 1, true),
        Err(SegmentError::CounterOverflow)
    );
    let script = element("script", Vec::new(), Vec::new());
    assert_eq!(segment_node(&script, 500, u32::MAX), Ok((script, u32::MAX)));
}

#[test]
fn an_error_leaves_the_counter() {
    let tree = document(vec![element("html", Vec::new(), vec![element("p", Vec::new(), vec![text("x")])])]);
    let mut id = u32::MAX;
    assert_eq!(process_tree(&tree, 500, &mut id), Err(SegmentError::CounterOverflow));
    assert_eq!(id, u32::MAX);
}

#[test]
fn a_tree_is_processed_to_the_markup_of_its_fragment() {
    let tree = document(vec![element(
        "html",
        Vec::new(),
        vec![element("p", Vec::new(), vec![text("Hello")]), text("tail")],
    )]);
    let mut id = 0;
    let out = process_tree(&tree, 500, &mut id).unwrap();
    assert_eq!(out, "<p id=\"para_0\">Hello</p><span><span id=\"para_1\">tail</span></span>");
    assert_eq!(id, 2);
}

#[test]
fn the_fragment_is_what_is_below_the_root_element() {
    let inner = vec![element("p", Vec::new(), vec![text("x")]), text("y")];
    let wrapped = document(vec![element("html", Vec::new(), inner.clone_nodes())]);
    assert_eq!(into_fragment(wrapped), document(inner.clone_nodes()));
    let bare = document(vec![text("y"), element("p", Vec::new(), Vec::new())]);
    assert_eq!(into_fragment(bare.copy()), bare);
    assert_eq!(into_fragment(document(Vec::new())), document(Vec::new()));
}

#[test]
fn only_a_root_element_alone_is_stripped() {
    let one = document(vec![element("div", Vec::new(), vec![text("x")])]);
    assert_eq!(into_fragment(one.copy()), one);
    let two = document(vec![element("html", Vec::new(), vec![text("x")]), comment("c")]);
    assert_eq!(into_fragment(two.copy()), two);
    let p = element("p", Vec::new(), vec![text("x")]);
    assert_eq!(into_fragment(p.copy()), document(vec![p]));
}

#[test]
fn no_unit_is_lost_with_the_root() {
    let p = element("p", Vec::new(), vec![text("x")]);
    let mut id = 0;
    assert_eq!(process_tree(&p, 500, &mut id), Ok("<p id=\"para_0\">x</p>".to_string()));
    assert_eq!(id, 1);
    let doc = document(vec![element("div", Vec::new(), vec![text("x")])]);
    let mut id = 0;
    assert_eq!(process_tree(&doc, 500, &mut id), Ok("<div id=\"para_0\">x</div>".to_string()));
    assert_eq!(id, 1);
}

#[test]
fn template_contents_are_left_alone() {
    let template = Node {
        data: Data::Element { name: html_name("template"), attrs: Vec::new() },
        children: Vec::new(),
        template: Some(vec![element("p", Vec::new(), vec![text("inside")])]),
    };
    let (out, next) = segment_node(&template, 500, 0).unwrap();
    assert_eq!(out, template);
    assert_eq!(next, 0);
    assert_eq!(template.text_contents(), "");
}

trait CloneNodes {
    fn clone_nodes(&self) -> Vec<Node>;
}

impl CloneNodes for Vec<Node> {
    fn clone_nodes(&self) -> Vec<Node> {
        self.iter().map(|n| n.copy()).collect()
    }
}

#[test]
fn mixed_content_and_element_children() {
    let blocks = element("div", Vec::new(), vec![element("p", Vec::new(), Vec::new()), text(" \n")]);
    assert!(!node_has_mixed(&blocks));
    assert!(node_has_element_child(&blocks));
    let inline = element("div", Vec::new(), vec![element("em", Vec::new(), Vec::new())]);
    assert!(node_has_mixed(&inline));
    let texty = element("div", Vec::new(), vec![comment("c"), text(" x ")]);
    assert!(node_has_mixed(&texty));
    assert!(!node_has_element_child(&texty));
    assert!(!node_has_mixed(&element("div", Vec::new(), Vec::new())));
}

#[test]
fn breaks_are_tabs_and_line_feeds() {
    assert!(contains_break("a\tb"));
    assert!(contains_break("a\nb"));
    assert!(!contains_break("a b\r"));
    assert!(!contains_break(""));
}

#[test]
fn an_attribute_is_set_in_place_or_added_last() {
    let attrs = vec![plain("a", "1"), plain("b", "2")];
    assert_eq!(with_attr(&attrs, "a", "9"), vec![plain("a", "9"), plain("b", "2")]);
    assert_eq!(with_attr(&attrs, "c", "9"), vec![plain("a", "1"), plain("b", "2"), plain("c", "9")]);
    assert_eq!(with_attr(&Vec::new(), "c", "9"), vec![plain("c", "9")]);
    assert_eq!(copy_attrs(&attrs), attrs);
}

#[test]
fn an_attribute_of_a_namespace_is_another_attribute() {
    let xml = Attr {
        name: QName {
            prefix: Some("xml".to_string()),
            ns: "http://www.w3.org/XML/1998/namespace".to_string(),
            local: "id".to_string(),
        },
        value: "x".to_string(),
    };
    let p = Node {
        data: Data::Element { name: html_name("p"), attrs: vec![xml.copy()] },
        children: vec![text("t")],
        template: None,
    };
    let out = set_plain(&p, "id", "para_0");
    let expected = Node {
        data: Data::Element { name: html_name("p"), attrs: vec![xml, plain("id", "para_0")] },
        children: vec![text("t")],
        template: None,
    };
    assert_eq!(out, expected);
}

#[test]
fn units_for_pieces() {
    let pieces = vec!["a ".to_string(), "b".to_string()];
    assert_eq!(make_span_units(&pieces, 4), vec![unit(4, "a "), unit(5, "b")]);
    assert_eq!(make_span_units(&Vec::new(), 4), Vec::<Node>::new());
}

#[test]
fn markup_and_tree_agree() {
    let mut id = 0;
    let out = process_html("<div><p>One</p>\n<p>Two <b>bold</b></p>tail</div>", 10, &mut id).unwrap();
    assert_eq!(
        out,
        "<div><p id=\"para_0\">One</p>\n<p id=\"para_1\">Two <b>bold</b></p><span><span id=\"para_2\">tail</span></span></div>"
    );
    assert_eq!(id, 3);
}
