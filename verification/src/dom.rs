//! The markup parser and serializer, and the passage between their tree and
//! the document tree of this library.

use crate::segment::SegmentError;
use crate::tree::{
    attr_views, distinct_keys, html_ns, is_template, lemma_node_views, lemma_node_views_push,
    node_views, templates_in_place, text_is_leaf, well_formed, Attr, Data, DataView, Node, QName,
    Tree,
};
use html5ever::{LocalName, Namespace, Prefix, QualName};
use kuchikikiki::traits::TendrilSink;
use kuchikikiki::{Attribute, ExpandedName, NodeData, NodeRef};
use std::fmt::Write;
use vstd::prelude::*;

verus! {

/// A node of the parser's tree, by reference: opaque to the proofs.
#[verifier::external_type_specification]
#[verifier::external_body]
pub struct ExNodeRef(NodeRef);

/// The error of a formatter that could not write.
#[verifier::external_type_specification]
#[verifier::external_body]
pub struct ExFmtError(std::fmt::Error);

/// The tree that a parser node stands for. Its data is the node's own. Its
/// children are the node's children, in order. Its template contents are
/// the children of the node that an element holds as template contents,
/// and none where it holds no such node.
pub uninterp spec fn tree_of(n: NodeRef) -> Tree;

/// Whether a parser node is the child of another node.
pub uninterp spec fn has_parent(n: NodeRef) -> bool;

/// The tree that the parser makes of a fragment of markup, parsed as the
/// content of an element of namespace `ns` and local name `context`.
pub uninterp spec fn parsed(html: Seq<char>, ns: Seq<char>, context: Seq<char>) -> Tree;

/// The markup that the serializer writes for a tree, where it writes any.
pub uninterp spec fn markup(t: Tree) -> Option<Seq<char>>;

/// The most characters of markup that are handed to the parser, which
/// holds its input in buffers of at most `u32::MAX` bytes.
pub const MAX_MARKUP_CHARS: usize = 1073741823;

/// A node without children: of an element, the data say whether it holds
/// template contents.
pub open spec fn leaf(data: DataView) -> Tree {
    Tree {
        data,
        children: Seq::empty(),
        template: if is_template(data) {
            Some(Seq::empty())
        } else {
            None
        },
    }
}

/// `kuchikikiki::parse_fragment` with an element of the given namespace and
/// local name as context, fed the whole input by `TendrilSink::one`. The
/// document node that comes back stands for the tree named `parsed`. It has
/// no parent, its text nodes are leaves, and its `template` elements are
/// the nodes with template contents, since the parser makes every element
/// by `NodeRef::new_element` and appends to elements and documents only.
#[verifier::external_body]
fn parse_markup(html: &str, ns: &str, context: &str) -> (r: NodeRef)
    requires
        html@.len() <= MAX_MARKUP_CHARS,
    ensures
        tree_of(r) == parsed(html@, ns@, context@),
        !has_parent(r),
        tree_of(r).data is Document,
        text_is_leaf(tree_of(r)),
        templates_in_place(tree_of(r)),
{
    let name = QualName::new(None, Namespace::from(ns), LocalName::from(context));
    kuchikikiki::parse_fragment(name, Vec::new()).one(html)
}

/// `Node::data` for every kind of node but an element: the node's own data,
/// and `None` for an element.
#[verifier::external_body]
fn leaf_data(n: &NodeRef) -> (r: Option<Data>)
    ensures
        match r {
            Some(d) => d@ == tree_of(*n).data && !(d is Element),
            None => tree_of(*n).data is Element,
        },
{
    match n.data() {
        NodeData::Element(_) => None,
        NodeData::Text(t) => Some(Data::Text { text: t.borrow().clone() }),
        NodeData::Comment(t) => Some(Data::Comment { text: t.borrow().clone() }),
        NodeData::ProcessingInstruction(p) => {
            Some(Data::Instruction { target: p.borrow().0.clone(), data: p.borrow().1.clone() })
        },
        NodeData::Doctype(d) => {
            let (name, public_id) = (d.name.clone(), d.public_id.clone());
            Some(Data::Doctype { name, public_id, system_id: d.system_id.clone() })
        },
        NodeData::Document(_) => Some(Data::Document),
        NodeData::DocumentFragment => Some(Data::Fragment),
    }
}

/// `Node::as_element` and the `name` of the element: its prefix, namespace
/// and local name as text.
#[verifier::external_body]
fn element_name(n: &NodeRef) -> (r: Option<QName>)
    ensures
        match r {
            Some(name) => tree_of(*n).data is Element && name@ == tree_of(*n).data->Element_name,
            None => !(tree_of(*n).data is Element),
        },
{
    match n.as_element() {
        Some(e) => Some(
            QName {
                prefix: e.name.prefix.as_ref().map(|p| p.to_string()),
                ns: e.name.ns.to_string(),
                local: e.name.local.to_string(),
            },
        ),
        None => None,
    }
}

/// `Node::as_element` and the `attributes` of the element, in the order of
/// its map, whose keys are distinct; no attributes for another node.
#[verifier::external_body]
fn element_attrs(n: &NodeRef) -> (r: Vec<Attr>)
    ensures
        tree_of(*n).data is Element ==> attr_views(r@) == tree_of(*n).data->attrs,
        distinct_keys(attr_views(r@)),
{
    let mut out = Vec::new();
    if let Some(e) = n.as_element() {
        for (k, a) in e.attributes.borrow().map.iter() {
            let prefix = a.prefix.as_ref().map(|p| p.to_string());
            let name = QName { prefix, ns: k.ns.to_string(), local: k.local.to_string() };
            out.push(Attr { name, value: a.value.clone() });
        }
    }
    out
}

/// `NodeRef::children`: the children of a node, in order, each of which has
/// the node as its parent.
#[verifier::external_body]
fn node_children(n: &NodeRef) -> (r: Vec<NodeRef>)
    ensures
        r@.len() == tree_of(*n).children.len(),
        forall|i: int| 0 <= i < r@.len() ==> tree_of(#[trigger] r@[i]) == tree_of(*n).children[i],
        forall|i: int| 0 <= i < r@.len() ==> has_parent(#[trigger] r@[i]),
{
    n.children().collect()
}

/// The field `template_contents` of an element and `NodeRef::children` of
/// the node in it: the template contents, in order, each of which has that
/// node as its parent; `None` where the field holds no node.
#[verifier::external_body]
fn node_contents(n: &NodeRef) -> (r: Option<Vec<NodeRef>>)
    ensures
        match r {
            Some(v) => {
                &&& tree_of(*n).template is Some
                &&& v@.len() == tree_of(*n).template->0.len()
                &&& forall|i: int|
                    0 <= i < v@.len() ==> tree_of(#[trigger] v@[i]) == tree_of(*n).template->0[i]
                &&& forall|i: int| 0 <= i < v@.len() ==> has_parent(#[trigger] v@[i])
            },
            None => tree_of(*n).template is None,
        },
{
    match n.as_element().and_then(|e| e.template_contents.as_ref()) {
        Some(contents) => Some(contents.children().collect()),
        None => None,
    }
}

/// `NodeRef::new_element`: a new element without parent or children, with
/// the given name and attributes. It holds template contents, none yet,
/// exactly if it is a `template` element of markup.
#[verifier::external_body]
fn new_element(name: &QName, attrs: &Vec<Attr>) -> (r: NodeRef)
    requires
        distinct_keys(attr_views(attrs@)),
    ensures
        tree_of(r) == leaf(DataView::Element { name: name@, attrs: attr_views(attrs@) }),
        !has_parent(r),
{
    let prefix = name.prefix.as_ref().map(|p| Prefix::from(p.as_str()));
    let qual = QualName::new(prefix, Namespace::from(name.ns.as_str()), LocalName::from(name.local.as_str()));
    let mut pairs = Vec::new();
    for a in attrs.iter() {
        let prefix = a.name.prefix.as_ref().map(|p| Prefix::from(p.as_str()));
        let key = ExpandedName::new(a.name.ns.as_str(), a.name.local.as_str());
        pairs.push((key, Attribute { prefix, value: a.value.clone() }));
    }
    NodeRef::new_element(qual, pairs)
}

/// `NodeRef::new_text`: a new text node without parent or children.
#[verifier::external_body]
fn new_text(text: &str) -> (r: NodeRef)
    ensures
        tree_of(r) == leaf(DataView::Text { text: text@ }),
        !has_parent(r),
{
    NodeRef::new_text(text)
}

/// `NodeRef::new_comment`: a new comment node without parent or children.
#[verifier::external_body]
fn new_comment(text: &str) -> (r: NodeRef)
    ensures
        tree_of(r) == leaf(DataView::Comment { text: text@ }),
        !has_parent(r),
{
    NodeRef::new_comment(text)
}

/// `NodeRef::new_doctype`: a new doctype node without parent or children.
#[verifier::external_body]
fn new_doctype(name: &str, public_id: &str, system_id: &str) -> (r: NodeRef)
    ensures
        tree_of(r) == leaf(
            DataView::Doctype { name: name@, public_id: public_id@, system_id: system_id@ },
        ),
        !has_parent(r),
{
    NodeRef::new_doctype(name, public_id, system_id)
}

/// `NodeRef::new_processing_instruction`: a new processing instruction
/// without parent or children.
#[verifier::external_body]
fn new_instruction(target: &str, data: &str) -> (r: NodeRef)
    ensures
        tree_of(r) == leaf(DataView::Instruction { target: target@, data: data@ }),
        !has_parent(r),
{
    NodeRef::new_processing_instruction(target, data)
}

/// `NodeRef::new_document`: a new document node without parent or children.
#[verifier::external_body]
fn new_document() -> (r: NodeRef)
    ensures
        tree_of(r) == leaf(DataView::Document),
        !has_parent(r),
{
    NodeRef::new_document()
}

/// `NodeRef::new` with the data of a document fragment: a new node without
/// parent or children.
#[verifier::external_body]
fn new_fragment() -> (r: NodeRef)
    ensures
        tree_of(r) == leaf(DataView::Fragment),
        !has_parent(r),
{
    NodeRef::new(NodeData::DocumentFragment)
}

/// `NodeRef::append`, for two nodes that have no parent: `child` becomes the
/// last child of `parent`, which still has no parent.
#[verifier::external_body]
fn append_child(parent: &mut NodeRef, child: NodeRef)
    requires
        !has_parent(*old(parent)),
        !has_parent(child),
    ensures
        tree_of(*final(parent)) == (Tree {
            data: tree_of(*old(parent)).data,
            children: tree_of(*old(parent)).children.push(tree_of(child)),
            template: tree_of(*old(parent)).template,
        }),
        !has_parent(*final(parent)),
{
    parent.append(child)
}

/// `NodeRef::append` on the node that an element holds in the field
/// `template_contents`, for an element and a node that have no parent:
/// `child` becomes the last of the template contents of `parent`.
#[verifier::external_body]
fn append_content(parent: &mut NodeRef, child: NodeRef)
    requires
        tree_of(*old(parent)).template is Some,
        !has_parent(*old(parent)),
        !has_parent(child),
    ensures
        tree_of(*final(parent)) == (Tree {
            data: tree_of(*old(parent)).data,
            children: tree_of(*old(parent)).children,
            template: Some(tree_of(*old(parent)).template->0.push(tree_of(child))),
        }),
        !has_parent(*final(parent)),
{
    if let Some(contents) = parent.as_element().and_then(|e| e.template_contents.as_ref()) {
        contents.append(child)
    }
}

/// The `Display` of `NodeRef`, which serializes the node and what is below
/// it: the text written for the tree, or an error where none is written.
#[verifier::external_body]
fn render(n: &NodeRef) -> (r: Result<String, std::fmt::Error>)
    ensures
        match r {
            Ok(s) => markup(tree_of(*n)) == Some(s@),
            Err(_) => markup(tree_of(*n)) is None,
        },
{
    let mut out = String::new();
    match write!(out, "{}", n) {
        Ok(()) => Ok(out),
        Err(e) => Err(e),
    }
}

/// The nodes that parser nodes stand for.
#[verifier::loop_isolation(false)]
fn import_all(refs: &Vec<NodeRef>, trees: Ghost<Seq<Tree>>) -> (r: Vec<Node>)
    requires
        refs@.len() == trees@.len(),
        forall|i: int| 0 <= i < refs@.len() ==> tree_of(#[trigger] refs@[i]) == trees@[i],
        forall|i: int| 0 <= i < trees@.len() ==> templates_in_place(#[trigger] trees@[i]),
    ensures
        node_views(r@) == trees@,
        forall|i: int| 0 <= i < trees@.len() ==> well_formed(#[trigger] trees@[i]),
    decreases trees@, 0int,
{
    let mut out: Vec<Node> = Vec::new();
    let mut i: usize = 0;
    while i < refs.len()
        invariant
            i <= refs.len(),
            node_views(out@) == trees@.take(i as int),
            forall|j: int| 0 <= j < i ==> well_formed(#[trigger] trees@[j]),
        decreases refs.len() - i,
    {
        let ghost before = out@;
        proof {
            assert(templates_in_place(trees@[i as int]));
        }
        let item = import(&refs[i]);
        out.push(item);
        proof {
            lemma_node_views_push(before, item);
            assert(node_views(out@) =~= trees@.take(i + 1));
        }
        i += 1;
    }
    proof {
        assert(trees@.take(i as int) =~= trees@);
    }
    out
}

/// The document tree that a parser node stands for.
fn import(n: &NodeRef) -> (r: Node)
    requires
        templates_in_place(tree_of(*n)),
    ensures
        r@ == tree_of(*n),
        well_formed(r@),
    decreases tree_of(*n), 1int,
{
    let data = match leaf_data(n) {
        Some(d) => d,
        None => match element_name(n) {
            Some(name) => Data::Element { name, attrs: element_attrs(n) },
            None => Data::Fragment,
        },
    };
    let refs = node_children(n);
    let children = import_all(&refs, Ghost(tree_of(*n).children));
    let template = match node_contents(n) {
        Some(inner) => Some(import_all(&inner, Ghost(tree_of(*n).template->0))),
        None => None,
    };
    Node { data, children, template }
}

/// Parser nodes without a parent that stand for `nodes`, appended to
/// `parent` as children or as template contents.
#[verifier::loop_isolation(false)]
fn export_into(parent: &mut NodeRef, nodes: &Vec<Node>, as_contents: bool)
    requires
        !has_parent(*old(parent)),
        as_contents ==> tree_of(*old(parent)).template is Some,
        forall|i: int| 0 <= i < nodes@.len() ==> well_formed(#[trigger] node_views(nodes@)[i]),
    ensures
        !has_parent(*final(parent)),
        tree_of(*final(parent)).data == tree_of(*old(parent)).data,
        as_contents ==> tree_of(*final(parent)).children == tree_of(*old(parent)).children
            && tree_of(*final(parent)).template == Some(
            tree_of(*old(parent)).template->0 + node_views(nodes@),
        ),
        !as_contents ==> tree_of(*final(parent)).template == tree_of(*old(parent)).template
            && tree_of(*final(parent)).children == tree_of(*old(parent)).children + node_views(
            nodes@,
        ),
    decreases nodes, 0int,
{
    let ghost views = node_views(nodes@);
    let ghost first = tree_of(*parent);
    let mut i: usize = 0;
    proof {
        lemma_node_views(nodes@);
        assert(first.children + views.take(0) =~= first.children);
        if as_contents {
            assert(first.template->0 + views.take(0) =~= first.template->0);
        }
    }
    while i < nodes.len()
        invariant
            i <= nodes.len(),
            !has_parent(*parent),
            tree_of(*parent).data == first.data,
            as_contents ==> first.template is Some && tree_of(*parent).children == first.children
                && tree_of(*parent).template == Some(first.template->0 + views.take(i as int)),
            !as_contents ==> tree_of(*parent).template == first.template && tree_of(
                *parent,
            ).children == first.children + views.take(i as int),
        decreases nodes.len() - i,
    {
        proof {
            assert(decreases_to!(nodes => nodes[i as int]));
            assert(views[i as int] == nodes[i as int]@);
            assert(views.take(i + 1) =~= views.take(i as int).push(views[i as int]));
            assert(first.children + views.take(i + 1) =~= (first.children + views.take(
                i as int,
            )).push(views[i as int]));
            if as_contents {
                assert(first.template->0 + views.take(i + 1) =~= (first.template->0 + views.take(
                    i as int,
                )).push(views[i as int]));
            }
        }
        let child = export(&nodes[i]);
        if as_contents {
            append_content(parent, child);
        } else {
            append_child(parent, child);
        }
        i += 1;
    }
    proof {
        assert(views.take(i as int) =~= views);
    }
}

/// A parser node without a parent that stands for the document tree `node`.
fn export(node: &Node) -> (r: NodeRef)
    requires
        well_formed(node@),
    ensures
        tree_of(r) == node@,
        !has_parent(r),
    decreases node, 1int,
{
    let mut out = match &node.data {
        Data::Document => new_document(),
        Data::Fragment => new_fragment(),
        Data::Doctype { name, public_id, system_id } => new_doctype(
            name.as_str(),
            public_id.as_str(),
            system_id.as_str(),
        ),
        Data::Element { name, attrs } => new_element(name, attrs),
        Data::Text { text } => new_text(text.as_str()),
        Data::Comment { text } => new_comment(text.as_str()),
        Data::Instruction { target, data } => new_instruction(target.as_str(), data.as_str()),
    };
    proof {
        lemma_node_views(node.children@);
        assert forall|i: int| 0 <= i < node.children@.len() implies well_formed(
            #[trigger] node_views(node.children@)[i],
        ) by {
            assert(well_formed(node@.children[i]));
        }
    }
    export_into(&mut out, &node.children, false);
    match &node.template {
        Some(contents) => {
            proof {
                lemma_node_views(contents@);
                assert forall|i: int| 0 <= i < contents@.len() implies well_formed(
                    #[trigger] node_views(contents@)[i],
                ) by {
                    assert(well_formed(node@.template->0[i]));
                }
            }
            export_into(&mut out, contents, true);
            proof {
                assert(Seq::<Tree>::empty() + node_views(contents@) =~= node_views(contents@));
            }
        },
        None => {},
    }
    proof {
        assert(Seq::<Tree>::empty() + node_views(node.children@) =~= node_views(node.children@));
    }
    out
}

/// Whether `html` is short enough for the parser.
pub fn fits_parser(html: &str) -> (r: bool)
    ensures
        r == (html@.len() <= MAX_MARKUP_CHARS),
{
    html.unicode_len() <= MAX_MARKUP_CHARS
}

/// Parses a fragment of markup, as the content of a `body` element, into a
/// document tree.
pub fn parse_tree(html: &str) -> (r: Node)
    requires
        html@.len() <= MAX_MARKUP_CHARS,
    ensures
        r@ == parsed(html@, html_ns(), "body"@),
        r@.data is Document,
        well_formed(r@),
        text_is_leaf(r@),
{
    let root = parse_markup(html, "http://www.w3.org/1999/xhtml", "body");
    import(&root)
}

/// What is returned for a tree whose serialization gave `written`.
pub fn written_or_error(written: Result<String, std::fmt::Error>) -> (r: Result<String, SegmentError>)
    ensures
        match written {
            Ok(s) => r == Ok::<String, SegmentError>(s),
            Err(_) => r == Err::<String, SegmentError>(SegmentError::Serialize),
        },
{
    match written {
        Ok(s) => Ok(s),
        Err(_) => Err(SegmentError::Serialize),
    }
}

/// Writes a document tree out as markup.
pub fn render_tree(node: &Node) -> (r: Result<String, SegmentError>)
    requires
        well_formed(node@),
    ensures
        match r {
            Ok(s) => markup(node@) == Some(s@),
            Err(e) => e == SegmentError::Serialize && markup(node@) is None,
        },
{
    let root = export(node);
    written_or_error(render(&root))
}

} // verus!
