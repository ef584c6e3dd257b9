//! The segmentation of a document tree into addressed units.

use crate::attrs::{plain_attr, set_attr, with_attr};
use crate::label::{label, label_string};
use crate::tags::{is_block, is_block_element, is_code, is_code_tag, is_skip, is_skip_tag, same_text};
use crate::text::{chars_of, chunks, is_blank, split_text, str_is_blank, string_views};
use crate::tree::{
    attr_views, copy_template, lemma_node_views, lemma_node_views_push, node_views, tree_text, Attr, AttrView, Data, DataView, Node, QName, QNameView, Tree,
};
use vstd::prelude::*;
use vstd::string::StringExecFns;

verus! {

/// The name of the inline wrapper element that carries loose text.
pub open spec fn span_name() -> QNameView {
    QNameView { prefix: None, ns: "http://www.w3.org/1999/xhtml"@, local: "span"@ }
}

/// A text node.
pub open spec fn text_tree(text: Seq<char>) -> Tree {
    Tree { data: DataView::Text { text }, children: Seq::empty(), template: None }
}

/// The unit `n` made for a chunk of text: a wrapper element that carries the
/// addressing value and holds the chunk as its only child.
pub open spec fn span_unit(chunk: Seq<char>, n: nat) -> Tree {
    Tree {
        data: DataView::Element {
            name: span_name(),
            attrs: seq![plain_attr("id"@, label(n))],
        },
        children: seq![text_tree(chunk)],
        template: None,
    }
}

/// The units made for the chunks `cs`, numbered from `next` on.
pub open spec fn span_units(cs: Seq<Seq<char>>, next: nat) -> Seq<Tree> {
    Seq::new(cs.len(), |i: int| span_unit(cs[i], (next + i) as nat))
}

/// Whether `s` holds a tab or a line feed.
pub open spec fn has_break(s: Seq<char>) -> bool {
    exists|i: int| 0 <= i < s.len() && (#[trigger] s[i] == '\t' || s[i] == '\n')
}

/// The element `t` with the attribute `local` set to `value`.
pub open spec fn with_plain(t: Tree, local: Seq<char>, value: Seq<char>) -> Tree
    recommends
        t.data is Element,
{
    Tree {
        data: DataView::Element {
            name: t.data->Element_name,
            attrs: set_attr(t.data->attrs, local, value),
        },
        children: t.children,
        template: t.template,
    }
}

/// The trees of `ts` with their code marked.
pub open spec fn mark_code_all(ts: Seq<Tree>) -> Seq<Tree>
    decreases ts, 0int,
{
    if ts.len() == 0 {
        Seq::empty()
    } else {
        mark_code_all(ts.drop_last()).push(mark_code(ts.last()))
    }
}

/// The tree `t` in which every outermost `code` element whose text holds a
/// tab or a line feed carries the class of a code block.
pub open spec fn mark_code(t: Tree) -> Tree
    decreases t, 1int,
{
    if t.data is Element && t.tag() == "code"@ {
        if has_break(tree_text(t)) {
            with_plain(t, "class"@, "tts_code_block"@)
        } else {
            t
        }
    } else {
        Tree { data: t.data, children: mark_code_all(t.children), template: t.template }
    }
}

/// Whether a child makes its parent's content mixed: an element that is no
/// block, or a text node that holds more than white space.
pub open spec fn is_inline_child(c: Tree) -> bool {
    match c.data {
        DataView::Element { name, attrs } => !is_block(name.local),
        DataView::Text { text } => !is_blank(text),
        _ => false,
    }
}

/// Whether the content of `t` is mixed: some child is inline.
pub open spec fn has_mixed(t: Tree) -> bool {
    exists|i: int| 0 <= i < t.children.len() && is_inline_child(#[trigger] t.children[i])
}

/// Whether some child of `t` is an element.
pub open spec fn has_element_child(t: Tree) -> bool {
    exists|i: int| 0 <= i < t.children.len() && (#[trigger] t.children[i]).data is Element
}

/// Whether the element `t` is sealed as one unit: a block shorter than `max`
/// with mixed content.
pub open spec fn qualifies(t: Tree, max: nat) -> bool
    recommends
        t.data is Element,
{
    tree_text(t).len() < max && is_block(t.tag()) && has_mixed(t)
}

/// The unit `n` made of the element `t` as a whole.
pub open spec fn sealed(t: Tree, n: nat) -> Tree
    recommends
        t.data is Element,
{
    mark_code(with_plain(t, "id"@, label(n)))
}

/// The element `t` with its children replaced by the units of its text.
pub open spec fn split_element(t: Tree, max: nat, next: nat) -> (Tree, nat) {
    let cs = chunks(tree_text(t), max as int);
    (Tree { data: t.data, children: span_units(cs, next), template: t.template }, next + cs.len())
}

/// The wrapper made for loose text, holding the units of that text.
pub open spec fn wrap_text(text: Seq<char>, max: nat, next: nat) -> (Tree, nat) {
    let cs = chunks(text, max as int);
    (
        Tree {
            data: DataView::Element { name: span_name(), attrs: Seq::empty() },
            children: span_units(cs, next),
            template: None,
        },
        next + cs.len(),
    )
}

/// The children `ts` after segmentation, and the counter after them. Where
/// `wrap` holds, loose text among them is wrapped and cut into units.
pub open spec fn seg_children(ts: Seq<Tree>, max: nat, next: nat, wrap: bool) -> (Seq<Tree>, nat)
    decreases ts, 0int,
{
    if ts.len() == 0 {
        (Seq::empty(), next)
    } else {
        let (init, mid) = seg_children(ts.drop_last(), max, next, wrap);
        let (last, end) = seg_child(ts.last(), max, mid, wrap);
        (init.push(last), end)
    }
}

/// One child after segmentation, and the counter after it.
pub open spec fn seg_child(c: Tree, max: nat, next: nat, wrap: bool) -> (Tree, nat)
    decreases c, 2int,
{
    if wrap && c.data is Text && !is_blank(c.data->Text_text) {
        wrap_text(c.data->Text_text, max, next)
    } else if c.data is Element || !wrap {
        seg(c, max, next)
    } else {
        (c, next)
    }
}

/// The tree `t` after segmentation with units numbered from `next` on, and
/// the counter after it.
pub open spec fn seg(t: Tree, max: nat, next: nat) -> (Tree, nat)
    decreases t, 1int,
{
    match t.data {
        DataView::Element { name, attrs } => {
            if is_skip(name.local) {
                (t, next)
            } else if is_code(name.local) || qualifies(t, max) {
                (sealed(t, next), next + 1)
            } else if !has_element_child(t) && tree_text(t).len() > 0 {
                split_element(t, max, next)
            } else {
                let (kids, end) = seg_children(t.children, max, next, true);
                (Tree { data: t.data, children: kids, template: t.template }, end)
            }
        },
        DataView::Document => {
            let (kids, end) = seg_children(t.children, max, next, false);
            (Tree { data: t.data, children: kids, template: t.template }, end)
        },
        _ => (t, next),
    }
}

/// Why a document could not be segmented.
#[derive(Debug, Clone, Copy, PartialEq, Eq, Structural)]
pub enum SegmentError {
    /// The document holds more units than the counter can number.
    CounterOverflow,
    /// The tree could not be written out as markup.
    Serialize,
    /// The markup is longer than the parser takes.
    Parse,
}

/// Marking the code of a forest marks each of its trees.
pub proof fn lemma_mark_code_all(ts: Seq<Tree>)
    ensures
        mark_code_all(ts).len() == ts.len(),
        forall|i: int| 0 <= i < ts.len() ==> (#[trigger] mark_code_all(ts)[i]) == mark_code(ts[i]),
    decreases ts.len(),
{
    if ts.len() > 0 {
        lemma_mark_code_all(ts.drop_last());
    }
}

/// Marking the code of one more tree of a forest.
pub proof fn lemma_mark_code_all_take(ts: Seq<Tree>, i: int)
    requires
        0 <= i < ts.len(),
    ensures
        mark_code_all(ts.take(i + 1)) == mark_code_all(ts.take(i)).push(mark_code(ts[i])),
{
    assert(ts.take(i + 1).drop_last() =~= ts.take(i));
}

/// Segmenting one more child: the children before it, then the child from the counter they left.
pub proof fn lemma_seg_children_take(ts: Seq<Tree>, max: nat, next: nat, wrap: bool, i: int)
    requires
        0 <= i < ts.len(),
    ensures
        seg_children(ts.take(i + 1), max, next, wrap) == ({
            let (init, mid) = seg_children(ts.take(i), max, next, wrap);
            let (last, end) = seg_child(ts[i], max, mid, wrap);
            (init.push(last), end)
        }),
{
    assert(ts.take(i + 1).drop_last() =~= ts.take(i));
}

/// Segmentation leaves the kind of a node and, of an element, its name: it
/// changes attributes only.
pub proof fn lemma_seg_data(t: Tree, max: nat, next: nat)
    ensures
        seg(t, max, next).0.data is Element <==> t.data is Element,
        seg(t, max, next).0.data is Document <==> t.data is Document,
        t.data is Element ==> seg(t, max, next).0.tag() == t.tag(),
        t.data is Element && !is_skip(t.tag()) && !is_code(t.tag()) && !is_block(t.tag()) ==> seg(
            t,
            max,
            next,
        ).0.data == t.data,
        !(t.data is Element) ==> seg(t, max, next).0.data == t.data,
{
}

/// Segmentation never lowers the counter.
pub proof fn lemma_seg_grows(t: Tree, max: nat, next: nat)
    ensures
        seg(t, max, next).1 >= next,
    decreases t, 1int,
{
    match t.data {
        DataView::Element { name, attrs } => {
            if is_skip(name.local) {
            } else if is_code(name.local) || qualifies(t, max) {
            } else if !has_element_child(t) && tree_text(t).len() > 0 {
            } else {
                lemma_seg_children_grows(t.children, max, next, true);
            }
        },
        DataView::Document => {
            lemma_seg_children_grows(t.children, max, next, false);
        },
        _ => {},
    }
}

/// Segmenting a child never lowers the counter.
pub proof fn lemma_seg_child_grows(c: Tree, max: nat, next: nat, wrap: bool)
    ensures
        seg_child(c, max, next, wrap).1 >= next,
    decreases c, 2int,
{
    if wrap && c.data is Text && !is_blank(c.data->Text_text) {
    } else if c.data is Element || !wrap {
        lemma_seg_grows(c, max, next);
    }
}

/// Segmenting children never lowers the counter, and keeps their number.
pub proof fn lemma_seg_children_grows(ts: Seq<Tree>, max: nat, next: nat, wrap: bool)
    ensures
        seg_children(ts, max, next, wrap).1 >= next,
        seg_children(ts, max, next, wrap).0.len() == ts.len(),
    decreases ts, 0int,
{
    if ts.len() > 0 {
        lemma_seg_children_grows(ts.drop_last(), max, next, wrap);
        lemma_seg_child_grows(ts.last(), max, seg_children(ts.drop_last(), max, next, wrap).1, wrap);
    }
}

/// The counter after a prefix of the children is at most the counter after
/// all of them.
pub proof fn lemma_seg_children_prefix(ts: Seq<Tree>, max: nat, next: nat, wrap: bool, i: int)
    requires
        0 <= i <= ts.len(),
    ensures
        seg_children(ts.take(i), max, next, wrap).1 <= seg_children(ts, max, next, wrap).1,
    decreases ts.len() - i,
{
    if i == ts.len() {
        assert(ts.take(i) =~= ts);
    } else {
        lemma_seg_children_take(ts, max, next, wrap, i);
        lemma_seg_child_grows(ts[i], max, seg_children(ts.take(i), max, next, wrap).1, wrap);
        lemma_seg_children_prefix(ts, max, next, wrap, i + 1);
    }
}

/// Whether `s` holds a tab or a line feed.
pub fn contains_break(s: &str) -> (r: bool)
    ensures
        r == has_break(s@),
{
    let chars = chars_of(s);
    let mut i: usize = 0;
    while i < chars.len()
        invariant
            i <= chars.len(),
            chars@ == s@,
            forall|j: int| 0 <= j < i ==> !(#[trigger] s@[j] == '\t' || s@[j] == '\n'),
        decreases chars.len() - i,
    {
        if chars[i] == '\t' || chars[i] == '\n' {
            return true;
        }
        i += 1;
    }
    false
}

/// A copy of `node` in which, where it is an element, the attribute `local`
/// is set to `value`.
pub fn set_plain(node: &Node, local: &str, value: &str) -> (r: Node)
    ensures
        r@ == if node@.data is Element {
            with_plain(node@, local@, value@)
        } else {
            node@
        },
{
    let Node { data, children, template } = node.copy();
    match &node.data {
        Data::Element { name, attrs } => Node {
            data: Data::Element { name: name.copy(), attrs: with_attr(attrs, local, value) },
            children,
            template,
        },
        _ => Node { data, children, template },
    }
}

impl Node {
    /// The local tag name, where the node is an element.
    pub fn tag_name(&self) -> (r: Option<&str>)
        ensures
            match r {
                Some(tag) => self@.data is Element && tag@ == self@.tag(),
                None => !(self@.data is Element),
            },
    {
        match &self.data {
            Data::Element { name, attrs } => Some(name.local.as_str()),
            _ => None,
        }
    }
}

/// A copy of `node` with its code marked.
#[verifier::loop_isolation(false)]
pub fn mark_code_node(node: &Node) -> (r: Node)
    ensures
        r@ == mark_code(node@),
    decreases node,
{
    let is_code_element = match node.tag_name() {
        Some(tag) => same_text(tag, "code"),
        None => false,
    };
    if is_code_element {
        let text = node.text_contents();
        if contains_break(text.as_str()) {
            set_plain(node, "class", "tts_code_block")
        } else {
            node.copy()
        }
    } else {
        let mut kids: Vec<Node> = Vec::new();
        let mut i: usize = 0;
        proof {
            lemma_node_views(node.children@);
        }
        while i < node.children.len()
            invariant
                i <= node.children.len(),
                node_views(kids@) == mark_code_all(node@.children.take(i as int)),
            decreases node.children.len() - i,
        {
            proof {
                assert(decreases_to!(node.children => node.children[i as int]));
                lemma_mark_code_all_take(node@.children, i as int);
            }
            let ghost before = kids@;
            let item = mark_code_node(&node.children[i]);
            kids.push(item);
            proof {
                lemma_node_views_push(before, item);
            }
            i += 1;
        }
        proof {
            assert(node@.children.take(i as int) =~= node@.children);
        }
        Node { data: node.data.copy(), children: kids, template: copy_template(&node.template) }
    }
}

/// Whether some child of `node` is an inline element or text that is not blank.
pub fn node_has_mixed(node: &Node) -> (r: bool)
    ensures
        r == has_mixed(node@),
{
    let mut i: usize = 0;
    proof {
        lemma_node_views(node.children@);
    }
    while i < node.children.len()
        invariant
            i <= node.children.len(),
            node@.children == node_views(node.children@),
            node@.children.len() == node.children.len(),
            forall|j: int| 0 <= j < i ==> !is_inline_child(#[trigger] node@.children[j]),
        decreases node.children.len() - i,
    {
        let child = &node.children[i];
        proof {
            lemma_node_views(node.children@);
            assert(node@.children[i as int] == child@);
        }
        let inline = match &child.data {
            Data::Element { name, attrs } => !is_block_element(name.local.as_str()),
            Data::Text { text } => !str_is_blank(text.as_str()),
            _ => false,
        };
        if inline {
            return true;
        }
        i += 1;
    }
    false
}

/// Whether some child of `node` is an element.
pub fn node_has_element_child(node: &Node) -> (r: bool)
    ensures
        r == has_element_child(node@),
{
    let mut i: usize = 0;
    proof {
        lemma_node_views(node.children@);
    }
    while i < node.children.len()
        invariant
            i <= node.children.len(),
            node@.children == node_views(node.children@),
            node@.children.len() == node.children.len(),
            forall|j: int| 0 <= j < i ==> !((#[trigger] node@.children[j]).data is Element),
        decreases node.children.len() - i,
    {
        let child = &node.children[i];
        proof {
            lemma_node_views(node.children@);
            assert(node@.children[i as int] == child@);
        }
        let found = match &child.data {
            Data::Element { name, attrs } => true,
            _ => false,
        };
        if found {
            return true;
        }
        i += 1;
    }
    false
}

fn make_span_unit(chunk: &String, n: u32) -> (r: Node)
    ensures
        r@ == span_unit(chunk@, n as nat),
{
    let id = label_string(n);
    let text = Node {
        data: Data::Text { text: chunk.clone() },
        children: Vec::new(),
        template: None,
    };
    let mut attrs: Vec<Attr> = Vec::new();
    attrs.push(
        Attr {
            name: QName { prefix: None, ns: String::new(), local: String::from_str("id") },
            value: id,
        },
    );
    let mut children: Vec<Node> = Vec::new();
    children.push(text);
    let r = Node {
        data: Data::Element {
            name: QName {
                prefix: None,
                ns: String::from_str("http://www.w3.org/1999/xhtml"),
                local: String::from_str("span"),
            },
            attrs,
        },
        children,
        template: None,
    };
    proof {
        assert(text@ == text_tree(chunk@)) by {
            assert(node_views(text.children@) =~= Seq::<Tree>::empty());
        }
        assert(children@ =~= seq![text]);
        lemma_node_views(children@);
        assert(node_views(children@) =~= seq![text_tree(chunk@)]);
        assert(attr_views(attrs@) =~= seq![plain_attr("id"@, label(n as nat))]);
    }
    r
}

/// The units for `pieces`, numbered from `next` on.
pub fn make_span_units(pieces: &Vec<String>, next: u32) -> (r: Vec<Node>)
    requires
        next + pieces.len() <= u32::MAX,
    ensures
        node_views(r@) == span_units(string_views(pieces@), next as nat),
{
    let mut out: Vec<Node> = Vec::new();
    let mut i: usize = 0;
    let mut n: u32 = next;
    while i < pieces.len()
        invariant
            i <= pieces.len(),
            n == next + i,
            next + pieces.len() <= u32::MAX,
            node_views(out@) == span_units(string_views(pieces@), next as nat).take(i as int),
        decreases pieces.len() - i,
    {
        let ghost before = out@;
        let item = make_span_unit(&pieces[i], n);
        out.push(item);
        proof {
            lemma_node_views_push(before, item);
            assert(string_views(pieces@)[i as int] == pieces@[i as int]@);
            assert(node_views(out@) =~= span_units(string_views(pieces@), next as nat).take(
                i + 1,
            ));
        }
        i += 1;
        n += 1;
    }
    proof {
        assert(node_views(out@) =~= span_units(string_views(pieces@), next as nat));
    }
    out
}

/// Cuts `text` into units numbered from `next` on.
fn split_units(text: &str, max: usize, next: u32) -> (r: Result<(Vec<Node>, u32), SegmentError>)
    ensures
        match r {
            Ok((units, end)) => {
                &&& node_views(units@) == span_units(chunks(text@, max as int), next as nat)
                &&& end == next + chunks(text@, max as int).len()
            },
            Err(e) => {
                &&& e == SegmentError::CounterOverflow
                &&& next + chunks(text@, max as int).len() > u32::MAX
            },
        },
{
    let pieces = split_text(text, max);
    proof {
        assert(string_views(pieces@).len() == pieces@.len());
    }
    let room: u32 = u32::MAX - next;
    if pieces.len() > room as usize {
        return Err(SegmentError::CounterOverflow);
    }
    let units = make_span_units(&pieces, next);
    let end: u32 = next + pieces.len() as u32;
    Ok((units, end))
}

/// The children of a node after segmentation, and the counter after them.
#[verifier::loop_isolation(false)]
pub fn segment_children(children: &Vec<Node>, max: usize, next: u32, wrap: bool) -> (r: Result<
    (Vec<Node>, u32),
    SegmentError,
>)
    ensures
        match r {
            Ok((kids, end)) => {
                &&& node_views(kids@) == seg_children(
                    node_views(children@),
                    max as nat,
                    next as nat,
                    wrap,
                ).0
                &&& end == seg_children(node_views(children@), max as nat, next as nat, wrap).1
            },
            Err(e) => {
                &&& e == SegmentError::CounterOverflow
                &&& seg_children(node_views(children@), max as nat, next as nat, wrap).1 > u32::MAX
            },
        },
    decreases children, 0int,
{
    let ghost ts = node_views(children@);
    let mut kids: Vec<Node> = Vec::new();
    let mut n: u32 = next;
    let mut i: usize = 0;
    proof {
        lemma_node_views(children@);
    }
    while i < children.len()
        invariant
            i <= children.len(),
            ts == node_views(children@),
            ts.len() == children.len(),
            node_views(kids@) == seg_children(ts.take(i as int), max as nat, next as nat, wrap).0,
            n == seg_children(ts.take(i as int), max as nat, next as nat, wrap).1,
        decreases children.len() - i,
    {
        let child = &children[i];
        proof {
            assert(decreases_to!(children => children[i as int]));
            lemma_node_views(children@);
            assert(ts[i as int] == child@);
            lemma_seg_children_take(ts, max as nat, next as nat, wrap, i as int);
            lemma_seg_children_prefix(ts, max as nat, next as nat, wrap, i + 1);
        }
        let ghost before = kids@;
        let loose = match &child.data {
            Data::Text { text } => wrap && !str_is_blank(text.as_str()),
            _ => false,
        };
        let step = if loose {
            wrap_loose(child, max, n)
        } else if child.tag_name().is_some() || !wrap {
            segment_node(child, max, n)
        } else {
            Ok((child.copy(), n))
        };
        match step {
            Ok((item, end)) => {
                kids.push(item);
                n = end;
                proof {
                    lemma_node_views_push(before, item);
                }
            },
            Err(e) => {
                return Err(e);
            },
        }
        i += 1;
    }
    proof {
        assert(ts.take(i as int) =~= ts);
    }
    Ok((kids, n))
}

/// The wrapper for the loose text node `child`, holding the units of its text.
fn wrap_loose(child: &Node, max: usize, next: u32) -> (r: Result<(Node, u32), SegmentError>)
    requires
        child@.data is Text,
    ensures
        match r {
            Ok((out, end)) => {
                &&& out@ == wrap_text(child@.data->Text_text, max as nat, next as nat).0
                &&& end == wrap_text(child@.data->Text_text, max as nat, next as nat).1
            },
            Err(e) => {
                &&& e == SegmentError::CounterOverflow
                &&& wrap_text(child@.data->Text_text, max as nat, next as nat).1 > u32::MAX
            },
        },
{
    match &child.data {
        Data::Text { text } => {
            match split_units(text.as_str(), max, next) {
                Ok((units, end)) => {
                    let out = Node {
                        data: Data::Element {
                            name: QName {
                                prefix: None,
                                ns: String::from_str("http://www.w3.org/1999/xhtml"),
                                local: String::from_str("span"),
                            },
                            attrs: Vec::new(),
                        },
                        children: units,
                        template: None,
                    };
                    proof {
                        assert(attr_views(Seq::<Attr>::empty()) =~= Seq::<AttrView>::empty());
                    }
                    Ok((out, end))
                },
                Err(e) => Err(e),
            }
        },
        _ => Ok((child.copy(), next)),
    }
}

/// The tree below `node` after segmentation with units numbered from `next`
/// on, and the counter after it.
pub fn segment_node(node: &Node, max: usize, next: u32) -> (r: Result<(Node, u32), SegmentError>)
    ensures
        match r {
            Ok((out, end)) => {
                &&& out@ == seg(node@, max as nat, next as nat).0
                &&& end == seg(node@, max as nat, next as nat).1
            },
            Err(e) => {
                &&& e == SegmentError::CounterOverflow
                &&& seg(node@, max as nat, next as nat).1 > u32::MAX
            },
        },
    decreases node, 1int,
{
    match &node.data {
        Data::Element { name, attrs } => {
            let tag = name.local.as_str();
            if is_skip_tag(tag) {
                return Ok((node.copy(), next));
            }
            let text = node.text_contents();
            let text_len = text.as_str().unicode_len();
            let seal = is_code_tag(tag) || (text_len < max && is_block_element(tag)
                && node_has_mixed(node));
            if seal {
                if next == u32::MAX {
                    return Err(SegmentError::CounterOverflow);
                }
                let id = label_string(next);
                let tagged = set_plain(node, "id", id.as_str());
                return Ok((mark_code_node(&tagged), next + 1));
            }
            if !node_has_element_child(node) && text_len > 0 {
                return match split_units(text.as_str(), max, next) {
                    Ok((units, end)) => Ok(
                        (
                            Node {
                                data: node.data.copy(),
                                children: units,
                                template: copy_template(&node.template),
                            },
                            end,
                        ),
                    ),
                    Err(e) => Err(e),
                };
            }
            match segment_children(&node.children, max, next, true) {
                Ok((kids, end)) => Ok(
                    (
                        Node {
                            data: node.data.copy(),
                            children: kids,
                            template: copy_template(&node.template),
                        },
                        end,
                    ),
                ),
                Err(e) => Err(e),
            }
        },
        Data::Document => {
            match segment_children(&node.children, max, next, false) {
                Ok((kids, end)) => Ok(
                    (
                        Node {
                            data: node.data.copy(),
                            children: kids,
                            template: copy_template(&node.template),
                        },
                        end,
                    ),
                ),
                Err(e) => Err(e),
            }
        },
        _ => Ok((node.copy(), next)),
    }
}

} // verus!
