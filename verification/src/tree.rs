//! The document tree and its mathematical model.

use vstd::prelude::*;
use vstd::string::StringExecFns;

verus! {

/// A qualified name: an optional prefix, a namespace and a local name.
#[derive(Debug, PartialEq, Eq)]
pub struct QName {
    pub prefix: Option<String>,
    pub ns: String,
    pub local: String,
}

/// An attribute of an element.
#[derive(Debug, PartialEq, Eq)]
pub struct Attr {
    pub name: QName,
    pub value: String,
}

/// What a node is, apart from its children.
#[derive(Debug, PartialEq, Eq)]
#[allow(inconsistent_fields)]
pub enum Data {
    Document,
    Fragment,
    Doctype { name: String, public_id: String, system_id: String },
    Element { name: QName, attrs: Vec<Attr> },
    Text { text: String },
    Comment { text: String },
    Instruction { target: String, data: String },
}

/// A node with the subtrees below it, in document order. A `template`
/// element keeps its contents apart from its children, in `template`.
#[derive(Debug, PartialEq, Eq)]
pub struct Node {
    pub data: Data,
    pub children: Vec<Node>,
    pub template: Option<Vec<Node>>,
}

/// The model of a qualified name.
pub struct QNameView {
    pub prefix: Option<Seq<char>>,
    pub ns: Seq<char>,
    pub local: Seq<char>,
}

/// The model of an attribute.
pub struct AttrView {
    pub name: QNameView,
    pub value: Seq<char>,
}

/// The model of the data of a node.
#[allow(inconsistent_fields)]
pub enum DataView {
    Document,
    Fragment,
    Doctype { name: Seq<char>, public_id: Seq<char>, system_id: Seq<char> },
    Element { name: QNameView, attrs: Seq<AttrView> },
    Text { text: Seq<char> },
    Comment { text: Seq<char> },
    Instruction { target: Seq<char>, data: Seq<char> },
}

/// The model of a node: its data, the models of its children and the
/// models of its template contents.
pub struct Tree {
    pub data: DataView,
    pub children: Seq<Tree>,
    pub template: Option<Seq<Tree>>,
}

impl View for QName {
    type V = QNameView;

    open spec fn view(&self) -> QNameView {
        QNameView {
            prefix: match self.prefix {
                Some(p) => Some(p@),
                None => None,
            },
            ns: self.ns@,
            local: self.local@,
        }
    }
}

impl View for Attr {
    type V = AttrView;

    open spec fn view(&self) -> AttrView {
        AttrView { name: self.name@, value: self.value@ }
    }
}

/// The models of a sequence of attributes.
pub open spec fn attr_views(attrs: Seq<Attr>) -> Seq<AttrView> {
    attrs.map_values(|a: Attr| a@)
}

impl View for Data {
    type V = DataView;

    open spec fn view(&self) -> DataView {
        match self {
            Data::Document => DataView::Document,
            Data::Fragment => DataView::Fragment,
            Data::Doctype { name, public_id, system_id } => DataView::Doctype {
                name: name@,
                public_id: public_id@,
                system_id: system_id@,
            },
            Data::Element { name, attrs } => DataView::Element {
                name: name@,
                attrs: attr_views(attrs@),
            },
            Data::Text { text } => DataView::Text { text: text@ },
            Data::Comment { text } => DataView::Comment { text: text@ },
            Data::Instruction { target, data } => DataView::Instruction {
                target: target@,
                data: data@,
            },
        }
    }
}

/// The models of a sequence of nodes.
pub open spec fn node_views(nodes: Seq<Node>) -> Seq<Tree>
    decreases nodes, 0int,
{
    if nodes.len() == 0 {
        Seq::empty()
    } else {
        node_views(nodes.drop_last()).push(node_view(nodes.last()))
    }
}

/// The model of a node.
pub open spec fn node_view(node: Node) -> Tree
    decreases node, 1int,
{
    Tree {
        data: node.data@,
        children: node_views(node.children@),
        template: match node.template {
            Some(contents) => Some(node_views(contents@)),
            None => None,
        },
    }
}

/// The models of the template contents of a node.
pub open spec fn template_view(template: Option<Vec<Node>>) -> Option<Seq<Tree>> {
    match template {
        Some(contents) => Some(node_views(contents@)),
        None => None,
    }
}

impl View for Node {
    type V = Tree;

    open spec fn view(&self) -> Tree {
        node_view(*self)
    }
}

/// The models of a sequence of nodes are the models of its nodes, one by one.
pub proof fn lemma_node_views(nodes: Seq<Node>)
    ensures
        node_views(nodes).len() == nodes.len(),
        forall|i: int| 0 <= i < nodes.len() ==> (#[trigger] node_views(nodes)[i]) == nodes[i]@,
    decreases nodes.len(),
{
    if nodes.len() > 0 {
        lemma_node_views(nodes.drop_last());
    }
}

/// The models after one more node.
pub proof fn lemma_node_views_push(nodes: Seq<Node>, x: Node)
    ensures
        node_views(nodes.push(x)) == node_views(nodes).push(x@),
{
    assert(nodes.push(x).drop_last() =~= nodes);
}

/// The models of one more node of a sequence.
pub proof fn lemma_node_views_take(nodes: Seq<Node>, i: int)
    requires
        0 <= i < nodes.len(),
    ensures
        node_views(nodes.take(i + 1)) == node_views(nodes.take(i)).push(nodes[i]@),
        node_views(nodes).take(i + 1) == node_views(nodes).take(i).push(nodes[i]@),
{
    assert(nodes.take(i + 1).drop_last() =~= nodes.take(i));
    lemma_node_views(nodes);
    assert(node_views(nodes).take(i + 1) =~= node_views(nodes).take(i).push(nodes[i]@));
}

/// The models of one more attribute of a sequence.
pub proof fn lemma_attr_views_take(attrs: Seq<Attr>, i: int)
    requires
        0 <= i < attrs.len(),
    ensures
        attr_views(attrs.take(i + 1)) == attr_views(attrs.take(i)).push(attrs[i]@),
{
    assert(attr_views(attrs.take(i + 1)) =~= attr_views(attrs.take(i)).push(attrs[i]@));
}

/// The models after one more attribute.
pub proof fn lemma_attr_views_push(attrs: Seq<Attr>, x: Attr)
    ensures
        attr_views(attrs.push(x)) == attr_views(attrs).push(x@),
{
    assert(attr_views(attrs.push(x)) =~= attr_views(attrs).push(x@));
}

impl Tree {
    /// The local tag name of an element.
    pub open spec fn tag(self) -> Seq<char>
        recommends
            self.data is Element,
    {
        self.data->Element_name.local
    }
}

/// The text that a node itself holds: that of a text node, and none otherwise.
pub open spec fn own_text(d: DataView) -> Seq<char> {
    match d {
        DataView::Text { text } => text,
        _ => Seq::empty(),
    }
}

/// The text of the trees of `ts`, in order.
pub open spec fn forest_text(ts: Seq<Tree>) -> Seq<char>
    decreases ts, 0int,
{
    if ts.len() == 0 {
        Seq::empty()
    } else {
        forest_text(ts.drop_last()) + tree_text(ts.last())
    }
}

/// The text of a tree: that of all its text nodes, in document order.
pub open spec fn tree_text(t: Tree) -> Seq<char>
    decreases t, 1int,
{
    own_text(t.data) + forest_text(t.children)
}

/// The text of one more tree of a forest.
pub proof fn lemma_forest_text_take(ts: Seq<Tree>, i: int)
    requires
        0 <= i < ts.len(),
    ensures
        forest_text(ts.take(i + 1)) == forest_text(ts.take(i)) + tree_text(ts[i]),
{
    assert(ts.take(i + 1).drop_last() =~= ts.take(i));
}

/// Whether no two attributes of `attrs` have the same namespace and local name.
pub open spec fn distinct_keys(attrs: Seq<AttrView>) -> bool {
    forall|i: int, j: int|
        0 <= i < j < attrs.len() ==> !((#[trigger] attrs[i]).name.ns == (#[trigger] attrs[j]).name.ns
            && attrs[i].name.local == attrs[j].name.local)
}

/// The namespace of the elements of markup.
pub open spec fn html_ns() -> Seq<char> {
    "http://www.w3.org/1999/xhtml"@
}

/// Whether `d` is the data of a `template` element of markup, the one kind
/// of node that holds template contents.
pub open spec fn is_template(d: DataView) -> bool {
    d is Element && d->Element_name.ns == html_ns() && d->Element_name.local == "template"@
}

/// Whether the tree can be written out as it is: the attributes of every
/// element have distinct names, and the `template` elements are the nodes
/// that hold template contents.
pub open spec fn well_formed(t: Tree) -> bool
    decreases t,
{
    &&& t.data is Element ==> distinct_keys(t.data->attrs)
    &&& t.template is Some <==> is_template(t.data)
    &&& forall|i: int| 0 <= i < t.children.len() ==> well_formed(#[trigger] t.children[i])
    &&& t.template is Some ==> forall|i: int|
        0 <= i < t.template->0.len() ==> well_formed(#[trigger] t.template->0[i])
}

/// Whether the `template` elements are the nodes that hold template
/// contents, everywhere in the tree.
pub open spec fn templates_in_place(t: Tree) -> bool
    decreases t,
{
    &&& t.template is Some <==> is_template(t.data)
    &&& forall|i: int| 0 <= i < t.children.len() ==> templates_in_place(#[trigger] t.children[i])
    &&& t.template is Some ==> forall|i: int|
        0 <= i < t.template->0.len() ==> templates_in_place(#[trigger] t.template->0[i])
}

/// Whether every text node among the node and those below it is a leaf, as
/// in every tree that a parser makes.
pub open spec fn text_is_leaf(t: Tree) -> bool
    decreases t,
{
    &&& t.data is Text ==> t.children.len() == 0
    &&& forall|i: int| 0 <= i < t.children.len() ==> text_is_leaf(#[trigger] t.children[i])
}

/// Whether two attributes have the same namespace and local name.
fn same_key(a: &Attr, b: &Attr) -> (r: bool)
    ensures
        r == (a@.name.ns == b@.name.ns && a@.name.local == b@.name.local),
{
    a.name.ns == b.name.ns && a.name.local == b.name.local
}

/// Whether no two attributes of `attrs` have the same namespace and local name.
pub fn has_distinct_keys(attrs: &Vec<Attr>) -> (r: bool)
    ensures
        r == distinct_keys(attr_views(attrs@)),
{
    let ghost views = attr_views(attrs@);
    let mut j: usize = 0;
    while j < attrs.len()
        invariant
            j <= attrs.len(),
            views == attr_views(attrs@),
            views.len() == attrs.len(),
            forall|a: int, b: int|
                0 <= a < b < j ==> !((#[trigger] views[a]).name.ns == (#[trigger] views[b]).name.ns
                    && views[a].name.local == views[b].name.local),
        decreases attrs.len() - j,
    {
        let mut i: usize = 0;
        while i < j
            invariant
                i <= j < attrs.len(),
                views == attr_views(attrs@),
                views.len() == attrs.len(),
                forall|a: int|
                    0 <= a < i ==> !((#[trigger] views[a]).name.ns == views[j as int].name.ns
                        && views[a].name.local == views[j as int].name.local),
            decreases j - i,
        {
            proof {
                assert(views[i as int] == attrs@[i as int]@);
                assert(views[j as int] == attrs@[j as int]@);
            }
            if same_key(&attrs[i], &attrs[j]) {
                return false;
            }
            i += 1;
        }
        j += 1;
    }
    true
}

/// Whether every node of `nodes` can be written out as it is.
#[verifier::loop_isolation(false)]
pub fn all_well_formed(nodes: &Vec<Node>) -> (r: bool)
    ensures
        r == forall|i: int| 0 <= i < nodes@.len() ==> well_formed(#[trigger] node_views(nodes@)[i]),
    decreases nodes, 0int,
{
    let mut i: usize = 0;
    proof {
        lemma_node_views(nodes@);
    }
    while i < nodes.len()
        invariant
            i <= nodes.len(),
            forall|j: int| 0 <= j < i ==> well_formed(#[trigger] node_views(nodes@)[j]),
        decreases nodes.len() - i,
    {
        proof {
            assert(decreases_to!(nodes => nodes[i as int]));
            assert(node_views(nodes@)[i as int] == nodes[i as int]@);
        }
        if !is_well_formed(&nodes[i]) {
            return false;
        }
        i += 1;
    }
    true
}

/// Whether the tree below `node` can be written out as it is.
pub fn is_well_formed(node: &Node) -> (r: bool)
    ensures
        r == well_formed(node@),
    decreases node, 1int,
{
    let keys_distinct = match &node.data {
        Data::Element { name, attrs } => has_distinct_keys(attrs),
        _ => true,
    };
    let is_template_element = match &node.data {
        Data::Element { name, attrs } => {
            name.ns == String::from_str("http://www.w3.org/1999/xhtml") && name.local
                == String::from_str("template")
        },
        _ => false,
    };
    let holds_contents = match &node.template {
        Some(_) => true,
        None => false,
    };
    proof {
        lemma_node_views(node.children@);
        if node.template is Some {
            lemma_node_views(node.template->0@);
        }
        assert(node@.children == node_views(node.children@));
        assert(node@.template == template_view(node.template));
        assert(is_template_element == is_template(node@.data));
    }
    if !keys_distinct || holds_contents != is_template_element {
        return false;
    }
    let children_fine = all_well_formed(&node.children);
    let contents_fine = match &node.template {
        Some(contents) => all_well_formed(contents),
        None => true,
    };
    proof {
        if children_fine && contents_fine {
            assert forall|i: int| 0 <= i < node@.children.len() implies well_formed(
                #[trigger] node@.children[i],
            ) by {
                assert(well_formed(node_views(node.children@)[i]));
            }
            if node@.template is Some {
                assert forall|i: int| 0 <= i < node@.template->0.len() implies well_formed(
                    #[trigger] node@.template->0[i],
                ) by {
                    assert(well_formed(node_views(node.template->0@)[i]));
                }
            }
        } else if !children_fine {
            let i = choose|i: int|
                0 <= i < node.children@.len() && !well_formed(
                    #[trigger] node_views(node.children@)[i],
                );
            assert(!well_formed(node@.children[i]));
        } else {
            let i = choose|i: int|
                0 <= i < node.template->0@.len() && !well_formed(
                    #[trigger] node_views(node.template->0@)[i],
                );
            assert(!well_formed(node@.template->0[i]));
        }
    }
    children_fine && contents_fine
}

impl QName {
    /// A copy of the name.
    pub fn copy(&self) -> (r: QName)
        ensures
            r@ == self@,
    {
        QName {
            prefix: match &self.prefix {
                Some(p) => Some(p.clone()),
                None => None,
            },
            ns: self.ns.clone(),
            local: self.local.clone(),
        }
    }
}

impl Attr {
    /// A copy of the attribute.
    pub fn copy(&self) -> (r: Attr)
        ensures
            r@ == self@,
    {
        Attr { name: self.name.copy(), value: self.value.clone() }
    }
}

/// A copy of a vector of attributes.
pub fn copy_attrs(attrs: &Vec<Attr>) -> (r: Vec<Attr>)
    ensures
        attr_views(r@) == attr_views(attrs@),
{
    let mut out: Vec<Attr> = Vec::new();
    let mut i: usize = 0;
    while i < attrs.len()
        invariant
            i <= attrs.len(),
            attr_views(out@) == attr_views(attrs@.take(i as int)),
        decreases attrs.len() - i,
    {
        let ghost before = out@;
        let item = attrs[i].copy();
        out.push(item);
        proof {
            lemma_attr_views_push(before, item);
            lemma_attr_views_take(attrs@, i as int);
        }
        i += 1;
    }
    proof {
        assert(attrs@.take(i as int) =~= attrs@);
    }
    out
}

impl Data {
    /// A copy of the data.
    pub fn copy(&self) -> (r: Data)
        ensures
            r@ == self@,
    {
        match self {
            Data::Document => Data::Document,
            Data::Fragment => Data::Fragment,
            Data::Doctype { name, public_id, system_id } => Data::Doctype {
                name: name.clone(),
                public_id: public_id.clone(),
                system_id: system_id.clone(),
            },
            Data::Element { name, attrs } => Data::Element {
                name: name.copy(),
                attrs: copy_attrs(attrs),
            },
            Data::Text { text } => Data::Text { text: text.clone() },
            Data::Comment { text } => Data::Comment { text: text.clone() },
            Data::Instruction { target, data } => Data::Instruction {
                target: target.clone(),
                data: data.clone(),
            },
        }
    }
}

/// A copy of a vector of nodes.
#[verifier::loop_isolation(false)]
pub fn copy_nodes(nodes: &Vec<Node>) -> (r: Vec<Node>)
    ensures
        node_views(r@) == node_views(nodes@),
    decreases nodes, 0int,
{
    let mut out: Vec<Node> = Vec::new();
    let mut i: usize = 0;
    while i < nodes.len()
        invariant
            i <= nodes.len(),
            node_views(out@) == node_views(nodes@.take(i as int)),
        decreases nodes.len() - i,
    {
        proof {
            assert(decreases_to!(nodes => nodes[i as int]));
        }
        let ghost before = out@;
        let item = nodes[i].copy();
        out.push(item);
        proof {
            lemma_node_views_push(before, item);
            lemma_node_views_take(nodes@, i as int);
        }
        i += 1;
    }
    proof {
        assert(nodes@.take(i as int) =~= nodes@);
    }
    out
}

/// A copy of the template contents of a node.
pub fn copy_template(template: &Option<Vec<Node>>) -> (r: Option<Vec<Node>>)
    ensures
        template_view(r) == template_view(*template),
    decreases template, 0int,
{
    match template {
        Some(contents) => Some(copy_nodes(contents)),
        None => None,
    }
}

impl Node {
    /// A copy of the whole subtree.
    pub fn copy(&self) -> (r: Node)
        ensures
            r@ == self@,
        decreases self, 1int,
    {
        Node {
            data: self.data.copy(),
            children: copy_nodes(&self.children),
            template: copy_template(&self.template),
        }
    }

    /// The text of all text nodes of the subtree, in document order.
    #[verifier::loop_isolation(false)]
    pub fn text_contents(&self) -> (r: String)
        ensures
            r@ == tree_text(self@),
        decreases self,
    {
        let mut out: String = match &self.data {
            Data::Text { text } => text.clone(),
            _ => String::new(),
        };
        proof {
            lemma_node_views(self.children@);
        }
        let mut i: usize = 0;
        while i < self.children.len()
            invariant
                i <= self.children.len(),
                out@ == own_text(self@.data) + forest_text(self@.children.take(i as int)),
            decreases self.children.len() - i,
        {
            proof {
                assert(decreases_to!(self.children => self.children[i as int]));
                lemma_forest_text_take(self@.children, i as int);
            }
            let part = self.children[i].text_contents();
            out.append(part.as_str());
            proof {
                assert(out@ =~= own_text(self@.data) + forest_text(
                    self@.children.take(i + 1),
                ));
            }
            i += 1;
        }
        proof {
            assert(self@.children.take(i as int) =~= self@.children);
        }
        out
    }
}

} // verus!
