//! The entry point: markup in, markup with addressed units out.

use crate::dom::{fits_parser, markup, parse_tree, parsed, render_tree, MAX_MARKUP_CHARS};
use crate::invariants::lemma_seg_well_formed;
use crate::numbering::{
    forest_labels, label_run, labels, lemma_forest_labels_none, lemma_seg_labels, own_labels,
};
use crate::preservation::{lemma_forest_text_one, lemma_seg_text};
use crate::segment::{
    lemma_seg_children_grows, lemma_seg_data, seg, seg_child, seg_children, segment_node,
    SegmentError,
};
use crate::tags::{lemma_html_is_plain, same_text};
use crate::tree::{
    forest_text, html_ns, lemma_node_views, text_is_leaf, tree_text, well_formed, Data, DataView,
    Node, Tree,
};
use vstd::prelude::*;

verus! {

/// Whether `root` is a document that holds nothing but an element `html`:
/// the root element that a parser wraps a fragment in.
pub open spec fn is_wrapped(root: Tree) -> bool {
    &&& root.data is Document
    &&& root.children.len() == 1
    &&& root.children[0].data is Element
    &&& root.children[0].tag() == "html"@
}

/// The nodes of the fragment that `root` stands for: those below the root
/// element that a parser wrapped them in, else those of the document, else
/// the node itself.
pub open spec fn body_of(root: Tree) -> Seq<Tree> {
    if is_wrapped(root) {
        root.children[0].children
    } else if root.data is Document {
        root.children
    } else {
        seq![root]
    }
}

/// The fragment of `root` as a document of its own.
pub open spec fn fragment_of(root: Tree) -> Tree {
    Tree { data: DataView::Document, children: body_of(root), template: None }
}

/// The document that is written out for `root`: its fragment, segmented.
pub open spec fn written(root: Tree, max: nat, start: nat) -> Tree {
    fragment_of(seg(root, max, start).0)
}

/// What processing gives for the parsed document `root`: the markup of the
/// segmented fragment with the counter after its last unit, or the error.
pub open spec fn outcome(root: Tree, max: nat, start: nat) -> Result<(Seq<char>, nat), SegmentError> {
    if seg(root, max, start).1 > u32::MAX {
        Err(SegmentError::CounterOverflow)
    } else {
        match markup(written(root, max, start)) {
            Some(text) => Ok((text, seg(root, max, start).1)),
            None => Err(SegmentError::Serialize),
        }
    }
}

/// What processing gives for the markup `html`.
pub open spec fn outcome_of_markup(html: Seq<char>, max: nat, start: nat) -> Result<
    (Seq<char>, nat),
    SegmentError,
> {
    if html.len() > MAX_MARKUP_CHARS {
        Err(SegmentError::Parse)
    } else {
        outcome(parsed(html, html_ns(), "body"@), max, start)
    }
}

/// Processing is a function of its input: the same markup, the same maximum
/// length and the same first number give the same markup, the same counter
/// and the same error.
pub proof fn lemma_outcome_is_determined(
    html_a: Seq<char>,
    html_b: Seq<char>,
    max_a: nat,
    max_b: nat,
    start_a: nat,
    start_b: nat,
)
    requires
        html_a == html_b,
        max_a == max_b,
        start_a == start_b,
    ensures
        outcome_of_markup(html_a, max_a, start_a) == outcome_of_markup(html_b, max_b, start_b),
{
}

/// The document that is written out for a tree that carried no addressing
/// value carries, in document order, exactly the values of the units from
/// `start` up to the counter that is handed back.
pub proof fn lemma_written_labels(root: Tree, max: nat, start: nat)
    requires
        labels(root).len() == 0,
    ensures
        seg(root, max, start).1 >= start,
        labels(written(root, max, start)) == label_run(
            start,
            (seg(root, max, start).1 - start) as nat,
        ),
{
    let (out, end) = seg(root, max, start);
    lemma_seg_labels(root, max, start);
    lemma_seg_data(root, max, start);
    lemma_html_is_plain();
    let empty = Seq::<Seq<char>>::empty();
    assert(forest_labels(Seq::<Tree>::empty()) =~= empty);
    if root.data is Document {
        lemma_seg_children_grows(root.children, max, start, false);
        assert(out.children.len() == root.children.len());
        assert(own_labels(out.data) =~= empty);
        assert(labels(out) =~= forest_labels(out.children));
        if root.children.len() == 1 {
            let e = root.children[0];
            assert(root.children.drop_last() =~= Seq::<Tree>::empty());
            assert(seg_children(root.children.drop_last(), max, start, false) == (
                Seq::<Tree>::empty(),
                start,
            ));
            assert(seg_child(e, max, start, false) == seg(e, max, start));
            let out_e = seg(e, max, start).0;
            assert(out.children =~= seq![out_e]);
            lemma_seg_data(e, max, start);
            assert(out.children.drop_last() =~= Seq::<Tree>::empty());
            assert(forest_labels(out.children) =~= labels(out_e));
            if is_wrapped(root) {
                assert(out_e.data == e.data);
                lemma_forest_labels_none(root.children);
                assert(forest_labels(root.children) =~= empty);
                assert(labels(e).len() == 0);
                assert(own_labels(e.data) =~= empty);
                assert(labels(out_e) =~= forest_labels(out_e.children));
                assert(is_wrapped(out));
                assert(labels(written(root, max, start)) =~= forest_labels(out_e.children));
            } else {
                assert(!is_wrapped(out));
                assert(labels(written(root, max, start)) =~= forest_labels(out.children));
            }
        } else {
            assert(!is_wrapped(out));
            assert(labels(written(root, max, start)) =~= forest_labels(out.children));
        }
    } else {
        assert(!(out.data is Document));
        assert(seq![out].drop_last() =~= Seq::<Tree>::empty());
        assert(forest_labels(seq![out]) =~= labels(out));
        assert(labels(written(root, max, start)) =~= forest_labels(seq![out]));
    }
}

/// The text of the document that is written out is the text of the
/// fragment it was made from.
pub proof fn lemma_written_text(root: Tree, max: nat, start: nat)
    requires
        text_is_leaf(root),
    ensures
        tree_text(written(root, max, start)) == tree_text(fragment_of(root)),
{
    let (out, end) = seg(root, max, start);
    lemma_seg_text(root, max, start);
    lemma_seg_data(root, max, start);
    lemma_html_is_plain();
    let none = Seq::<char>::empty();
    if root.data is Document {
        lemma_seg_children_grows(root.children, max, start, false);
        assert(tree_text(out) =~= forest_text(out.children));
        assert(tree_text(root) =~= forest_text(root.children));
        if root.children.len() == 1 {
            let e = root.children[0];
            assert(root.children.drop_last() =~= Seq::<Tree>::empty());
            assert(seg_children(root.children.drop_last(), max, start, false) == (
                Seq::<Tree>::empty(),
                start,
            ));
            assert(seg_child(e, max, start, false) == seg(e, max, start));
            let out_e = seg(e, max, start).0;
            assert(out.children =~= seq![out_e]);
            lemma_seg_data(e, max, start);
            if is_wrapped(root) {
                assert(is_wrapped(out));
                assert(text_is_leaf(e));
                lemma_seg_text(e, max, start);
                assert(tree_text(out_e) =~= forest_text(out_e.children));
                assert(tree_text(e) =~= forest_text(e.children));
                assert(tree_text(written(root, max, start)) =~= forest_text(out_e.children));
                assert(tree_text(fragment_of(root)) =~= forest_text(e.children));
            } else {
                assert(!is_wrapped(out));
                assert(tree_text(written(root, max, start)) =~= forest_text(out.children));
                assert(tree_text(fragment_of(root)) =~= forest_text(root.children));
            }
        } else {
            assert(!is_wrapped(out));
            assert(tree_text(written(root, max, start)) =~= forest_text(out.children));
            assert(tree_text(fragment_of(root)) =~= forest_text(root.children));
        }
    } else {
        assert(!(out.data is Document));
        lemma_forest_text_one(out);
        lemma_forest_text_one(root);
        assert(tree_text(written(root, max, start)) =~= forest_text(seq![out]));
        assert(tree_text(fragment_of(root)) =~= forest_text(seq![root]));
    }
}

/// Two fragments processed one after the other, the second from the counter
/// that the first left: the values of the first document followed by those
/// of the second are the values of the units from `start` up to the last
/// counter, none left out and none twice.
pub proof fn lemma_threaded_numbering(a: Tree, b: Tree, max: nat, start: nat)
    requires
        labels(a).len() == 0,
        labels(b).len() == 0,
    ensures
        ({
            let mid = seg(a, max, start).1;
            let end = seg(b, max, mid).1;
            &&& start <= mid <= end
            &&& labels(written(a, max, start)) == label_run(start, (mid - start) as nat)
            &&& labels(written(b, max, mid)) == label_run(mid, (end - mid) as nat)
            &&& labels(written(a, max, start)) + labels(written(b, max, mid)) == label_run(
                start,
                (end - start) as nat,
            )
            &&& forall|i: int, j: int|
                0 <= i < j < end - start ==> (#[trigger] label_run(
                    start,
                    (end - start) as nat,
                )[i]) != (#[trigger] label_run(start, (end - start) as nat)[j])
        }),
{
    crate::numbering::lemma_label_run_distinct(
        start,
        (seg(b, max, seg(a, max, start).1).1 - start) as nat,
    );
    let mid = seg(a, max, start).1;
    let end = seg(b, max, mid).1;
    lemma_written_labels(a, max, start);
    lemma_written_labels(b, max, mid);
    crate::numbering::lemma_label_run_concat(start, (mid - start) as nat, (end - mid) as nat);
}

/// The fragment of `root` as a document of its own.
pub fn into_fragment(root: Node) -> (r: Node)
    ensures
        r@ == fragment_of(root@),
{
    let is_document = match &root.data {
        Data::Document => true,
        _ => false,
    };
    proof {
        lemma_node_views(root.children@);
    }
    if !is_document {
        let mut kids: Vec<Node> = Vec::new();
        proof {
            lemma_node_views(kids@);
        }
        kids.push(root);
        proof {
            lemma_node_views(kids@);
            assert(crate::tree::node_views(kids@) =~= seq![root@]);
        }
        return Node { data: Data::Document, children: kids, template: None };
    }
    let wrapped = root.children.len() == 1 && match root.children[0].tag_name() {
        Some(tag) => same_text(tag, "html"),
        None => false,
    };
    let Node { data: _, children, template: _ } = root;
    let mut kids = children;
    if wrapped {
        let first = kids.remove(0);
        let Node { data: _, children: inner, template: _ } = first;
        Node { data: Data::Document, children: inner, template: None }
    } else {
        Node { data: Data::Document, children: kids, template: None }
    }
}

/// The fragment of a well-formed tree is well formed.
pub proof fn lemma_fragment_well_formed(root: Tree)
    requires
        well_formed(root),
    ensures
        well_formed(fragment_of(root)),
{
    let f = fragment_of(root);
    reveal_strlit("template");
    if is_wrapped(root) {
        assert(well_formed(root.children[0]));
        assert forall|i: int| 0 <= i < f.children.len() implies well_formed(
            #[trigger] f.children[i],
        ) by {
            assert(well_formed(root.children[0].children[i]));
        }
    } else if root.data is Document {
        assert forall|i: int| 0 <= i < f.children.len() implies well_formed(
            #[trigger] f.children[i],
        ) by {
            assert(well_formed(root.children[i]));
        }
    } else {
        assert forall|i: int| 0 <= i < f.children.len() implies well_formed(
            #[trigger] f.children[i],
        ) by {
            assert(f.children[i] == root);
        }
    }
}

/// Segments the document tree `root` and writes its fragment out. The
/// units are numbered from `start_id` on, which is left at the number after
/// the last unit; on an error it is left as it was. Where the tree carried
/// no addressing value, the document written carries exactly those of the
/// units numbered; where its text nodes are leaves, its text is kept.
pub fn process_tree(root: &Node, max_length: usize, start_id: &mut u32) -> (r: Result<
    String,
    SegmentError,
>)
    requires
        well_formed(root@),
    ensures
        match outcome(root@, max_length as nat, *old(start_id) as nat) {
            Ok((text, end)) => {
                &&& r matches Ok(s)
                &&& s@ == text
                &&& *final(start_id) == end
            },
            Err(e) => r == Err::<String, SegmentError>(e) && *final(start_id) == *old(start_id),
        },
        labels(root@).len() == 0 ==> labels(
            written(root@, max_length as nat, *old(start_id) as nat),
        ) == label_run(
            *old(start_id) as nat,
            (seg(root@, max_length as nat, *old(start_id) as nat).1 - *old(start_id)) as nat,
        ),
        text_is_leaf(root@) ==> tree_text(
            written(root@, max_length as nat, *old(start_id) as nat),
        ) == tree_text(fragment_of(root@)),
{
    let first: u32 = *start_id;
    proof {
        if labels(root@).len() == 0 {
            lemma_written_labels(root@, max_length as nat, first as nat);
        }
        if text_is_leaf(root@) {
            lemma_written_text(root@, max_length as nat, first as nat);
        }
    }
    match segment_node(root, max_length, first) {
        Ok((out, end)) => {
            proof {
                lemma_seg_well_formed(root@, max_length as nat, first as nat);
                lemma_fragment_well_formed(out@);
            }
            let fragment = into_fragment(out);
            match render_tree(&fragment) {
                Ok(s) => {
                    *start_id = end;
                    Ok(s)
                },
                Err(e) => Err(e),
            }
        },
        Err(e) => Err(e),
    }
}

/// Parses `html` as the content of a `body` element, segments it into units
/// numbered from `start_id` on, and writes the result out as markup.
/// `start_id` is left at the number after the last unit; on an error it is
/// left as it was. The text of the document written is the text of the
/// fragment parsed, and where that carried no addressing value, the document
/// written carries exactly those of the units numbered, in document order.
pub fn process_html(html: &str, max_length: usize, start_id: &mut u32) -> (r: Result<
    String,
    SegmentError,
>)
    ensures
        match outcome_of_markup(html@, max_length as nat, *old(start_id) as nat) {
            Ok((text, end)) => {
                &&& r matches Ok(s)
                &&& s@ == text
                &&& *final(start_id) == end
            },
            Err(e) => r == Err::<String, SegmentError>(e) && *final(start_id) == *old(start_id),
        },
        html@.len() <= MAX_MARKUP_CHARS ==> ({
            let root = parsed(html@, html_ns(), "body"@);
            let start = *old(start_id) as nat;
            let out = written(root, max_length as nat, start);
            &&& tree_text(out) == tree_text(fragment_of(root))
            &&& labels(root).len() == 0 ==> labels(out) == label_run(
                start,
                (seg(root, max_length as nat, start).1 - start) as nat,
            )
        }),
{
    if !fits_parser(html) {
        return Err(SegmentError::Parse);
    }
    let root = parse_tree(html);
    process_tree(&root, max_length, start_id)
}

} // verus!
