//! Segmentation keeps the text of a document.

use crate::segment::{
    has_element_child, mark_code, mark_code_all, qualifies, seg, seg_child, seg_children, span_unit, span_units, text_tree, with_plain,
};
use crate::tags::{is_code, is_skip};
use crate::text::{chunks, is_blank, join, lemma_chunks};
use crate::tree::{forest_text, text_is_leaf, tree_text, DataView, Tree};
use vstd::prelude::*;

verus! {

/// The text of a forest of one tree is the text of that tree.
pub proof fn lemma_forest_text_one(t: Tree)
    ensures
        forest_text(seq![t]) == tree_text(t),
{
    assert(seq![t].drop_last() =~= Seq::<Tree>::empty());
    assert(forest_text(Seq::<Tree>::empty()) =~= Seq::<char>::empty());
    assert(forest_text(seq![t]) =~= tree_text(t));
}

/// The text of the unit made for a chunk is the chunk.
pub proof fn lemma_span_unit_text(chunk: Seq<char>, n: nat)
    ensures
        tree_text(span_unit(chunk, n)) == chunk,
{
    let inner = text_tree(chunk);
    assert(forest_text(inner.children) =~= Seq::<char>::empty());
    assert(tree_text(inner) =~= chunk);
    lemma_forest_text_one(inner);
    assert(tree_text(span_unit(chunk, n)) =~= chunk);
}

/// The text of the units made for chunks is the chunks joined.
pub proof fn lemma_span_units_text(cs: Seq<Seq<char>>, next: nat)
    ensures
        forest_text(span_units(cs, next)) == join(cs),
    decreases cs.len(),
{
    if cs.len() > 0 {
        let units = span_units(cs, next);
        assert(units.drop_last() =~= span_units(cs.drop_last(), next));
        lemma_span_units_text(cs.drop_last(), next);
        lemma_span_unit_text(cs.last(), (next + cs.len() - 1) as nat);
    }
}

/// Marking code keeps the text of a forest.
pub proof fn lemma_mark_code_all_text(ts: Seq<Tree>)
    ensures
        forest_text(mark_code_all(ts)) == forest_text(ts),
    decreases ts, 0int,
{
    if ts.len() > 0 {
        lemma_mark_code_all_text(ts.drop_last());
        lemma_mark_code_text(ts.last());
        assert(mark_code_all(ts).drop_last() =~= mark_code_all(ts.drop_last()));
    }
}

/// Marking code keeps the text.
pub proof fn lemma_mark_code_text(t: Tree)
    ensures
        tree_text(mark_code(t)) == tree_text(t),
    decreases t, 1int,
{
    if t.data is Element && t.tag() == "code"@ {
    } else {
        lemma_mark_code_all_text(t.children);
    }
}

/// Segmentation keeps the text of one child.
pub proof fn lemma_seg_child_text(c: Tree, max: nat, next: nat, wrap: bool)
    requires
        text_is_leaf(c),
    ensures
        tree_text(seg_child(c, max, next, wrap).0) == tree_text(c),
    decreases c, 2int,
{
    if wrap && c.data is Text && !is_blank(c.data->Text_text) {
        let text = c.data->Text_text;
        lemma_chunks(text, max as int);
        lemma_span_units_text(chunks(text, max as int), next);
        assert(forest_text(c.children) =~= Seq::<char>::empty());
        assert(tree_text(c) =~= text);
    } else if c.data is Element || !wrap {
        lemma_seg_text(c, max, next);
    }
}

/// Segmentation keeps the text of the children of a node.
pub proof fn lemma_seg_children_text(ts: Seq<Tree>, max: nat, next: nat, wrap: bool)
    requires
        forall|i: int| 0 <= i < ts.len() ==> text_is_leaf(#[trigger] ts[i]),
    ensures
        forest_text(seg_children(ts, max, next, wrap).0) == forest_text(ts),
    decreases ts, 0int,
{
    if ts.len() > 0 {
        assert forall|i: int| 0 <= i < ts.drop_last().len() implies text_is_leaf(
            #[trigger] ts.drop_last()[i],
        ) by {
            assert(ts.drop_last()[i] == ts[i]);
        }
        assert(text_is_leaf(ts.last()));
        lemma_seg_children_text(ts.drop_last(), max, next, wrap);
        let mid = seg_children(ts.drop_last(), max, next, wrap).1;
        lemma_seg_child_text(ts.last(), max, mid, wrap);
        assert(seg_children(ts, max, next, wrap).0.drop_last() =~= seg_children(
            ts.drop_last(),
            max,
            next,
            wrap,
        ).0);
    }
}

/// Segmentation keeps the text of a tree: the text of all text nodes of the
/// result, in document order, is that of the tree it was made from.
pub proof fn lemma_seg_text(t: Tree, max: nat, next: nat)
    requires
        text_is_leaf(t),
    ensures
        tree_text(seg(t, max, next).0) == tree_text(t),
    decreases t, 1int,
{
    match t.data {
        DataView::Element { name, attrs } => {
            if is_skip(name.local) {
            } else if is_code(name.local) || qualifies(t, max) {
                lemma_mark_code_text(with_plain(t, "id"@, crate::label::label(next)));
            } else if !has_element_child(t) && tree_text(t).len() > 0 {
                lemma_chunks(tree_text(t), max as int);
                lemma_span_units_text(chunks(tree_text(t), max as int), next);
            } else {
                lemma_seg_children_text(t.children, max, next, true);
            }
        },
        DataView::Document => {
            lemma_seg_children_text(t.children, max, next, false);
        },
        _ => {},
    }
}

} // verus!
