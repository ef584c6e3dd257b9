//! What segmentation passes through: no unit is addressed below an element
//! of a tag to skip.

use crate::label::label;
use crate::numbering::{
    labels, lemma_forest_labels_none, lemma_mark_code_labels,
};
use crate::segment::{
    has_element_child, lemma_mark_code_all, lemma_seg_children_grows, mark_code, qualifies, seg,
    seg_child, seg_children, span_unit, span_units, text_tree, with_plain,
};
use crate::tags::{is_code, is_skip, lemma_span_is_plain};
use crate::text::{chunks, is_blank};
use crate::tree::{tree_text, DataView, Tree};
use vstd::prelude::*;

verus! {

/// Whether no addressing value is carried at or below any element of the
/// tree whose tag is one to skip.
pub open spec fn skip_clean(t: Tree) -> bool
    decreases t,
{
    &&& t.data is Element && is_skip(t.tag()) ==> labels(t).len() == 0
    &&& forall|i: int| 0 <= i < t.children.len() ==> skip_clean(#[trigger] t.children[i])
}

/// An element of a tag to skip comes back as it is, and the counter with it.
pub proof fn lemma_skip_untouched(t: Tree, max: nat, next: nat)
    requires
        t.data is Element,
        is_skip(t.tag()),
    ensures
        seg(t, max, next) == (t, next),
{
}

/// A tree that carries no addressing value carries none below its elements
/// to skip.
pub proof fn lemma_unlabelled_is_clean(t: Tree)
    requires
        labels(t).len() == 0,
    ensures
        skip_clean(t),
    decreases t,
{
    lemma_forest_labels_none(t.children);
    assert forall|i: int| 0 <= i < t.children.len() implies skip_clean(#[trigger] t.children[i]) by {
        assert(labels(t.children[i]).len() == 0);
        lemma_unlabelled_is_clean(t.children[i]);
    }
}

/// The units made for chunks hold no element to skip.
pub proof fn lemma_span_units_clean(cs: Seq<Seq<char>>, next: nat)
    ensures
        forall|i: int| 0 <= i < cs.len() ==> skip_clean(#[trigger] span_units(cs, next)[i]),
{
    lemma_span_is_plain();
    assert forall|i: int| 0 <= i < cs.len() implies skip_clean(
        #[trigger] span_units(cs, next)[i],
    ) by {
        let u = span_unit(cs[i], (next + i) as nat);
        assert(span_units(cs, next)[i] == u);
        assert(skip_clean(text_tree(cs[i])));
        assert(forall|k: int| 0 <= k < u.children.len() ==> skip_clean(#[trigger] u.children[k]));
    }
}

/// The exclusion for one child.
pub proof fn lemma_seg_child_clean(c: Tree, max: nat, next: nat, wrap: bool)
    requires
        labels(c).len() == 0,
    ensures
        skip_clean(seg_child(c, max, next, wrap).0),
    decreases c, 2int,
{
    if wrap && c.data is Text && !is_blank(c.data->Text_text) {
        lemma_span_is_plain();
        lemma_span_units_clean(chunks(c.data->Text_text, max as int), next);
    } else if c.data is Element || !wrap {
        lemma_seg_clean(c, max, next);
    } else {
        lemma_unlabelled_is_clean(c);
    }
}

/// The exclusion for the children of a node.
pub proof fn lemma_seg_children_clean(ts: Seq<Tree>, max: nat, next: nat, wrap: bool)
    requires
        forall|i: int| 0 <= i < ts.len() ==> (#[trigger] labels(ts[i])).len() == 0,
    ensures
        seg_children(ts, max, next, wrap).0.len() == ts.len(),
        forall|i: int|
            0 <= i < ts.len() ==> skip_clean(#[trigger] seg_children(ts, max, next, wrap).0[i]),
    decreases ts, 0int,
{
    lemma_seg_children_grows(ts, max, next, wrap);
    if ts.len() > 0 {
        let init = ts.drop_last();
        assert forall|i: int| 0 <= i < init.len() implies (#[trigger] labels(init[i])).len()
            == 0 by {
            assert(init[i] == ts[i]);
        }
        lemma_seg_children_clean(init, max, next, wrap);
        lemma_seg_children_grows(init, max, next, wrap);
        assert(labels(ts.last()).len() == 0);
        lemma_seg_child_clean(ts.last(), max, seg_children(init, max, next, wrap).1, wrap);
    }
}

/// In a tree that carried no addressing value, segmentation addresses no
/// element of a tag to skip and nothing below one.
pub proof fn lemma_seg_clean(t: Tree, max: nat, next: nat)
    requires
        labels(t).len() == 0,
    ensures
        skip_clean(seg(t, max, next).0),
    decreases t, 1int,
{
    lemma_forest_labels_none(t.children);
    match t.data {
        DataView::Element { name, attrs } => {
            if is_skip(name.local) {
                lemma_unlabelled_is_clean(t);
            } else if is_code(name.local) || qualifies(t, max) {
                let tagged = with_plain(t, "id"@, label(next));
                let out = mark_code(tagged);
                if tagged.tag() == "code"@ {
                    assert(out.children == t.children);
                    assert forall|i: int| 0 <= i < out.children.len() implies skip_clean(
                        #[trigger] out.children[i],
                    ) by {
                        assert(labels(t.children[i]).len() == 0);
                        lemma_unlabelled_is_clean(t.children[i]);
                    }
                } else {
                    lemma_mark_code_all(t.children);
                    assert forall|i: int| 0 <= i < out.children.len() implies skip_clean(
                        #[trigger] out.children[i],
                    ) by {
                        assert(labels(t.children[i]).len() == 0);
                        lemma_mark_code_labels(t.children[i]);
                        lemma_unlabelled_is_clean(out.children[i]);
                    }
                }
            } else if !has_element_child(t) && tree_text(t).len() > 0 {
                lemma_span_units_clean(chunks(tree_text(t), max as int), next);
            } else {
                lemma_seg_children_clean(t.children, max, next, true);
            }
        },
        DataView::Document => {
            lemma_seg_children_clean(t.children, max, next, false);
        },
        _ => {
            lemma_unlabelled_is_clean(t);
        },
    }
}

} // verus!
