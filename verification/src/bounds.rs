//! The length of the units of a segmented document.

use crate::label::label;
use crate::numbering::{
    labels, lemma_forest_labels_none, lemma_mark_code_labels, own_labels,
};
use crate::preservation::{lemma_mark_code_text, lemma_span_unit_text};
use crate::segment::{
    has_element_child, lemma_mark_code_all, lemma_seg_children_grows, mark_code, qualifies, seg,
    seg_child, seg_children, span_unit, span_units, text_tree, with_plain, wrap_text,
};
use crate::tags::{is_code, is_skip};
use crate::text::{chunks, is_blank, is_single_word, lemma_chunks};
use crate::tree::{tree_text, DataView, Tree};
use vstd::prelude::*;

verus! {

/// Whether the node, where it is an addressed unit, is within `max`
/// characters of text. A unit of code and a unit of a single word may be
/// longer.
pub open spec fn unit_fits(t: Tree, max: nat) -> bool {
    own_labels(t.data).len() > 0 ==> {
        ||| is_code(t.tag())
        ||| tree_text(t).len() <= max
        ||| is_single_word(tree_text(t))
    }
}

/// Whether every addressed unit of the tree is within `max` characters.
pub open spec fn units_fit(t: Tree, max: nat) -> bool
    decreases t,
{
    &&& unit_fits(t, max)
    &&& forall|i: int| 0 <= i < t.children.len() ==> units_fit(#[trigger] t.children[i], max)
}

/// A tree that carries no addressing value holds no unit that is too long.
pub proof fn lemma_unlabelled_fits(t: Tree, max: nat)
    requires
        labels(t).len() == 0,
    ensures
        units_fit(t, max),
    decreases t,
{
    lemma_forest_labels_none(t.children);
    assert forall|i: int| 0 <= i < t.children.len() implies units_fit(
        #[trigger] t.children[i],
        max,
    ) by {
        assert(labels(t.children[i]).len() == 0);
        lemma_unlabelled_fits(t.children[i], max);
    }
}

/// The units made for the chunks of a text are within `max` characters or a single word each.
pub proof fn lemma_span_units_fit(s: Seq<char>, max: nat, next: nat)
    ensures
        forall|i: int|
            0 <= i < chunks(s, max as int).len() ==> units_fit(
                #[trigger] span_units(chunks(s, max as int), next)[i],
                max,
            ),
{
    let cs = chunks(s, max as int);
    lemma_chunks(s, max as int);
    assert forall|i: int| 0 <= i < cs.len() implies units_fit(
        #[trigger] span_units(cs, next)[i],
        max,
    ) by {
        let u = span_unit(cs[i], (next + i) as nat);
        assert(span_units(cs, next)[i] == u);
        lemma_span_unit_text(cs[i], (next + i) as nat);
        let c = cs[i];
        assert(c.len() <= max || is_single_word(c));
        assert(units_fit(text_tree(cs[i]), max));
        assert(forall|k: int| 0 <= k < u.children.len() ==> units_fit(#[trigger] u.children[k], max));
    }
}

/// The length bound for one child.
pub proof fn lemma_seg_child_fits(c: Tree, max: nat, next: nat, wrap: bool)
    requires
        labels(c).len() == 0,
    ensures
        units_fit(seg_child(c, max, next, wrap).0, max),
    decreases c, 2int,
{
    if wrap && c.data is Text && !is_blank(c.data->Text_text) {
        lemma_span_units_fit(c.data->Text_text, max, next);
        let out = wrap_text(c.data->Text_text, max, next).0;
        assert(crate::attrs::find_plain(out.data->attrs, "id"@, 0) == 0);
    } else if c.data is Element || !wrap {
        lemma_seg_fits(c, max, next);
    } else {
        lemma_unlabelled_fits(c, max);
    }
}

/// The length bound for the children of a node.
pub proof fn lemma_seg_children_fit(ts: Seq<Tree>, max: nat, next: nat, wrap: bool)
    requires
        forall|i: int| 0 <= i < ts.len() ==> (#[trigger] labels(ts[i])).len() == 0,
    ensures
        seg_children(ts, max, next, wrap).0.len() == ts.len(),
        forall|i: int|
            0 <= i < ts.len() ==> units_fit(#[trigger] seg_children(ts, max, next, wrap).0[i], max),
    decreases ts, 0int,
{
    lemma_seg_children_grows(ts, max, next, wrap);
    if ts.len() > 0 {
        let init = ts.drop_last();
        assert forall|i: int| 0 <= i < init.len() implies (#[trigger] labels(init[i])).len()
            == 0 by {
            assert(init[i] == ts[i]);
        }
        lemma_seg_children_fit(init, max, next, wrap);
        lemma_seg_children_grows(init, max, next, wrap);
        assert(labels(ts.last()).len() == 0);
        lemma_seg_child_fits(ts.last(), max, seg_children(init, max, next, wrap).1, wrap);
    }
}

/// In a tree that carried no addressing value, every unit that segmentation
/// addresses is within `max` characters of text, unless it is a unit of code
/// or holds a single word.
pub proof fn lemma_seg_fits(t: Tree, max: nat, next: nat)
    requires
        labels(t).len() == 0,
    ensures
        units_fit(seg(t, max, next).0, max),
    decreases t, 1int,
{
    lemma_forest_labels_none(t.children);
    assert(own_labels(t.data).len() == 0);
    match t.data {
        DataView::Element { name, attrs } => {
            if is_skip(name.local) {
                lemma_unlabelled_fits(t, max);
            } else if is_code(name.local) || qualifies(t, max) {
                let tagged = with_plain(t, "id"@, label(next));
                let out = mark_code(tagged);
                lemma_mark_code_text(tagged);
                assert(tree_text(tagged) == tree_text(t));
                assert(out.tag() == t.tag());
                if tagged.tag() == "code"@ {
                    assert(out.children == t.children);
                    assert forall|i: int| 0 <= i < out.children.len() implies units_fit(
                        #[trigger] out.children[i],
                        max,
                    ) by {
                        assert(labels(t.children[i]).len() == 0);
                        lemma_unlabelled_fits(t.children[i], max);
                    }
                } else {
                    lemma_mark_code_all(t.children);
                    assert forall|i: int| 0 <= i < out.children.len() implies units_fit(
                        #[trigger] out.children[i],
                        max,
                    ) by {
                        assert(labels(t.children[i]).len() == 0);
                        lemma_mark_code_labels(t.children[i]);
                        lemma_unlabelled_fits(out.children[i], max);
                    }
                }
            } else if !has_element_child(t) && tree_text(t).len() > 0 {
                lemma_span_units_fit(tree_text(t), max, next);
            } else {
                lemma_seg_children_fit(t.children, max, next, true);
            }
        },
        DataView::Document => {
            lemma_seg_children_fit(t.children, max, next, false);
        },
        _ => {
            lemma_unlabelled_fits(t, max);
        },
    }
}

} // verus!
