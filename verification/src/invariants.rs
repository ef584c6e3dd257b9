//! Segmentation keeps a tree well formed.

use crate::attrs::{find_plain, is_plain, lemma_find_plain_bounds, set_attr};
use crate::label::label;
use crate::segment::{
    has_element_child, lemma_mark_code_all, lemma_seg_children_grows, mark_code, qualifies, seg, seg_child, seg_children, span_unit, span_units, text_tree, with_plain, wrap_text,
};
use crate::tags::{is_code, is_skip};
use crate::text::{chunks, is_blank};
use crate::tree::{
    distinct_keys, is_template, tree_text, well_formed, AttrView, DataView, Tree,
};
use vstd::prelude::*;

verus! {

/// Where no place is found, no attribute from `from` on is the one looked for.
pub proof fn lemma_find_plain_none(attrs: Seq<AttrView>, local: Seq<char>, from: int)
    requires
        0 <= from <= attrs.len(),
        find_plain(attrs, local, from) >= attrs.len(),
    ensures
        forall|j: int| from <= j < attrs.len() ==> !is_plain(#[trigger] attrs[j], local),
    decreases attrs.len() - from,
{
    if from < attrs.len() {
        lemma_find_plain_none(attrs, local, from + 1);
    }
}

/// Setting an attribute keeps the names of the attributes distinct.
pub proof fn lemma_set_attr_distinct(attrs: Seq<AttrView>, local: Seq<char>, value: Seq<char>)
    requires
        distinct_keys(attrs),
    ensures
        distinct_keys(set_attr(attrs, local, value)),
{
    let i = find_plain(attrs, local, 0);
    let out = set_attr(attrs, local, value);
    lemma_find_plain_bounds(attrs, local, 0);
    if i < attrs.len() {
        assert(attrs[i].name.ns =~= Seq::<char>::empty());
        assert forall|a: int, b: int| 0 <= a < b < out.len() implies !((#[trigger] out[a]).name.ns
            == (#[trigger] out[b]).name.ns && out[a].name.local == out[b].name.local) by {
            assert(out[a].name.ns == attrs[a].name.ns && out[a].name.local == attrs[a].name.local);
            assert(out[b].name.ns == attrs[b].name.ns && out[b].name.local == attrs[b].name.local);
        }
    } else {
        lemma_find_plain_none(attrs, local, 0);
        assert forall|a: int, b: int| 0 <= a < b < out.len() implies !((#[trigger] out[a]).name.ns
            == (#[trigger] out[b]).name.ns && out[a].name.local == out[b].name.local) by {
            if b == attrs.len() {
                assert(!is_plain(attrs[a], local));
                assert(out[a] == attrs[a]);
            } else {
                assert(out[a] == attrs[a] && out[b] == attrs[b]);
            }
        }
    }
}

/// Setting an attribute keeps an element well formed.
pub proof fn lemma_with_plain_well_formed(t: Tree, local: Seq<char>, value: Seq<char>)
    requires
        t.data is Element,
        well_formed(t),
    ensures
        well_formed(with_plain(t, local, value)),
{
    lemma_set_attr_distinct(t.data->attrs, local, value);
}

/// Marking code keeps a tree well formed.
pub proof fn lemma_mark_code_well_formed(t: Tree)
    requires
        well_formed(t),
    ensures
        well_formed(mark_code(t)),
    decreases t,
{
    if t.data is Element && t.tag() == "code"@ {
        lemma_with_plain_well_formed(t, "class"@, "tts_code_block"@);
    } else {
        lemma_mark_code_all(t.children);
        let out = mark_code(t);
        assert forall|i: int| 0 <= i < out.children.len() implies well_formed(
            #[trigger] out.children[i],
        ) by {
            assert(well_formed(t.children[i]));
            lemma_mark_code_well_formed(t.children[i]);
        }
    }
}

/// The units made for chunks are well formed, one for each chunk.
pub proof fn lemma_span_units_well_formed(cs: Seq<Seq<char>>, next: nat)
    ensures
        forall|i: int| 0 <= i < cs.len() ==> well_formed(#[trigger] span_units(cs, next)[i]),
        span_units(cs, next).len() == cs.len(),
{
    reveal_strlit("span");
    reveal_strlit("template");
    assert("span"@.len() != "template"@.len());
    assert forall|i: int| 0 <= i < cs.len() implies well_formed(
        #[trigger] span_units(cs, next)[i],
    ) by {
        let u = span_unit(cs[i], (next + i) as nat);
        assert(!is_template(u.data));
        assert(well_formed(text_tree(cs[i])));
        assert(span_units(cs, next)[i] == u);
        assert(distinct_keys(u.data->attrs));
        assert(forall|k: int| 0 <= k < u.children.len() ==> well_formed(#[trigger] u.children[k]));
    }
}

/// Segmentation keeps one child well formed.
pub proof fn lemma_seg_child_well_formed(c: Tree, max: nat, next: nat, wrap: bool)
    requires
        well_formed(c),
    ensures
        well_formed(seg_child(c, max, next, wrap).0),
    decreases c, 2int,
{
    if wrap && c.data is Text && !is_blank(c.data->Text_text) {
        let cs = chunks(c.data->Text_text, max as int);
        lemma_span_units_well_formed(cs, next);
        let out = wrap_text(c.data->Text_text, max, next).0;
        reveal_strlit("span");
        reveal_strlit("template");
        assert("span"@.len() != "template"@.len());
        assert(!is_template(out.data));
        assert(distinct_keys(out.data->attrs));
    } else if c.data is Element || !wrap {
        lemma_seg_well_formed(c, max, next);
    }
}

/// Segmentation keeps the children of a node well formed, and their number.
pub proof fn lemma_seg_children_well_formed(ts: Seq<Tree>, max: nat, next: nat, wrap: bool)
    requires
        forall|i: int| 0 <= i < ts.len() ==> well_formed(#[trigger] ts[i]),
    ensures
        forall|i: int|
            0 <= i < ts.len() ==> well_formed(#[trigger] seg_children(ts, max, next, wrap).0[i]),
        seg_children(ts, max, next, wrap).0.len() == ts.len(),
    decreases ts, 0int,
{
    lemma_seg_children_grows(ts, max, next, wrap);
    if ts.len() > 0 {
        let init = ts.drop_last();
        assert forall|i: int| 0 <= i < init.len() implies well_formed(#[trigger] init[i]) by {
            assert(init[i] == ts[i]);
        }
        lemma_seg_children_well_formed(init, max, next, wrap);
        lemma_seg_children_grows(init, max, next, wrap);
        let mid = seg_children(init, max, next, wrap).1;
        assert(well_formed(ts.last()));
        lemma_seg_child_well_formed(ts.last(), max, mid, wrap);
    }
}

/// Segmentation keeps a tree well formed.
pub proof fn lemma_seg_well_formed(t: Tree, max: nat, next: nat)
    requires
        well_formed(t),
    ensures
        well_formed(seg(t, max, next).0),
    decreases t, 1int,
{
    match t.data {
        DataView::Element { name, attrs } => {
            if is_skip(name.local) {
            } else if is_code(name.local) || qualifies(t, max) {
                lemma_with_plain_well_formed(t, "id"@, label(next));
                lemma_mark_code_well_formed(with_plain(t, "id"@, label(next)));
            } else if !has_element_child(t) && tree_text(t).len() > 0 {
                lemma_span_units_well_formed(chunks(tree_text(t), max as int), next);
            } else {
                lemma_seg_children_well_formed(t.children, max, next, true);
            }
        },
        DataView::Document => {
            lemma_seg_children_well_formed(t.children, max, next, false);
        },
        _ => {},
    }
}

} // verus!
