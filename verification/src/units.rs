//! The units that one segmentation addresses, whatever the tree carried
//! before.

use crate::attrs::find_plain;
use crate::label::label;
use crate::numbering::{id_value, lemma_id_after_set_class, lemma_id_after_set_id};
use crate::preservation::{lemma_mark_code_text, lemma_span_unit_text};
use crate::segment::{
    has_element_child, qualifies, seg, seg_child, seg_children, sealed, span_unit,
    span_units, with_plain,
};
use crate::tags::{is_code, is_skip, lemma_span_is_plain};
use crate::text::{chunks, is_blank, is_single_word, lemma_chunks};
use crate::tree::{tree_text, DataView, Tree};
use vstd::prelude::*;

verus! {

/// The units that segmentation of the children `ts` addresses, in document
/// order, as they stand in the result.
pub open spec fn units_of_children(ts: Seq<Tree>, max: nat, next: nat, wrap: bool) -> Seq<Tree>
    decreases ts, 0int,
{
    if ts.len() == 0 {
        Seq::empty()
    } else {
        let mid = seg_children(ts.drop_last(), max, next, wrap).1;
        units_of_children(ts.drop_last(), max, next, wrap) + units_of_child(
            ts.last(),
            max,
            mid,
            wrap,
        )
    }
}

/// The units that segmentation of one child addresses.
pub open spec fn units_of_child(c: Tree, max: nat, next: nat, wrap: bool) -> Seq<Tree>
    decreases c, 2int,
{
    if wrap && c.data is Text && !is_blank(c.data->Text_text) {
        span_units(chunks(c.data->Text_text, max as int), next)
    } else if c.data is Element || !wrap {
        units_of(c, max, next)
    } else {
        Seq::empty()
    }
}

/// The units that segmentation of `t` addresses, in document order, as they
/// stand in the result: an element sealed as a whole, or the wrappers made
/// for the chunks of a text. Nothing below an element to skip is among them,
/// since segmentation does not go there.
pub open spec fn units_of(t: Tree, max: nat, next: nat) -> Seq<Tree>
    decreases t, 1int,
{
    match t.data {
        DataView::Element { name, attrs } => {
            if is_skip(name.local) {
                Seq::empty()
            } else if is_code(name.local) || qualifies(t, max) {
                seq![sealed(t, next)]
            } else if !has_element_child(t) && tree_text(t).len() > 0 {
                span_units(chunks(tree_text(t), max as int), next)
            } else {
                units_of_children(t.children, max, next, true)
            }
        },
        DataView::Document => units_of_children(t.children, max, next, false),
        _ => Seq::empty(),
    }
}

/// Whether the units `us` carry the addressing values from `first` on, one
/// after the other.
pub open spec fn numbered_from(us: Seq<Tree>, first: nat) -> bool {
    forall|i: int|
        0 <= i < us.len() ==> id_value((#[trigger] us[i]).data) == Some(label((first + i) as nat))
}

/// Whether a unit is an element that is not skipped and is within `max`
/// characters of text, or holds code, or holds a single word.
pub open spec fn is_fitting_unit(u: Tree, max: nat) -> bool {
    &&& u.data is Element
    &&& !is_skip(u.tag())
    &&& {
        ||| is_code(u.tag())
        ||| tree_text(u).len() <= max
        ||| is_single_word(tree_text(u))
    }
}

/// Whether every unit of `us` is a fitting unit.
pub open spec fn all_fitting(us: Seq<Tree>, max: nat) -> bool {
    forall|i: int| 0 <= i < us.len() ==> is_fitting_unit(#[trigger] us[i], max)
}

/// A sealed element carries the addressing value it was sealed with.
pub proof fn lemma_sealed_id(t: Tree, n: nat)
    requires
        t.data is Element,
    ensures
        id_value(sealed(t, n).data) == Some(label(n)),
        sealed(t, n).data is Element,
        sealed(t, n).tag() == t.tag(),
        tree_text(sealed(t, n)) == tree_text(t),
{
    let tagged = with_plain(t, "id"@, label(n));
    lemma_id_after_set_id(t, label(n));
    lemma_mark_code_text(tagged);
    if tagged.tag() == "code"@ {
        lemma_id_after_set_class(tagged, "tts_code_block"@);
    }
}

/// The wrappers made for the chunks of a text are fitting units, numbered
/// from `next` on.
pub proof fn lemma_span_units_are_units(s: Seq<char>, max: nat, next: nat)
    ensures
        span_units(chunks(s, max as int), next).len() == chunks(s, max as int).len(),
        numbered_from(span_units(chunks(s, max as int), next), next),
        all_fitting(span_units(chunks(s, max as int), next), max),
{
    let cs = chunks(s, max as int);
    let us = span_units(cs, next);
    lemma_chunks(s, max as int);
    lemma_span_is_plain();
    assert forall|i: int| 0 <= i < us.len() implies id_value((#[trigger] us[i]).data) == Some(
        label((next + i) as nat),
    ) && is_fitting_unit(us[i], max) by {
        let u = span_unit(cs[i], (next + i) as nat);
        assert(us[i] == u);
        assert(find_plain(u.data->attrs, "id"@, 0) == 0);
        lemma_span_unit_text(cs[i], (next + i) as nat);
        let c = cs[i];
        assert(c.len() <= max || is_single_word(c));
    }
}

/// The units of one child are as many as the counter moves on by; they are
/// numbered from the counter on and are fitting units.
pub proof fn lemma_units_of_child(c: Tree, max: nat, next: nat, wrap: bool)
    ensures
        seg_child(c, max, next, wrap).1 == next + units_of_child(c, max, next, wrap).len(),
        numbered_from(units_of_child(c, max, next, wrap), next),
        all_fitting(units_of_child(c, max, next, wrap), max),
    decreases c, 2int,
{
    if wrap && c.data is Text && !is_blank(c.data->Text_text) {
        lemma_span_units_are_units(c.data->Text_text, max, next);
    } else if c.data is Element || !wrap {
        lemma_units_of(c, max, next);
    }
}

/// The units of the children of a node are as many as the counter moves on
/// by; they are numbered from the counter on and are fitting units.
pub proof fn lemma_units_of_children(ts: Seq<Tree>, max: nat, next: nat, wrap: bool)
    ensures
        seg_children(ts, max, next, wrap).1 == next + units_of_children(ts, max, next, wrap).len(),
        numbered_from(units_of_children(ts, max, next, wrap), next),
        all_fitting(units_of_children(ts, max, next, wrap), max),
    decreases ts, 0int,
{
    if ts.len() > 0 {
        let init = ts.drop_last();
        lemma_units_of_children(init, max, next, wrap);
        let mid = seg_children(init, max, next, wrap).1;
        lemma_units_of_child(ts.last(), max, mid, wrap);
        let a = units_of_children(init, max, next, wrap);
        let b = units_of_child(ts.last(), max, mid, wrap);
        let all = units_of_children(ts, max, next, wrap);
        assert(all == a + b);
        assert forall|i: int| 0 <= i < all.len() implies id_value((#[trigger] all[i]).data) == Some(
            label((next + i) as nat),
        ) && is_fitting_unit(all[i], max) by {
            if i < a.len() {
                assert(all[i] == a[i]);
            } else {
                assert(all[i] == b[i - a.len()]);
                assert((mid + (i - a.len())) as nat == (next + i) as nat);
            }
        }
    }
}

/// Whatever the tree carried before: the units that segmentation addresses
/// are as many as the counter moves on by, they carry the addressing values
/// from `next` on in document order, none of them is an element to skip, and
/// each is within `max` characters of text unless it holds code or a single
/// word.
pub proof fn lemma_units_of(t: Tree, max: nat, next: nat)
    ensures
        seg(t, max, next).1 == next + units_of(t, max, next).len(),
        numbered_from(units_of(t, max, next), next),
        all_fitting(units_of(t, max, next), max),
    decreases t, 1int,
{
    match t.data {
        DataView::Element { name, attrs } => {
            if is_skip(name.local) {
            } else if is_code(name.local) || qualifies(t, max) {
                lemma_sealed_id(t, next);
                let us = units_of(t, max, next);
                assert(us[0] == sealed(t, next));
            } else if !has_element_child(t) && tree_text(t).len() > 0 {
                lemma_span_units_are_units(tree_text(t), max, next);
            } else {
                lemma_units_of_children(t.children, max, next, true);
            }
        },
        DataView::Document => {
            lemma_units_of_children(t.children, max, next, false);
        },
        _ => {},
    }
}

/// Whether `u` is `t` or stands somewhere below it.
pub open spec fn occurs_in(u: Tree, t: Tree) -> bool
    decreases t,
{
    u == t || exists|i: int| 0 <= i < t.children.len() && occurs_in(u, #[trigger] t.children[i])
}

/// Whether every unit of `us` stands in one of the trees of `ts`.
pub open spec fn all_occur(us: Seq<Tree>, ts: Seq<Tree>) -> bool {
    forall|j: int|
        0 <= j < us.len() ==> exists|k: int|
            0 <= k < ts.len() && occurs_in(#[trigger] us[j], #[trigger] ts[k])
}

/// The units of one child stand in what segmentation makes of the child.
pub proof fn lemma_units_of_child_occur(c: Tree, max: nat, next: nat, wrap: bool)
    ensures
        forall|j: int|
            0 <= j < units_of_child(c, max, next, wrap).len() ==> occurs_in(
                #[trigger] units_of_child(c, max, next, wrap)[j],
                seg_child(c, max, next, wrap).0,
            ),
    decreases c, 2int,
{
    if wrap && c.data is Text && !is_blank(c.data->Text_text) {
        let us = units_of_child(c, max, next, wrap);
        let out = seg_child(c, max, next, wrap).0;
        assert forall|j: int| 0 <= j < us.len() implies occurs_in(#[trigger] us[j], out) by {
            assert(out.children[j] == us[j]);
            assert(occurs_in(us[j], out.children[j]));
        }
    } else if c.data is Element || !wrap {
        lemma_units_occur(c, max, next);
        assert(units_of_child(c, max, next, wrap) == units_of(c, max, next));
        assert(seg_child(c, max, next, wrap) == seg(c, max, next));
    } else {
        assert(units_of_child(c, max, next, wrap).len() == 0);
    }
}

/// The units of the children of a node stand in what segmentation makes of
/// the children.
pub proof fn lemma_units_of_children_occur(ts: Seq<Tree>, max: nat, next: nat, wrap: bool)
    ensures
        all_occur(units_of_children(ts, max, next, wrap), seg_children(ts, max, next, wrap).0),
    decreases ts, 0int,
{
    if ts.len() > 0 {
        let init = ts.drop_last();
        lemma_units_of_children_occur(init, max, next, wrap);
        let (done, mid) = seg_children(init, max, next, wrap);
        lemma_units_of_child_occur(ts.last(), max, mid, wrap);
        let last = seg_child(ts.last(), max, mid, wrap).0;
        let a = units_of_children(init, max, next, wrap);
        let b = units_of_child(ts.last(), max, mid, wrap);
        let all = units_of_children(ts, max, next, wrap);
        let kids = seg_children(ts, max, next, wrap).0;
        assert(kids == done.push(last));
        assert forall|j: int| 0 <= j < all.len() implies exists|k: int|
            0 <= k < kids.len() && occurs_in(#[trigger] all[j], #[trigger] kids[k]) by {
            if j < a.len() {
                assert(all[j] == a[j]);
                let k = choose|k: int| 0 <= k < done.len() && occurs_in(a[j], #[trigger] done[k]);
                assert(kids[k] == done[k]);
            } else {
                assert(all[j] == b[j - a.len()]);
                assert(kids[done.len() as int] == last);
            }
        }
    }
}

/// Every unit that segmentation addresses stands in the tree that
/// segmentation returns.
pub proof fn lemma_units_occur(t: Tree, max: nat, next: nat)
    ensures
        forall|j: int|
            0 <= j < units_of(t, max, next).len() ==> occurs_in(
                #[trigger] units_of(t, max, next)[j],
                seg(t, max, next).0,
            ),
    decreases t, 1int,
{
    let us = units_of(t, max, next);
    let out = seg(t, max, next).0;
    match t.data {
        DataView::Element { name, attrs } => {
            if is_skip(name.local) {
            } else if is_code(name.local) || qualifies(t, max) {
                assert(us[0] == out);
            } else if !has_element_child(t) && tree_text(t).len() > 0 {
                assert forall|j: int| 0 <= j < us.len() implies occurs_in(#[trigger] us[j], out) by {
                    assert(out.children[j] == us[j]);
                    assert(occurs_in(us[j], out.children[j]));
                }
            } else {
                lemma_units_of_children_occur(t.children, max, next, true);
                assert forall|j: int| 0 <= j < us.len() implies occurs_in(#[trigger] us[j], out) by {
                    let k = choose|k: int|
                        0 <= k < out.children.len() && occurs_in(us[j], #[trigger] out.children[k]);
                    assert(occurs_in(us[j], out.children[k]));
                }
            }
        },
        DataView::Document => {
            lemma_units_of_children_occur(t.children, max, next, false);
            assert forall|j: int| 0 <= j < us.len() implies occurs_in(#[trigger] us[j], out) by {
                let k = choose|k: int|
                    0 <= k < out.children.len() && occurs_in(us[j], #[trigger] out.children[k]);
                assert(occurs_in(us[j], out.children[k]));
            }
        },
        _ => {},
    }
}

} // verus!
