//! Code stays whole: an element of code is one unit, and nothing in it
//! changes but attributes.

use crate::label::label;
use crate::numbering::{id_value, lemma_id_after_set_class, lemma_id_after_set_id};
use crate::preservation::lemma_mark_code_text;
use crate::segment::{mark_code, mark_code_all, seg, sealed, with_plain};
use crate::tags::{is_code, lemma_code_is_not_skip};
use crate::tree::{tree_text, DataView, Tree};
use vstd::prelude::*;

verus! {

/// The data of a node without the attributes of an element.
pub open spec fn bare_data(d: DataView) -> DataView {
    match d {
        DataView::Element { name, attrs } => DataView::Element { name, attrs: Seq::empty() },
        _ => d,
    }
}

/// The trees of `ts` without any attributes.
pub open spec fn bare_all(ts: Seq<Tree>) -> Seq<Tree>
    decreases ts, 0int,
{
    if ts.len() == 0 {
        Seq::empty()
    } else {
        bare_all(ts.drop_last()).push(bare(ts.last()))
    }
}

/// The tree without any attributes: its nodes, their names and their text.
pub open spec fn bare(t: Tree) -> Tree
    decreases t, 1int,
{
    Tree { data: bare_data(t.data), children: bare_all(t.children), template: t.template }
}

/// Marking code changes attributes only, in every tree of a forest.
pub proof fn lemma_mark_code_all_bare(ts: Seq<Tree>)
    ensures
        bare_all(mark_code_all(ts)) == bare_all(ts),
    decreases ts, 0int,
{
    if ts.len() > 0 {
        lemma_mark_code_all_bare(ts.drop_last());
        lemma_mark_code_bare(ts.last());
        assert(mark_code_all(ts).drop_last() =~= mark_code_all(ts.drop_last()));
    }
}

/// Marking code changes attributes only.
pub proof fn lemma_mark_code_bare(t: Tree)
    ensures
        bare(mark_code(t)) == bare(t),
    decreases t, 1int,
{
    if t.data is Element && t.tag() == "code"@ {
    } else {
        lemma_mark_code_all_bare(t.children);
    }
}

/// An element of code is sealed as one unit whatever the length of its
/// text: it takes the next addressing value, the counter moves on by one,
/// and the element with all that is below it, its nodes, their names and
/// their text, is as it was but for attributes.
pub proof fn lemma_code_is_one_unit(t: Tree, max: nat, next: nat)
    requires
        t.data is Element,
        is_code(t.tag()),
    ensures
        seg(t, max, next) == (sealed(t, next), next + 1),
        id_value(sealed(t, next).data) == Some(label(next)),
        bare(sealed(t, next)) == bare(t),
        tree_text(sealed(t, next)) == tree_text(t),
{
    lemma_code_is_not_skip(t.tag());
    let tagged = with_plain(t, "id"@, label(next));
    lemma_id_after_set_id(t, label(next));
    lemma_mark_code_bare(tagged);
    lemma_mark_code_text(tagged);
    if tagged.tag() == "code"@ {
        lemma_id_after_set_class(tagged, "tts_code_block"@);
    }
}

} // verus!
