//! The addressing values of a segmented document, in document order.

use crate::attrs::{find_plain, is_plain, lemma_find_plain_bounds, plain_attr};
use crate::label::label;
use crate::segment::{
    has_element_child, lemma_seg_grows, mark_code, mark_code_all,
    qualifies, seg, seg_child, seg_children, span_unit, span_units, split_element,
    text_tree, with_plain, wrap_text,
};
use crate::tags::{is_code, is_skip};
use crate::text::{chunks, is_blank};
use crate::tree::{tree_text, AttrView, DataView, Tree};
use vstd::prelude::*;

verus! {

/// The value of the `id` attribute of an element, where it has one.
pub open spec fn id_value(d: DataView) -> Option<Seq<char>> {
    match d {
        DataView::Element { name, attrs } => {
            let i = find_plain(attrs, "id"@, 0);
            if 0 <= i < attrs.len() {
                Some(attrs[i].value)
            } else {
                None
            }
        },
        _ => None,
    }
}

/// Whether `v` is the addressing value of some unit.
pub open spec fn is_address(v: Seq<char>) -> bool {
    exists|n: nat| v == #[trigger] label(n)
}

/// The addressing value that a node itself carries, if any.
pub open spec fn own_labels(d: DataView) -> Seq<Seq<char>> {
    match id_value(d) {
        Some(v) => if is_address(v) {
            seq![v]
        } else {
            Seq::empty()
        },
        None => Seq::empty(),
    }
}

/// The addressing values carried in the trees of `ts`, in document order.
pub open spec fn forest_labels(ts: Seq<Tree>) -> Seq<Seq<char>>
    decreases ts, 0int,
{
    if ts.len() == 0 {
        Seq::empty()
    } else {
        forest_labels(ts.drop_last()) + labels(ts.last())
    }
}

/// The addressing values carried in a tree, in document order: that of a
/// node comes before those of the nodes below it.
pub open spec fn labels(t: Tree) -> Seq<Seq<char>>
    decreases t, 1int,
{
    own_labels(t.data) + forest_labels(t.children)
}

/// The addressing values of `count` units in a row, from unit `first` on.
pub open spec fn label_run(first: nat, count: nat) -> Seq<Seq<char>> {
    Seq::new(count, |i: int| label((first + i) as nat))
}

/// No addressing value comes twice in a run.
pub proof fn lemma_label_run_distinct(first: nat, count: nat)
    ensures
        forall|i: int, j: int|
            0 <= i < j < count ==> (#[trigger] label_run(first, count)[i]) != (
            #[trigger] label_run(first, count)[j]),
{
    assert forall|i: int, j: int| 0 <= i < j < count implies (#[trigger] label_run(
        first,
        count,
    )[i]) != (#[trigger] label_run(first, count)[j]) by {
        if label((first + i) as nat) == label((first + j) as nat) {
            crate::label::lemma_label_injective((first + i) as nat, (first + j) as nat);
        }
    }
}

/// Two runs of addressing values in a row are one run.
pub proof fn lemma_label_run_concat(first: nat, a: nat, b: nat)
    ensures
        label_run(first, a) + label_run(first + a, b) == label_run(first, a + b),
{
    assert(label_run(first, a) + label_run(first + a, b) =~= label_run(first, a + b));
}

/// An attribute that replaces the one found is found at the same place.
pub proof fn lemma_find_plain_update(
    attrs: Seq<AttrView>,
    local: Seq<char>,
    from: int,
    i: int,
    a: AttrView,
)
    requires
        0 <= from <= i < attrs.len(),
        find_plain(attrs, local, from) == i,
        is_plain(a, local),
    ensures
        find_plain(attrs.update(i, a), local, from) == i,
    decreases i - from,
{
    if from < i {
        lemma_find_plain_update(attrs, local, from + 1, i, a);
    }
}

/// What is found after an attribute has been added last.
pub proof fn lemma_find_plain_push(attrs: Seq<AttrView>, local: Seq<char>, from: int, a: AttrView)
    requires
        0 <= from <= attrs.len(),
    ensures
        find_plain(attrs, local, from) < attrs.len() ==> find_plain(attrs.push(a), local, from)
            == find_plain(attrs, local, from),
        find_plain(attrs, local, from) >= attrs.len() && is_plain(a, local) ==> find_plain(
            attrs.push(a),
            local,
            from,
        ) == attrs.len(),
        find_plain(attrs, local, from) >= attrs.len() && !is_plain(a, local) ==> find_plain(
            attrs.push(a),
            local,
            from,
        ) == attrs.len() + 1,
    decreases attrs.len() - from,
{
    lemma_find_plain_bounds(attrs, local, from);
    if from < attrs.len() {
        assert(attrs.push(a)[from] == attrs[from]);
        if !is_plain(attrs[from], local) {
            lemma_find_plain_push(attrs, local, from + 1, a);
        }
    } else {
        assert(attrs.push(a)[from] == a);
        if !is_plain(a, local) {
            assert(find_plain(attrs.push(a), local, from + 1) == attrs.len() + 1);
        }
    }
}

/// Two sequences that hold an attribute `local` at the same places find it
/// at the same place.
pub proof fn lemma_find_plain_same(
    a: Seq<AttrView>,
    b: Seq<AttrView>,
    local: Seq<char>,
    from: int,
)
    requires
        a.len() == b.len(),
        0 <= from <= a.len(),
        forall|j: int| 0 <= j < a.len() ==> is_plain(a[j], local) == is_plain(b[j], local),
    ensures
        find_plain(a, local, from) == find_plain(b, local, from),
    decreases a.len() - from,
{
    if from < a.len() && !is_plain(a[from], local) {
        lemma_find_plain_same(a, b, local, from + 1);
    }
}

/// After `id` has been set to `value`, that is the value of `id`.
pub proof fn lemma_id_after_set_id(t: Tree, value: Seq<char>)
    requires
        t.data is Element,
    ensures
        id_value(with_plain(t, "id"@, value).data) == Some(value),
{
    let attrs = t.data->attrs;
    let i = find_plain(attrs, "id"@, 0);
    let a = plain_attr("id"@, value);
    lemma_find_plain_bounds(attrs, "id"@, 0);
    if i < attrs.len() {
        lemma_find_plain_update(attrs, "id"@, 0, i, a);
    } else {
        lemma_find_plain_push(attrs, "id"@, 0, a);
    }
}

/// Setting `class` leaves the value of `id` as it was.
pub proof fn lemma_id_after_set_class(t: Tree, value: Seq<char>)
    requires
        t.data is Element,
    ensures
        id_value(with_plain(t, "class"@, value).data) == id_value(t.data),
{
    reveal_strlit("id");
    reveal_strlit("class");
    let attrs = t.data->attrs;
    let i = find_plain(attrs, "class"@, 0);
    let a = plain_attr("class"@, value);
    assert("id"@.len() != "class"@.len());
    assert(!is_plain(a, "id"@));
    lemma_find_plain_bounds(attrs, "class"@, 0);
    lemma_find_plain_bounds(attrs, "id"@, 0);
    if i < attrs.len() {
        let out = attrs.update(i, a);
        assert(!is_plain(attrs[i], "id"@));
        assert forall|j: int| 0 <= j < attrs.len() implies is_plain(attrs[j], "id"@) == is_plain(
            out[j],
            "id"@,
        ) by {}
        lemma_find_plain_same(attrs, out, "id"@, 0);
    } else {
        lemma_find_plain_push(attrs, "id"@, 0, a);
    }
}

/// A forest carries no addressing value exactly if none of its trees does.
pub proof fn lemma_forest_labels_none(ts: Seq<Tree>)
    ensures
        forest_labels(ts).len() == 0 <==> forall|i: int|
            0 <= i < ts.len() ==> (#[trigger] labels(ts[i])).len() == 0,
    decreases ts.len(),
{
    if ts.len() > 0 {
        lemma_forest_labels_none(ts.drop_last());
        if forest_labels(ts).len() == 0 {
            assert forall|i: int| 0 <= i < ts.len() implies (#[trigger] labels(ts[i])).len()
                == 0 by {
                if i < ts.len() - 1 {
                    assert(ts.drop_last()[i] == ts[i]);
                }
            }
        }
        if forall|i: int| 0 <= i < ts.len() ==> (#[trigger] labels(ts[i])).len() == 0 {
            assert forall|i: int| 0 <= i < ts.drop_last().len() implies (#[trigger] labels(
                ts.drop_last()[i],
            )).len() == 0 by {
                assert(ts.drop_last()[i] == ts[i]);
            }
            assert(labels(ts.last()).len() == 0);
        }
    }
}

/// Marking code leaves the addressing values of a forest as they were.
pub proof fn lemma_mark_code_all_labels(ts: Seq<Tree>)
    ensures
        forest_labels(mark_code_all(ts)) == forest_labels(ts),
    decreases ts, 0int,
{
    if ts.len() > 0 {
        lemma_mark_code_all_labels(ts.drop_last());
        lemma_mark_code_labels(ts.last());
        assert(mark_code_all(ts).drop_last() =~= mark_code_all(ts.drop_last()));
    }
}

/// Marking code leaves the addressing values as they were.
pub proof fn lemma_mark_code_labels(t: Tree)
    ensures
        labels(mark_code(t)) == labels(t),
    decreases t, 1int,
{
    if t.data is Element && t.tag() == "code"@ {
        lemma_id_after_set_class(t, "tts_code_block"@);
    } else {
        lemma_mark_code_all_labels(t.children);
    }
}

/// A unit made for a chunk carries its own addressing value and no other.
pub proof fn lemma_span_unit_labels(chunk: Seq<char>, n: nat)
    ensures
        labels(span_unit(chunk, n)) == seq![label(n)],
{
    let u = span_unit(chunk, n);
    let inner = text_tree(chunk);
    assert(forest_labels(inner.children) =~= Seq::<Seq<char>>::empty());
    assert(labels(inner) =~= Seq::<Seq<char>>::empty());
    assert(u.children.drop_last() =~= Seq::<Tree>::empty());
    assert(forest_labels(Seq::<Tree>::empty()) =~= Seq::<Seq<char>>::empty());
    assert(forest_labels(u.children) =~= Seq::<Seq<char>>::empty());
    let attrs = u.data->attrs;
    assert(is_plain(attrs[0], "id"@));
    assert(find_plain(attrs, "id"@, 0) == 0);
    assert(is_address(label(n)));
    assert(labels(u) =~= seq![label(n)]);
}

/// The units made for chunks carry the addressing values from `next` on.
pub proof fn lemma_span_units_labels(cs: Seq<Seq<char>>, next: nat)
    ensures
        forest_labels(span_units(cs, next)) == label_run(next, cs.len()),
    decreases cs.len(),
{
    if cs.len() > 0 {
        let units = span_units(cs, next);
        assert(units.drop_last() =~= span_units(cs.drop_last(), next));
        lemma_span_units_labels(cs.drop_last(), next);
        lemma_span_unit_labels(cs.last(), (next + cs.len() - 1) as nat);
        assert(forest_labels(units) =~= label_run(next, cs.len()));
    } else {
        assert(forest_labels(span_units(cs, next)) =~= label_run(next, 0));
    }
}

/// The numbering of the units of one child.
pub proof fn lemma_seg_child_labels(c: Tree, max: nat, next: nat, wrap: bool)
    requires
        labels(c).len() == 0,
    ensures
        seg_child(c, max, next, wrap).1 >= next,
        labels(seg_child(c, max, next, wrap).0) == label_run(
            next,
            (seg_child(c, max, next, wrap).1 - next) as nat,
        ),
    decreases c, 2int,
{
    if wrap && c.data is Text && !is_blank(c.data->Text_text) {
        let cs = chunks(c.data->Text_text, max as int);
        lemma_span_units_labels(cs, next);
        let out = wrap_text(c.data->Text_text, max, next).0;
        assert(find_plain(out.data->attrs, "id"@, 0) == 0);
        assert(own_labels(out.data) =~= Seq::<Seq<char>>::empty());
        assert(labels(out) =~= label_run(next, cs.len()));
    } else if c.data is Element || !wrap {
        lemma_seg_labels(c, max, next);
    } else {
        assert(labels(c) =~= label_run(next, 0));
    }
}

/// The numbering of the units of the children of a node.
pub proof fn lemma_seg_children_labels(ts: Seq<Tree>, max: nat, next: nat, wrap: bool)
    requires
        forest_labels(ts).len() == 0,
    ensures
        seg_children(ts, max, next, wrap).1 >= next,
        forest_labels(seg_children(ts, max, next, wrap).0) == label_run(
            next,
            (seg_children(ts, max, next, wrap).1 - next) as nat,
        ),
    decreases ts, 0int,
{
    if ts.len() > 0 {
        let init = ts.drop_last();
        assert(forest_labels(init).len() == 0);
        assert(labels(ts.last()).len() == 0);
        lemma_seg_children_labels(init, max, next, wrap);
        let (done, mid) = seg_children(init, max, next, wrap);
        lemma_seg_child_labels(ts.last(), max, mid, wrap);
        let (last, end) = seg_child(ts.last(), max, mid, wrap);
        assert(seg_children(ts, max, next, wrap).0.drop_last() =~= done);
        lemma_label_run_concat(next, (mid - next) as nat, (end - mid) as nat);
    } else {
        assert(forest_labels(Seq::<Tree>::empty()) =~= label_run(next, 0));
    }
}

/// In a tree that carried no addressing value, the values after segmentation
/// are, in document order, those of the units from `next` up to the counter
/// that segmentation returns: none is left out and none comes twice.
pub proof fn lemma_seg_labels(t: Tree, max: nat, next: nat)
    requires
        labels(t).len() == 0,
    ensures
        seg(t, max, next).1 >= next,
        labels(seg(t, max, next).0) == label_run(next, (seg(t, max, next).1 - next) as nat),
    decreases t, 1int,
{
    lemma_seg_grows(t, max, next);
    assert(own_labels(t.data).len() == 0);
    assert(forest_labels(t.children).len() == 0);
    assert(own_labels(t.data) =~= Seq::<Seq<char>>::empty());
    assert(forest_labels(t.children) =~= Seq::<Seq<char>>::empty());
    match t.data {
        DataView::Element { name, attrs } => {
            if is_skip(name.local) {
                assert(labels(t) =~= label_run(next, 0));
            } else if is_code(name.local) || qualifies(t, max) {
                let tagged = with_plain(t, "id"@, label(next));
                lemma_mark_code_labels(tagged);
                lemma_id_after_set_id(t, label(next));
                assert(is_address(label(next)));
                assert(labels(tagged) =~= seq![label(next)]);
                assert(seq![label(next)] =~= label_run(next, 1));
            } else if !has_element_child(t) && tree_text(t).len() > 0 {
                let cs = chunks(tree_text(t), max as int);
                lemma_span_units_labels(cs, next);
                assert(labels(split_element(t, max, next).0) =~= label_run(next, cs.len()));
            } else {
                lemma_seg_children_labels(t.children, max, next, true);
                let (kids, end) = seg_children(t.children, max, next, true);
                assert(labels(seg(t, max, next).0) =~= forest_labels(kids));
            }
        },
        DataView::Document => {
            lemma_seg_children_labels(t.children, max, next, false);
            let (kids, end) = seg_children(t.children, max, next, false);
            assert(labels(seg(t, max, next).0) =~= forest_labels(kids));
        },
        _ => {
            assert(labels(t) =~= label_run(next, 0));
        },
    }
}

} // verus!
