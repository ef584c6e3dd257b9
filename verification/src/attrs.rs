//! Writing an attribute onto an element.

use crate::tree::{attr_views, lemma_attr_views_push, lemma_attr_views_take, Attr, AttrView, QName, QNameView};
use crate::tags::same_text;
use vstd::prelude::*;
use vstd::string::StringExecFns;

verus! {

/// Whether `a` is the attribute `local` of no namespace.
pub open spec fn is_plain(a: AttrView, local: Seq<char>) -> bool {
    a.name.ns.len() == 0 && a.name.local == local
}

/// The attribute `local` of no namespace and no prefix, with `value`.
pub open spec fn plain_attr(local: Seq<char>, value: Seq<char>) -> AttrView {
    AttrView { name: QNameView { prefix: None, ns: Seq::empty(), local }, value }
}

/// The first index at or after `from` that holds the attribute `local`, or
/// the length of `attrs` where there is none.
pub open spec fn find_plain(attrs: Seq<AttrView>, local: Seq<char>, from: int) -> int
    decreases attrs.len() - from,
{
    if from < 0 || from >= attrs.len() {
        attrs.len() as int
    } else if is_plain(attrs[from], local) {
        from
    } else {
        find_plain(attrs, local, from + 1)
    }
}

/// The attributes after `local` has been set to `value`: an attribute of that
/// name keeps its place and takes the value, else the attribute comes last.
pub open spec fn set_attr(attrs: Seq<AttrView>, local: Seq<char>, value: Seq<char>) -> Seq<
    AttrView,
> {
    let i = find_plain(attrs, local, 0);
    if 0 <= i < attrs.len() {
        attrs.update(i, plain_attr(local, value))
    } else {
        attrs.push(plain_attr(local, value))
    }
}

/// The place found lies between `from` and the length, and holds the attribute where it lies below the length.
pub proof fn lemma_find_plain_bounds(attrs: Seq<AttrView>, local: Seq<char>, from: int)
    requires
        0 <= from <= attrs.len(),
    ensures
        from <= find_plain(attrs, local, from) <= attrs.len(),
        find_plain(attrs, local, from) < attrs.len() ==> is_plain(
            attrs[find_plain(attrs, local, from)],
            local,
        ),
    decreases attrs.len() - from,
{
    if from < attrs.len() && !is_plain(attrs[from], local) {
        lemma_find_plain_bounds(attrs, local, from + 1);
    }
}

fn make_plain(local: &str, value: &str) -> (r: Attr)
    ensures
        r@ == plain_attr(local@, value@),
{
    Attr {
        name: QName { prefix: None, ns: String::new(), local: String::from_str(local) },
        value: String::from_str(value),
    }
}

/// A copy of `attrs` in which `local` is set to `value`.
pub fn with_attr(attrs: &Vec<Attr>, local: &str, value: &str) -> (r: Vec<Attr>)
    ensures
        attr_views(r@) == set_attr(attr_views(attrs@), local@, value@),
{
    let ghost views = attr_views(attrs@);
    let ghost target = find_plain(views, local@, 0);
    let mut out: Vec<Attr> = Vec::new();
    let mut found = false;
    let mut i: usize = 0;
    proof {
        lemma_find_plain_bounds(views, local@, 0);
        assert(attr_views(out@) =~= views.take(0));
    }
    while i < attrs.len()
        invariant
            i <= attrs.len(),
            views == attr_views(attrs@),
            views.len() == attrs.len(),
            target == find_plain(views, local@, 0),
            0 <= target <= views.len(),
            found <==> target < i,
            !found ==> find_plain(views, local@, i as int) == target,
            !found ==> attr_views(out@) == views.take(i as int),
            found ==> attr_views(out@) == views.take(i as int).update(
                target,
                plain_attr(local@, value@),
            ),
        decreases attrs.len() - i,
    {
        let a = &attrs[i];
        let ghost before = out@;
        proof {
            assert(views[i as int] == a@);
            lemma_attr_views_take(attrs@, i as int);
            assert(attr_views(attrs@.take(i as int)) =~= views.take(i as int));
            assert(attr_views(attrs@.take(i + 1)) =~= views.take(i + 1));
        }
        if !found && a.name.ns.as_str().is_empty() && same_text(a.name.local.as_str(), local) {
            let item = make_plain(local, value);
            out.push(item);
            found = true;
            proof {
                lemma_attr_views_push(before, item);
                assert(attr_views(out@) =~= views.take(i + 1).update(
                    target,
                    plain_attr(local@, value@),
                ));
            }
        } else {
            let item = a.copy();
            out.push(item);
            proof {
                lemma_attr_views_push(before, item);
                if found {
                    assert(attr_views(out@) =~= views.take(i + 1).update(
                        target,
                        plain_attr(local@, value@),
                    ));
                } else {
                    lemma_find_plain_bounds(views, local@, i + 1);
                }
            }
        }
        i += 1;
    }
    proof {
        assert(views.take(i as int) =~= views);
    }
    if !found {
        let item = make_plain(local, value);
        let ghost before = out@;
        out.push(item);
        proof {
            lemma_attr_views_push(before, item);
        }
    }
    out
}

} // verus!
