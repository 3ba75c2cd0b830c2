//! What holds of the store's operations taken together, stated over the model
//! and proved once and for all.

use vstd::prelude::*;

use crate::tree::model::{
    ancestors_live, descends, grown, is_live, links_ok, path_from_root, preorder, preorder_from,
    pushes_valid, root_of, under, value_at, well_formed, with_child, with_root, without_node,
    without_subtree, Arena, Entry,
};

verus! {

/// A root that has just been created is all that its traversal yields, and
/// all that lies on its way from the root.
pub proof fn lemma_fresh_root<T>(a: Arena<T>, value: T)
    ensures
        preorder(with_root(a, value), a.len() as int) == seq![value],
        path_from_root(with_root(a, value), a.len() as int) == seq![value],
{
    let b = with_root(a, value);
    let r = a.len() as int;
    assert(preorder_from(b, r, 0) =~= Seq::<T>::empty());
    assert(preorder(b, r) =~= seq![value]);
}

/// The way from the root to `h` ends with the value of `h`. If no ancestor of
/// `h` has been removed, it begins with the value of the root above `h`.
pub proof fn lemma_path_ends<T>(a: Arena<T>, h: int)
    requires
        0 <= h < a.len(),
    ensures
        path_from_root(a, h).len() >= 1,
        path_from_root(a, h).last() == a[h].value,
        ancestors_live(a, h) ==> path_from_root(a, h).first() == a[root_of(a, h)].value,
    decreases h,
{
    match a[h].parent {
        Some(p) => {
            if 0 <= p < h {
                lemma_path_ends(a, p);
            }
        },
        None => {},
    }
}

/// Once a subtree has been removed, the node at its top and every node that
/// descends from it resolve to no value: their handles are refused. All
/// other entries are as they were.
pub proof fn lemma_removed_subtree_is_gone<T>(a: Arena<T>, h: int, i: int)
    requires
        0 <= i < a.len(),
    ensures
        descends(a, i, h) ==> !is_live(without_subtree(a, h), i) && value_at(
            without_subtree(a, h),
            i,
        ).is_none(),
        !descends(a, i, h) ==> without_subtree(a, h)[i] == a[i],
{
}

/// A push changes no entry's liveness or value: a handle handed out earlier,
/// by a push on the same parent or otherwise, resolves as it did before.
pub proof fn lemma_push_keeps_handles<T>(a: Arena<T>, p: int, value: T, i: int)
    requires
        0 <= p < a.len(),
        0 <= i < a.len(),
    ensures
        is_live(with_child(a, p, value), i) == is_live(a, i),
        value_at(with_child(a, p, value), i) == value_at(a, i),
        with_child(a, p, value)[i].parent == a[i].parent,
        a[i].children.is_prefix_of(with_child(a, p, value)[i].children),
{
}

/// When a live ancestor `x` of `h` is dropped, the way to `h` loses what led
/// down to `x`, `x` included, and keeps the rest as it was.
pub proof fn lemma_dropped_ancestor_truncates<T>(a: Arena<T>, x: int, h: int)
    requires
        is_live(a, x),
        under(a, h, x),
        h != x,
    ensures
        path_from_root(a, h) == path_from_root(a, x) + path_from_root(without_node(a, x), h),
    decreases h,
{
    let b = without_node(a, x);
    let q = a[h].parent.unwrap();
    assert(b[h] == a[h]);
    if q == x {
        assert(path_from_root(a, h) =~= path_from_root(a, x) + seq![a[h].value]);
    } else {
        lemma_dropped_ancestor_truncates(a, x, q);
        assert(b[q].live);
        assert(path_from_root(a, h) =~= path_from_root(a, x) + path_from_root(b, q).push(
            a[h].value,
        ));
    }
}

/// An entry reached from `h` is not older than `h`.
proof fn lemma_under_is_younger<T>(a: Arena<T>, i: int, h: int)
    requires
        under(a, i, h),
    ensures
        h <= i,
    decreases i,
{
    if i != h {
        lemma_under_is_younger(a, a[i].parent.unwrap(), h);
    }
}

/// What is reached from a live child is reached from its parent.
proof fn lemma_under_child_under_parent<T>(a: Arena<T>, i: int, c: int, h: int)
    requires
        under(a, i, c),
        is_live(a, c),
        a[c].parent == Some(h),
        0 <= h < c,
    ensures
        under(a, i, h),
    decreases i,
{
    if i != c {
        lemma_under_child_under_parent(a, a[i].parent.unwrap(), c, h);
    } else {
        assert(under(a, h, h));
    }
}

/// An entry is reached from at most one child of `h`.
proof fn lemma_under_one_child<T>(a: Arena<T>, i: int, c: int, d: int, h: int)
    requires
        under(a, i, c),
        under(a, i, d),
        0 <= c < a.len(),
        0 <= d < a.len(),
        a[c].parent == Some(h),
        a[d].parent == Some(h),
        h < c,
        h < d,
    ensures
        c == d,
    decreases i,
{
    if i == c && i != d {
        lemma_under_is_younger(a, h, d);
    } else if i == d && i != c {
        lemma_under_is_younger(a, h, c);
    } else if i != c {
        lemma_under_one_child(a, a[i].parent.unwrap(), c, d, h);
    }
}

/// On the chain of parents of `i`, the entry just below `h`.
spec fn stem<T>(a: Arena<T>, i: int, h: int) -> int
    decreases i,
{
    if 0 <= i < a.len() {
        match a[i].parent {
            Some(q) => if q != h && 0 <= q < i {
                stem(a, q, h)
            } else {
                i
            },
            None => i,
        }
    } else {
        i
    }
}

/// An entry reached from `h`, other than `h`, is reached from a live child
/// of `h`.
proof fn lemma_stem<T>(a: Arena<T>, i: int, h: int)
    requires
        under(a, i, h),
        i != h,
    ensures
        is_live(a, stem(a, i, h)),
        a[stem(a, i, h)].parent == Some(h),
        under(a, i, stem(a, i, h)),
    decreases i,
{
    let q = a[i].parent.unwrap();
    if q != h {
        lemma_stem(a, q, h);
    }
}

/// By how much a push under `p` lengthens the traversal from `h`.
pub open spec fn gain<T>(a: Arena<T>, p: int, h: int) -> int {
    if under(a, p, h) {
        1
    } else {
        0
    }
}

/// The part of the gain that comes through the children of `h` from position
/// `k` on.
spec fn gain_from<T>(a: Arena<T>, p: int, h: int, k: int) -> int
    decreases a[h].children.len() - k,
{
    if 0 <= k < a[h].children.len() {
        let c = a[h].children[k];
        (if is_live(a, c) {
            gain(a, p, c)
        } else {
            0
        }) + gain_from(a, p, h, k + 1)
    } else {
        0
    }
}

/// The children from `k` on gain nothing where `p` is reached from none of
/// them.
proof fn lemma_gain_from_none<T>(a: Arena<T>, p: int, h: int, k: int)
    requires
        0 <= k,
        forall|j: int|
            k <= j < a[h].children.len() ==> !(is_live(a, #[trigger] a[h].children[j]) && under(
                a,
                p,
                a[h].children[j],
            )),
    ensures
        gain_from(a, p, h, k) == 0,
    decreases a[h].children.len() - k,
{
    if k < a[h].children.len() {
        assert(!(is_live(a, a[h].children[k]) && under(a, p, a[h].children[k])));
        lemma_gain_from_none(a, p, h, k + 1);
    }
}

/// The children from `k` on gain one where `p` is reached from exactly one of
/// them, the one at position `at`.
proof fn lemma_gain_from_one<T>(a: Arena<T>, p: int, h: int, k: int, at: int)
    requires
        0 <= k <= at < a[h].children.len(),
        is_live(a, a[h].children[at]),
        under(a, p, a[h].children[at]),
        forall|j: int|
            k <= j < a[h].children.len() && j != at ==> !(is_live(a, #[trigger] a[h].children[j])
                && under(a, p, a[h].children[j])),
    ensures
        gain_from(a, p, h, k) == 1,
    decreases a[h].children.len() - k,
{
    if k == at {
        lemma_gain_from_none(a, p, h, k + 1);
    } else {
        assert(!(is_live(a, a[h].children[k]) && under(a, p, a[h].children[k])));
        lemma_gain_from_one(a, p, h, k + 1, at);
    }
}

/// The gain at `h` is what comes through its children, and one more where
/// the push is made under `h` itself.
proof fn lemma_gain_splits<T>(a: Arena<T>, p: int, h: int)
    requires
        well_formed(a),
        0 <= p < a.len(),
        0 <= h < a.len(),
    ensures
        gain(a, p, h) == gain_from(a, p, h, 0) + if h == p {
            1int
        } else {
            0int
        },
{
    assert(links_ok(a, h));
    if h == p || !under(a, p, h) {
        assert forall|j: int| 0 <= j < a[h].children.len() implies !(is_live(
            a,
            #[trigger] a[h].children[j],
        ) && under(a, p, a[h].children[j])) by {
            let c = a[h].children[j];
            if is_live(a, c) && under(a, p, c) {
                if h == p {
                    lemma_under_is_younger(a, p, c);
                } else {
                    lemma_under_child_under_parent(a, p, c, h);
                }
            }
        }
        lemma_gain_from_none(a, p, h, 0);
    } else {
        let c = stem(a, p, h);
        lemma_stem(a, p, h);
        assert(links_ok(a, c));
        let at = choose|k: int| 0 <= k < a[h].children.len() && a[h].children[k] == c;
        assert forall|j: int| 0 <= j < a[h].children.len() && j != at implies !(is_live(
            a,
            #[trigger] a[h].children[j],
        ) && under(a, p, a[h].children[j])) by {
            let d = a[h].children[j];
            if is_live(a, d) && under(a, p, d) {
                lemma_under_one_child(a, p, c, d, h);
            }
        }
        lemma_gain_from_one(a, p, h, 0, at);
    }
}

/// A push lengthens by one the traversal from each entry that reaches the
/// parent through live entries, the parent's own included, and leaves the
/// length of every other traversal as it was.
pub proof fn lemma_push_lengthens_traversal<T>(a: Arena<T>, p: int, value: T, h: int)
    requires
        well_formed(a),
        0 <= p < a.len(),
        0 <= h < a.len(),
    ensures
        preorder(with_child(a, p, value), h).len() == preorder(a, h).len() + gain(a, p, h),
    decreases a.len() - h, a[h].children.len() + 1,
{
    lemma_push_lengthens_children(a, p, value, h, 0);
    lemma_gain_splits(a, p, h);
}

/// The same for the part of a traversal that the children from `k` on
/// contribute.
proof fn lemma_push_lengthens_children<T>(a: Arena<T>, p: int, value: T, h: int, k: int)
    requires
        well_formed(a),
        0 <= p < a.len(),
        0 <= h < a.len(),
        0 <= k <= a[h].children.len(),
    ensures
        preorder_from(with_child(a, p, value), h, k).len() == preorder_from(a, h, k).len()
            + gain_from(a, p, h, k) + if h == p {
            1int
        } else {
            0int
        },
    decreases a.len() - h, a[h].children.len() - k,
{
    let b = with_child(a, p, value);
    let n = a.len() as int;
    assert(links_ok(a, h));
    if k < a[h].children.len() {
        let c = a[h].children[k];
        assert(b[h].children[k] == c);
        assert(b[c].live == a[c].live);
        if a[c].live {
            lemma_push_lengthens_traversal(a, p, value, c);
        }
        lemma_push_lengthens_children(a, p, value, h, k + 1);
    } else if h == p {
        assert(b[p].children[k] == n);
        assert(preorder_from(b, n, 0) =~= Seq::<T>::empty());
        assert(preorder(b, n) =~= seq![value]);
        assert(preorder_from(b, p, k + 1) =~= Seq::<T>::empty());
    }
}

/// An arena grown by pushes alone: nothing was removed, and entry 0 is the
/// only one without a parent.
spec fn single_tree<T>(a: Arena<T>) -> bool {
    &&& well_formed(a)
    &&& forall|i: int| 0 <= i < a.len() ==> (#[trigger] a[i]).live
    &&& forall|i: int| 0 < i < a.len() ==> (#[trigger] a[i]).parent.is_some()
}

/// In such an arena the root reaches every entry.
proof fn lemma_single_tree_reaches<T>(a: Arena<T>, i: int)
    requires
        single_tree(a),
        0 <= i < a.len(),
    ensures
        under(a, i, 0),
    decreases i,
{
    if i != 0 {
        assert(links_ok(a, i));
        lemma_single_tree_reaches(a, a[i].parent.unwrap());
    }
}

/// A tree built by pushes alone has one entry for its root and one for each
/// push, and the traversal from the root yields one value for each of them:
/// its length is the number of pushes plus one.
pub proof fn lemma_traversal_counts_pushes<T>(root: T, pushes: Seq<(int, T)>)
    requires
        pushes_valid(pushes),
    ensures
        well_formed(grown(root, pushes)),
        grown(root, pushes).len() == pushes.len() + 1,
        preorder(grown(root, pushes), 0).len() == pushes.len() + 1,
    decreases pushes.len(),
{
    lemma_grown_single_tree(root, pushes);
    if pushes.len() == 0 {
        lemma_fresh_root(Seq::<Entry<T>>::empty(), root);
    } else {
        let earlier = pushes.drop_last();
        let a = grown(root, earlier);
        let p = pushes.last().0;
        lemma_traversal_counts_pushes(root, earlier);
        lemma_grown_single_tree(root, earlier);
        lemma_single_tree_reaches(a, p);
        lemma_push_lengthens_traversal(a, p, pushes.last().1, 0);
    }
}

/// Pushes alone grow a single tree.
proof fn lemma_grown_single_tree<T>(root: T, pushes: Seq<(int, T)>)
    requires
        pushes_valid(pushes),
    ensures
        single_tree(grown(root, pushes)),
        grown(root, pushes).len() == pushes.len() + 1,
    decreases pushes.len(),
{
    if pushes.len() == 0 {
        crate::tree::model::lemma_with_root_well_formed(Seq::<Entry<T>>::empty(), root);
    } else {
        let earlier = pushes.drop_last();
        assert(pushes_valid(earlier)) by {
            assert forall|k: int| 0 <= k < earlier.len() implies 0 <= (#[trigger] earlier[k]).0
                <= k by {
                assert(earlier[k] == pushes[k]);
            }
        }
        lemma_grown_single_tree(root, earlier);
        let a = grown(root, earlier);
        assert(0 <= pushes[pushes.len() - 1].0 <= pushes.len() - 1);
        crate::tree::model::lemma_with_child_well_formed(a, pushes.last().0, pushes.last().1);
    }
}

} // verus!
