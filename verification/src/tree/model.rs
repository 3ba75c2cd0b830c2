//! The mathematical model of a node store: a sequence of entries addressed by
//! their position, and what each operation of the store means on it.

use vstd::prelude::*;

verus! {

/// One entry of the arena, as contracts see it.
pub struct Entry<T> {
    /// The payload.
    pub value: T,
    /// The identifier of the entry under which this one was pushed.
    pub parent: Option<int>,
    /// The identifiers pushed under this entry, oldest first.
    pub children: Seq<int>,
    /// False once the entry has been tombstoned.
    pub live: bool,
}

/// The whole arena: entry `i` is the node with identifier `i`.
pub type Arena<T> = Seq<Entry<T>>;

/// `h` names an entry that exists and has not been tombstoned.
pub open spec fn is_live<T>(a: Arena<T>, h: int) -> bool {
    0 <= h < a.len() && a[h].live
}

/// The value that `h` resolves to, if it resolves at all.
pub open spec fn value_at<T>(a: Arena<T>, h: int) -> Option<T> {
    if is_live(a, h) {
        Some(a[h].value)
    } else {
        None
    }
}

/// The links of entry `i` are consistent with the rest of the arena: its
/// parent is older than it and lists it as a child, its children are younger
/// than it, name it as their parent, and stand in the order of their creation.
pub open spec fn links_ok<T>(a: Arena<T>, i: int) -> bool {
    &&& match a[i].parent {
        Some(p) => 0 <= p < i && a[p].children.contains(i),
        None => true,
    }
    &&& forall|k: int|
        0 <= k < a[i].children.len() ==> i < #[trigger] a[i].children[k] < a.len()
            && a[a[i].children[k]].parent == Some(i)
    &&& forall|k: int, l: int|
        0 <= k < l < a[i].children.len() ==> a[i].children[k] < a[i].children[l]
}

/// The invariant of a store: it holds at least the root it was made with, and
/// every entry's links are consistent.
pub open spec fn well_formed<T>(a: Arena<T>) -> bool {
    &&& a.len() >= 1
    &&& forall|i: int| 0 <= i < a.len() ==> #[trigger] links_ok(a, i)
}

/// `i` is `h` itself or hangs under `h` by a chain of entries that are all
/// live: what a traversal that starts at `h` gets to.
pub open spec fn under<T>(a: Arena<T>, i: int, h: int) -> bool
    decreases i,
{
    i == h || (0 <= i < a.len() && a[i].live && match a[i].parent {
        Some(q) => 0 <= q < i && under(a, q, h),
        None => false,
    })
}

/// The parent of `h` as callers may see it: present only while the parent
/// entry is live.
pub open spec fn live_parent<T>(a: Arena<T>, h: int) -> Option<int> {
    if 0 <= h < a.len() {
        match a[h].parent {
            Some(p) => if 0 <= p < h && a[p].live {
                Some(p)
            } else {
                None
            },
            None => None,
        }
    } else {
        None
    }
}

/// The values met on the way from `h` upwards, written from the top down. The
/// walk ends at an entry without a parent or below the first tombstoned
/// ancestor.
pub open spec fn path_from_root<T>(a: Arena<T>, h: int) -> Seq<T>
    decreases h,
{
    if 0 <= h < a.len() {
        match live_parent(a, h) {
            Some(p) => path_from_root(a, p).push(a[h].value),
            None => seq![a[h].value],
        }
    } else {
        Seq::empty()
    }
}

/// The entry at the top of the chain of parents of `h`, tombstoned or not.
pub open spec fn root_of<T>(a: Arena<T>, h: int) -> int
    decreases h,
{
    if 0 <= h < a.len() {
        match a[h].parent {
            Some(p) => if 0 <= p < h {
                root_of(a, p)
            } else {
                h
            },
            None => h,
        }
    } else {
        h
    }
}

/// No entry strictly above `h` has been tombstoned.
pub open spec fn ancestors_live<T>(a: Arena<T>, h: int) -> bool
    decreases h,
{
    if 0 <= h < a.len() {
        match a[h].parent {
            Some(p) => 0 <= p < h && a[p].live && ancestors_live(a, p),
            None => true,
        }
    } else {
        true
    }
}

/// `i` is `h` itself or was pushed, directly or through other entries, under
/// `h`. Tombstones do not interrupt the relation.
pub open spec fn descends<T>(a: Arena<T>, i: int, h: int) -> bool
    decreases i,
{
    i == h || (0 <= i < a.len() && match a[i].parent {
        Some(q) => 0 <= q < i && descends(a, q, h),
        None => false,
    })
}

/// The values of the subtree of `h` in pre-order: the value of `h`, then the
/// subtrees of its children, oldest first. A tombstoned child contributes
/// nothing, and neither does anything below it.
pub open spec fn preorder<T>(a: Arena<T>, h: int) -> Seq<T>
    decreases a.len() - h, a[h].children.len() + 1,
{
    if 0 <= h < a.len() {
        seq![a[h].value] + preorder_from(a, h, 0)
    } else {
        Seq::empty()
    }
}

/// The part of `preorder(a, h)` that the children of `h` from position `k` on
/// contribute.
pub open spec fn preorder_from<T>(a: Arena<T>, h: int, k: int) -> Seq<T>
    decreases a.len() - h, a[h].children.len() - k,
{
    if 0 <= h < a.len() && 0 <= k < a[h].children.len() {
        let c = a[h].children[k];
        let head = if h < c < a.len() && a[c].live {
            preorder(a, c)
        } else {
            Seq::empty()
        };
        head + preorder_from(a, h, k + 1)
    } else {
        Seq::empty()
    }
}

/// The arena that a root with value `root` grows into by the given pushes,
/// each one a parent's identifier and a value.
pub open spec fn grown<T>(root: T, pushes: Seq<(int, T)>) -> Arena<T>
    decreases pushes.len(),
{
    if pushes.len() == 0 {
        with_root(Seq::empty(), root)
    } else {
        with_child(grown(root, pushes.drop_last()), pushes.last().0, pushes.last().1)
    }
}

/// Every push names a parent that exists when the push is made: the root, or
/// the result of an earlier push.
pub open spec fn pushes_valid<T>(pushes: Seq<(int, T)>) -> bool {
    forall|k: int| 0 <= k < pushes.len() ==> 0 <= (#[trigger] pushes[k]).0 <= k
}

/// A fresh entry: live, childless, with the given value and parent.
pub open spec fn leaf<T>(value: T, parent: Option<int>) -> Entry<T> {
    Entry { value, parent, children: Seq::empty(), live: true }
}

/// The arena after a new root with `value` has been created in it.
pub open spec fn with_root<T>(a: Arena<T>, value: T) -> Arena<T> {
    a.push(leaf(value, None))
}

/// The arena after `value` has been pushed under `p`: a new last entry, and
/// its identifier appended to the children of `p`.
pub open spec fn with_child<T>(a: Arena<T>, p: int, value: T) -> Arena<T> {
    a.update(p, Entry { children: a[p].children.push(a.len() as int), ..a[p] }).push(
        leaf(value, Some(p)),
    )
}

/// The arena after the entry `h` alone has been tombstoned.
pub open spec fn without_node<T>(a: Arena<T>, h: int) -> Arena<T> {
    a.update(h, Entry { live: false, ..a[h] })
}

/// The arena after `h` and everything that descends from it have been
/// tombstoned. No link changes.
pub open spec fn without_subtree<T>(a: Arena<T>, h: int) -> Arena<T> {
    Seq::new(a.len(), |i: int| Entry { live: a[i].live && !descends(a, i, h), ..a[i] })
}

/// Two arenas with the same links: they may differ in values and tombstones
/// only.
pub open spec fn same_links<T>(a: Arena<T>, b: Arena<T>) -> bool {
    &&& a.len() == b.len()
    &&& forall|i: int|
        0 <= i < a.len() ==> (#[trigger] b[i]).parent == a[i].parent && b[i].children
            == a[i].children
}

/// Consistency of the links does not depend on values or tombstones.
pub proof fn lemma_same_links_well_formed<T>(a: Arena<T>, b: Arena<T>)
    requires
        well_formed(a),
        same_links(a, b),
    ensures
        well_formed(b),
{
    assert forall|i: int| 0 <= i < b.len() implies #[trigger] links_ok(b, i) by {
        assert(links_ok(a, i));
        assert(b[i].parent == a[i].parent);
        match a[i].parent {
            Some(p) => {
                assert(b[p].children == a[p].children);
            },
            None => {},
        }
        assert forall|k: int| 0 <= k < b[i].children.len() implies i
            < #[trigger] b[i].children[k] < b.len() && b[b[i].children[k]].parent == Some(i) by {
            let c = a[i].children[k];
            assert(b[c].parent == a[c].parent);
        }
    }
}

/// Creating a root keeps the arena well formed.
pub proof fn lemma_with_root_well_formed<T>(a: Arena<T>, value: T)
    requires
        a.len() == 0 || well_formed(a),
    ensures
        well_formed(with_root(a, value)),
{
    let b = with_root(a, value);
    assert forall|i: int| 0 <= i < b.len() implies #[trigger] links_ok(b, i) by {
        if i < a.len() {
            assert(links_ok(a, i));
            match a[i].parent {
                Some(p) => {
                    let k = choose|k: int| 0 <= k < a[p].children.len() && a[p].children[k] == i;
                    assert(b[p].children[k] == i);
                },
                None => {},
            }
        }
    }
}

/// Pushing under an existing entry keeps the arena well formed.
pub proof fn lemma_with_child_well_formed<T>(a: Arena<T>, p: int, value: T)
    requires
        well_formed(a),
        0 <= p < a.len(),
    ensures
        well_formed(with_child(a, p, value)),
{
    let b = with_child(a, p, value);
    let n = a.len() as int;
    assert forall|i: int| 0 <= i < b.len() implies #[trigger] links_ok(b, i) by {
        if i < n {
            assert(links_ok(a, i));
            match a[i].parent {
                Some(q) => {
                    let k = choose|k: int| 0 <= k < a[q].children.len() && a[q].children[k] == i;
                    assert(b[q].children[k] == i);
                },
                None => {},
            }
            assert forall|k: int| 0 <= k < b[i].children.len() implies i
                < #[trigger] b[i].children[k] < b.len() && b[b[i].children[k]].parent == Some(
                i,
            ) by {
                if k < a[i].children.len() {
                    assert(a[i].children[k] == b[i].children[k]);
                }
            }
            assert forall|k: int, l: int| 0 <= k < l < b[i].children.len() implies b[i].children[k]
                < b[i].children[l] by {
                if l < a[i].children.len() {
                    assert(a[i].children[k] == b[i].children[k]);
                    assert(a[i].children[l] == b[i].children[l]);
                } else {
                    assert(a[i].children[k] == b[i].children[k]);
                }
            }
        } else {
            assert(b[p].children[a[p].children.len() as int] == n);
        }
    }
}

} // verus!
