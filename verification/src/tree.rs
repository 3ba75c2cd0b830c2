//! A tree kept in an arena. The store owns every node; callers hold handles,
//! which are plain identifiers and stay meaningful when nodes are removed: a
//! handle to a removed node is refused, it never answers with stale data.

use vstd::prelude::*;

pub mod laws;
pub mod model;

use crate::tree::model::{
    descends, is_live, lemma_same_links_well_formed, lemma_with_child_well_formed,
    lemma_with_root_well_formed, links_ok, live_parent, path_from_root, preorder, preorder_from,
    value_at, well_formed, with_child, with_root, without_node, without_subtree, Arena, Entry,
};

verus! {

/// A lightweight, copyable name for one node of a [`Tree`].
#[derive(Clone, Copy, Debug, PartialEq, Eq, Structural)]
pub struct Handle {
    id: usize,
}

impl Handle {
    /// The position in the arena that the handle names.
    pub closed spec fn view(&self) -> int {
        self.id as int
    }
}

/// Why an operation on a [`Tree`] was refused.
#[derive(Clone, Copy, Debug, PartialEq, Eq, Structural)]
pub enum TreeError {
    /// The handle names no entry, or one that has been removed.
    InvalidHandle,
}

/// The storage of one node.
struct Node<T> {
    value: T,
    parent: Option<usize>,
    children: Vec<usize>,
    live: bool,
}

impl<T> Node<T> {
    spec fn view(&self) -> Entry<T> {
        Entry {
            value: self.value,
            parent: match self.parent {
                Some(p) => Some(p as int),
                None => None,
            },
            children: self.children@.map_values(|c: usize| c as int),
            live: self.live,
        }
    }
}

/// A tree, together with every node that was ever pushed into it.
pub struct Tree<T> {
    nodes: Vec<Node<T>>,
}

impl<T: Copy> Tree<T> {
    /// The arena as contracts see it.
    pub closed spec fn view(&self) -> Arena<T> {
        self.nodes@.map_values(|n: Node<T>| n@)
    }

    /// The invariant that every operation keeps.
    pub open spec fn wf(&self) -> bool {
        well_formed(self@)
    }

    /// A store that holds one root with `value`.
    pub fn new(value: T) -> (tree: Self)
        ensures
            tree.wf(),
            tree@ == with_root(Seq::<Entry<T>>::empty(), value),
    {
        let mut nodes: Vec<Node<T>> = Vec::new();
        nodes.push(Node { value, parent: None, children: Vec::new(), live: true });
        let tree = Tree { nodes };
        proof {
            let a = with_root(Seq::<Entry<T>>::empty(), value);
            assert(tree.nodes@[0]@.children =~= Seq::<int>::empty());
            assert(tree@ =~= a);
            lemma_with_root_well_formed(Seq::<Entry<T>>::empty(), value);
        }
        tree
    }

    /// The handle of the root that the store was made with.
    pub fn root(&self) -> (h: Handle)
        ensures
            h@ == 0,
    {
        Handle { id: 0 }
    }

    /// Whether `h` names a node that exists and has not been removed.
    pub fn is_live(&self, h: Handle) -> (r: bool)
        ensures
            r == is_live(self@, h@),
    {
        h.id < self.nodes.len() && self.nodes[h.id].live
    }

    /// Creates one more root, unconnected to the nodes already there.
    pub fn create_root(&mut self, value: T) -> (h: Handle)
        requires
            old(self).wf(),
        ensures
            final(self).wf(),
            h@ == old(self)@.len(),
            final(self)@ == with_root(old(self)@, value),
    {
        let id = self.nodes.len();
        self.nodes.push(Node { value, parent: None, children: Vec::new(), live: true });
        proof {
            assert(self.nodes@[id as int]@.children =~= Seq::<int>::empty());
            assert(self@ =~= with_root(old(self)@, value));
            lemma_with_root_well_formed(old(self)@, value);
        }
        Handle { id }
    }

    /// Pushes `value` as the youngest child of `parent`. Nothing else changes:
    /// every handle that was live stays live and keeps its value.
    pub fn push(&mut self, parent: Handle, value: T) -> (r: Result<Handle, TreeError>)
        requires
            old(self).wf(),
        ensures
            final(self).wf(),
            match r {
                Ok(h) => is_live(old(self)@, parent@) && h@ == old(self)@.len() && final(self)@
                    == with_child(old(self)@, parent@, value),
                Err(e) => e == TreeError::InvalidHandle && !is_live(old(self)@, parent@)
                    && final(self)@ == old(self)@,
            },
            forall|i: int|
                is_live(old(self)@, i) ==> is_live(final(self)@, i) && final(self)@[i].value
                    == old(self)@[i].value,
    {
        if !self.is_live(parent) {
            return Err(TreeError::InvalidHandle);
        }
        let id = self.nodes.len();
        self.nodes[parent.id].children.push(id);
        self.nodes.push(Node { value, parent: Some(parent.id), children: Vec::new(), live: true });
        proof {
            let a = old(self)@;
            let b = with_child(a, parent@, value);
            assert(self.nodes@[id as int]@.children =~= Seq::<int>::empty());
            assert(self.nodes@[parent@]@.children =~= a[parent@].children.push(id as int));
            assert(self@ =~= b);
            lemma_with_child_well_formed(a, parent@, value);
        }
        Ok(Handle { id })
    }

    /// The value stored in the node `h`.
    pub fn value(&self, h: Handle) -> (r: Result<T, TreeError>)
        ensures
            r == match value_at(self@, h@) {
                Some(v) => Ok::<T, TreeError>(v),
                None => Err::<T, TreeError>(TreeError::InvalidHandle),
            },
    {
        if !self.is_live(h) {
            return Err(TreeError::InvalidHandle);
        }
        Ok(self.nodes[h.id].value)
    }

    /// Whether the node `h` was created as a root. This tells a root from a
    /// node that has lost its parent; `parent` gives `None` for both.
    pub fn is_root(&self, h: Handle) -> (r: Result<bool, TreeError>)
        ensures
            match r {
                Ok(b) => is_live(self@, h@) && b == self@[h@].parent.is_none(),
                Err(e) => e == TreeError::InvalidHandle && !is_live(self@, h@),
            },
    {
        if !self.is_live(h) {
            return Err(TreeError::InvalidHandle);
        }
        Ok(self.nodes[h.id].parent.is_none())
    }

    /// The parent of the node `h`, as long as that parent is live. A root has
    /// none, and neither has a node whose parent was removed.
    pub fn parent(&self, h: Handle) -> (r: Result<Option<Handle>, TreeError>)
        requires
            self.wf(),
        ensures
            match r {
                Ok(Some(p)) => is_live(self@, h@) && live_parent(self@, h@) == Some(p@),
                Ok(None) => is_live(self@, h@) && live_parent(self@, h@).is_none(),
                Err(e) => e == TreeError::InvalidHandle && !is_live(self@, h@),
            },
    {
        if !self.is_live(h) {
            return Err(TreeError::InvalidHandle);
        }
        match self.nodes[h.id].parent {
            Some(p) => {
                proof {
                    assert(links_ok(self@, h@));
                }
                if self.nodes[p].live {
                    Ok(Some(Handle { id: p }))
                } else {
                    Ok(None)
                }
            },
            None => Ok(None),
        }
    }

    /// The values on the way from the top down to the node `h`, which comes
    /// last. The way starts at a root, or just below the nearest removed
    /// ancestor of `h`.
    pub fn values_from_root(&self, h: Handle) -> (r: Result<Vec<T>, TreeError>)
        requires
            self.wf(),
        ensures
            match r {
                Ok(values) => is_live(self@, h@) && values@ == path_from_root(self@, h@)
                    && values@.len() >= 1 && values@.last() == self@[h@].value,
                Err(e) => e == TreeError::InvalidHandle && !is_live(self@, h@),
            },
    {
        if !self.is_live(h) {
            return Err(TreeError::InvalidHandle);
        }
        let mut upwards: Vec<T> = Vec::new();
        upwards.push(self.nodes[h.id].value);
        let mut current = h;
        loop
            invariant
                self.wf(),
                is_live(self@, current@),
                path_from_root(self@, h@) == path_from_root(self@, current@).drop_last()
                    + upwards@.reverse(),
            ensures
                path_from_root(self@, h@) == upwards@.reverse(),
            decreases current@,
        {
            match self.parent(current) {
                Ok(Some(p)) => {
                    proof {
                        let up = upwards@.push(self@[p@].value);
                        assert(path_from_root(self@, current@).drop_last() =~= path_from_root(
                            self@,
                            p@,
                        ));
                        assert(path_from_root(self@, p@) =~= path_from_root(self@, p@).drop_last()
                            + seq![self@[p@].value]);
                        assert(up.reverse() =~= seq![self@[p@].value] + upwards@.reverse());
                        assert(path_from_root(self@, h@) =~= path_from_root(self@, p@).drop_last()
                            + up.reverse());
                    }
                    upwards.push(self.nodes[p.id].value);
                    current = p;
                },
                _ => {
                    proof {
                        assert(path_from_root(self@, current@).drop_last() =~= Seq::<T>::empty());
                    }
                    break ;
                },
            }
        }
        Ok(reversed(&upwards))
    }

    /// Appends to `values` the subtree of the node `start` in pre-order, with
    /// a worklist in place of recursion.
    fn collect(&self, start: usize, values: &mut Vec<T>)
        requires
            self.wf(),
            start < self@.len(),
        ensures
            final(values)@ == old(values)@ + preorder(self@, start as int),
    {
        let ghost goal = old(values)@ + preorder(self@, start as int);
        let mut pending: Vec<usize> = Vec::new();
        pending.push(start);
        proof {
            assert(pending@.drop_last() =~= Seq::<usize>::empty());
            assert(backlog(self@, pending@.drop_last()) =~= Seq::<T>::empty());
            assert(backlog(self@, pending@) =~= preorder(self@, start as int));
        }
        while pending.len() > 0
            invariant
                self.wf(),
                forall|j: int| 0 <= j < pending@.len() ==> (#[trigger] pending@[j]) < self@.len(),
                values@ + backlog(self@, pending@) == goal,
            decreases goal.len() - values@.len(),
        {
            let ghost before = values@;
            let ghost stack = pending@;
            let id = pending.pop().unwrap();
            let ghost rest = pending@;
            values.push(self.nodes[id].value);
            let mut k = self.nodes[id].children.len();
            proof {
                assert(rest =~= stack.drop_last());
                assert(links_ok(self@, id as int));
                assert(preorder_from(self@, id as int, k as int) =~= Seq::<T>::empty());
            }
            while k > 0
                invariant
                    self.wf(),
                    id < self@.len(),
                    0 <= k <= self@[id as int].children.len(),
                    forall|j: int|
                        0 <= j < pending@.len() ==> (#[trigger] pending@[j]) < self@.len(),
                    backlog(self@, pending@) == preorder_from(self@, id as int, k as int)
                        + backlog(self@, rest),
                decreases k,
            {
                k = k - 1;
                let child = self.nodes[id].children[k];
                proof {
                    assert(links_ok(self@, id as int));
                    assert(self@[id as int].children[k as int] == child);
                }
                if self.nodes[child].live {
                    proof {
                        let grown = pending@.push(child);
                        assert(grown.drop_last() =~= pending@);
                        assert(backlog(self@, grown) =~= preorder_from(
                            self@,
                            id as int,
                            k as int,
                        ) + backlog(self@, rest));
                    }
                    pending.push(child);
                }
            }
            proof {
                assert(values@ + backlog(self@, pending@) =~= before + backlog(self@, stack));
            }
        }
        proof {
            assert(values@ =~= goal);
        }
    }

    /// The values of the subtree of the node `h` in pre-order: `h` first,
    /// then the subtree of each live child, oldest child first.
    pub fn to_vec(&self, h: Handle) -> (r: Result<Vec<T>, TreeError>)
        requires
            self.wf(),
        ensures
            match r {
                Ok(values) => is_live(self@, h@) && values@ == preorder(self@, h@),
                Err(e) => e == TreeError::InvalidHandle && !is_live(self@, h@),
            },
    {
        if !self.is_live(h) {
            return Err(TreeError::InvalidHandle);
        }
        let mut values: Vec<T> = Vec::new();
        self.collect(h.id, &mut values);
        Ok(values)
    }

    /// Removes the node `h` alone. Its descendants stay live; their way to
    /// the root now ends below `h`.
    pub fn drop_node(&mut self, h: Handle) -> (r: Result<(), TreeError>)
        requires
            old(self).wf(),
        ensures
            final(self).wf(),
            match r {
                Ok(_) => is_live(old(self)@, h@) && final(self)@ == without_node(old(self)@, h@),
                Err(e) => e == TreeError::InvalidHandle && !is_live(old(self)@, h@)
                    && final(self)@ == old(self)@,
            },
    {
        if !self.is_live(h) {
            return Err(TreeError::InvalidHandle);
        }
        self.nodes[h.id].live = false;
        proof {
            assert(self@ =~= without_node(old(self)@, h@));
            lemma_same_links_well_formed(old(self)@, self@);
        }
        Ok(())
    }

    /// Removes the node `h` and everything below it. The links stay as they
    /// are: the parent of `h` still lists it, as a removed child.
    pub fn remove_subtree(&mut self, h: Handle) -> (r: Result<(), TreeError>)
        requires
            old(self).wf(),
        ensures
            final(self).wf(),
            match r {
                Ok(_) => is_live(old(self)@, h@) && final(self)@ == without_subtree(
                    old(self)@,
                    h@,
                ),
                Err(e) => e == TreeError::InvalidHandle && !is_live(old(self)@, h@)
                    && final(self)@ == old(self)@,
            },
    {
        if !self.is_live(h) {
            return Err(TreeError::InvalidHandle);
        }
        let ghost before = self@;
        let n = self.nodes.len();
        let mut below: Vec<bool> = Vec::new();
        let mut i: usize = 0;
        while i < n
            invariant
                well_formed(before),
                i <= n,
                n == before.len(),
                self@.len() == n,
                below@.len() == i,
                forall|j: int| 0 <= j < i ==> #[trigger] below@[j] == descends(before, j, h@),
                forall|j: int|
                    0 <= j < n ==> #[trigger] self@[j] == (Entry {
                        live: before[j].live && (j >= i || !descends(before, j, h@)),
                        ..before[j]
                    }),
            decreases n - i,
        {
            proof {
                assert(links_ok(before, i as int));
                assert(self@[i as int].parent == before[i as int].parent);
            }
            let hit = i == h.id || match self.nodes[i].parent {
                Some(q) => below[q],
                None => false,
            };
            below.push(hit);
            let ghost mid = self@;
            if hit {
                self.nodes[i].live = false;
            }
            proof {
                assert forall|j: int| 0 <= j < n implies #[trigger] self@[j] == (Entry {
                    live: before[j].live && (j >= i + 1 || !descends(before, j, h@)),
                    ..before[j]
                }) by {
                    assert(mid[j] == (Entry {
                        live: before[j].live && (j >= i || !descends(before, j, h@)),
                        ..before[j]
                    }));
                }
            }
            i = i + 1;
        }
        proof {
            assert(self@ =~= without_subtree(before, h@));
            lemma_same_links_well_formed(before, self@);
        }
        Ok(())
    }
}

/// What a worklist still owes: the subtrees of its entries, the last entry
/// first.
spec fn backlog<T>(a: Arena<T>, pending: Seq<usize>) -> Seq<T>
    decreases pending.len(),
{
    if pending.len() == 0 {
        Seq::empty()
    } else {
        preorder(a, pending.last() as int) + backlog(a, pending.drop_last())
    }
}

/// The items of `items` from the last to the first.
fn reversed<T: Copy>(items: &Vec<T>) -> (r: Vec<T>)
    ensures
        r@ == items@.reverse(),
{
    let mut r: Vec<T> = Vec::new();
    let mut i = items.len();
    while i > 0
        invariant
            i <= items@.len(),
            r@.len() == items@.len() - i,
            forall|j: int| 0 <= j < r@.len() ==> r@[j] == items@[items@.len() - 1 - j],
        decreases i,
    {
        i = i - 1;
        r.push(items[i]);
    }
    proof {
        assert(r@ =~= items@.reverse());
    }
    r
}

} // verus!
