use vstd::multiset::Multiset;
use vstd::prelude::*;

use crate::ncube::NCube;
use crate::node::{holds_position, Node, NodeTopology};
use crate::partition::{pow2, Partition, Subdivide};
use crate::position::AsPosition;

verus! {

/// Why an item could not be inserted.
#[derive(Clone, Copy, Debug, PartialEq, Eq)]
pub enum InsertError {
    /// The item's position lies outside the root partition.
    OutOfDomain,
    /// A stored item already lies at the item's position. Two items at one
    /// position share every cell, so no subdivision could tell them apart.
    Collision,
}

/// What inserting an item at `p` into a tree over `partition` that holds
/// `stored` gives.
pub open spec fn insert_outcome<L: AsPosition>(
    partition: NCube,
    stored: Multiset<L>,
    p: Seq<i64>,
) -> Result<(), InsertError> {
    if !partition.spec_contains(p) {
        Err(InsertError::OutOfDomain)
    } else if holds_position(stored, p) {
        Err(InsertError::Collision)
    } else {
        Ok(())
    }
}

/// The items held, and the result, after inserting `items` in order into a
/// tree over `partition` that holds `stored`, stopping at the first failure.
pub open spec fn insert_all<L: AsPosition>(
    partition: NCube,
    stored: Multiset<L>,
    items: Seq<L>,
) -> (Multiset<L>, Result<(), InsertError>)
    decreases items.len(),
{
    if items.len() == 0 {
        (stored, Ok(()))
    } else {
        match insert_outcome(partition, stored, items[0].spec_position()) {
            Ok(_) => insert_all(partition, stored.insert(items[0]), items.drop_first()),
            Err(e) => (stored, Err(e)),
        }
    }
}

/// A spatial tree: a root node covering the whole domain.
pub struct Tree<L, A> {
    root: Node<L, A>,
}

impl<L: AsPosition, A> Tree<L, A> {
    pub closed spec fn spec_root(&self) -> Node<L, A> {
        self.root
    }

    pub open spec fn wf(&self) -> bool {
        self.spec_root().wf()
    }

    /// The root partition.
    pub open spec fn spec_partition(&self) -> NCube {
        self.spec_root().spec_partition()
    }

    /// The items held.
    pub open spec fn contents(&self) -> Multiset<L> {
        self.spec_root().contents()
    }

    /// A tree with an empty leaf over `partition` as its root.
    pub fn empty(partition: NCube) -> (r: Self)
        where
            A: Default,
        requires
            partition.well_formed(),
        ensures
            r.wf(),
            r.spec_partition() == partition,
            r.contents() == Multiset::<L>::empty(),
            r.spec_root().is_empty_leaf(),
            call_ensures(A::default, (), r.spec_root().spec_data()),
    {
        Tree { root: Node::empty(partition, A::default()) }
    }

    /// Opens the tree for a batch of insertions.
    pub fn mutate(self) -> (r: Mutation<L, A>)
        ensures
            r.spec_tree() == self,
    {
        Mutation { tree: self }
    }

    pub fn as_root_node(&self) -> (r: &Node<L, A>)
        ensures
            *r == self.spec_root(),
    {
        &self.root
    }
}

impl<L: AsPosition> Tree<L, ()> {
    /// Builds a tree over `partition` holding `items`, or the error of the
    /// first item that could not be inserted.
    pub fn from_iter(partition: NCube, items: Vec<L>) -> (r: Result<Self, InsertError>)
        requires
            partition.well_formed(),
        ensures
            ({
                let (stored, res) = insert_all(partition, Multiset::empty(), items@);
                &&& r is Ok <==> res is Ok
                &&& r matches Err(e) ==> res == Err::<(), InsertError>(e)
                &&& r matches Ok(t) ==> t.wf() && t.spec_partition() == partition && t.contents()
                    == stored
            }),
    {
        let mut m = Tree::empty(partition).mutate();
        match m.append(items) {
            Ok(()) => Ok(m.commit()),
            Err(e) => Err(e),
        }
    }
}

impl<L: AsPosition, A: Default> Tree<L, A> {
    /// Builds a tree over `partition` holding `items`, then computes its
    /// aggregates with `f`; or the error of the first item that could not be
    /// inserted.
    pub fn from_iter_with<F>(partition: NCube, items: Vec<L>, f: F) -> (r: Result<
        Self,
        InsertError,
    >)
        where
            F: Fn(NodeTopology<(&A, &A), &L>) -> A,
        requires
            partition.well_formed(),
            forall|t: NodeTopology<(&A, &A), &L>| f.requires((t,)),
        ensures
            ({
                let (stored, res) = insert_all(partition, Multiset::empty(), items@);
                &&& r is Ok <==> res is Ok
                &&& r matches Err(e) ==> res == Err::<(), InsertError>(e)
                &&& r matches Ok(t) ==> t.wf() && t.spec_partition() == partition && t.contents()
                    == stored && t.spec_root().aggregated(f)
            }),
    {
        let mut m = Tree::empty(partition).mutate();
        match m.append(items) {
            Ok(()) => Ok(m.commit_with(f)),
            Err(e) => Err(e),
        }
    }
}

/// Exclusive access to a tree for a batch of insertions.
pub struct Mutation<L, A> {
    tree: Tree<L, A>,
}

impl<L: AsPosition, A> Mutation<L, A> {
    pub closed spec fn spec_tree(&self) -> Tree<L, A> {
        self.tree
    }

    pub open spec fn wf(&self) -> bool {
        self.spec_tree().wf()
    }

    pub open spec fn spec_partition(&self) -> NCube {
        self.spec_tree().spec_partition()
    }

    pub open spec fn contents(&self) -> Multiset<L> {
        self.spec_tree().contents()
    }

    /// Inserts `item`. On failure nothing changes. On success every existing
    /// aggregate is kept and every node the insertion creates carries a default
    /// aggregate; `commit_with` recomputes them.
    pub fn insert(&mut self, item: L) -> (r: Result<(), InsertError>)
        where
            A: Default,
        requires
            old(self).wf(),
        ensures
            r == insert_outcome(old(self).spec_partition(), old(self).contents(), item.spec_position()),
            r is Ok ==> {
                &&& final(self).wf()
                &&& final(self).spec_partition() == old(self).spec_partition()
                &&& final(self).contents() == old(self).contents().insert(item)
                &&& final(self).spec_tree().spec_root().find(item.spec_position()) == Some(item)
                &&& old(self).spec_tree().spec_root().keeps_aggregates(
                    final(self).spec_tree().spec_root(),
                    item.spec_position(),
                )
            },
            r is Err ==> *final(self) == *old(self),
    {
        let ghost p = item.spec_position();
        proof {
            self.tree.root.lemma_wf_partition();
        }
        if !self.tree.root.partition().contains(item.as_position()) {
            return Err(InsertError::OutOfDomain);
        }
        proof {
            self.tree.root.lemma_placeable_contents(p);
        }
        if !self.tree.root.can_place(item.as_position()) {
            return Err(InsertError::Collision);
        }
        self.tree.root.insert(item);
        proof {
            assert(self.tree.root.contents().count(item) > 0);
            self.tree.root.lemma_find_contents(item);
        }
        Ok(())
    }

    /// Inserts `items` in order, stopping at the first that fails; the items
    /// inserted before it stay.
    pub fn append(&mut self, items: Vec<L>) -> (r: Result<(), InsertError>)
        where
            A: Default,
        requires
            old(self).wf(),
        ensures
            final(self).wf(),
            final(self).spec_partition() == old(self).spec_partition(),
            (final(self).contents(), r) == insert_all(
                old(self).spec_partition(),
                old(self).contents(),
                items@,
            ),
    {
        let ghost all = items@;
        let mut pending = items;
        let mut res: Result<(), InsertError> = Ok(());
        while res.is_ok() && pending.len() > 0
            invariant
                self.wf(),
                self.spec_partition() == old(self).spec_partition(),
                res is Ok ==> insert_all(self.spec_partition(), self.contents(), pending@)
                    == insert_all(old(self).spec_partition(), old(self).contents(), all),
                res is Err ==> (self.contents(), res) == insert_all(
                    old(self).spec_partition(),
                    old(self).contents(),
                    all,
                ),
            decreases pending@.len(),
        {
            let ghost rest = pending@;
            let item = pending.remove(0);
            assert(pending@ =~= rest.drop_first());
            res = self.insert(item);
        }
        match res {
            Ok(_) => Ok(()),
            Err(e) => Err(e),
        }
    }

    /// Ends the batch and recomputes every aggregate with `f`.
    pub fn commit_with<F>(self, f: F) -> (r: Tree<L, A>)
        where
            A: Default,
            F: Fn(NodeTopology<(&A, &A), &L>) -> A,
        requires
            self.wf(),
            forall|t: NodeTopology<(&A, &A), &L>| f.requires((t,)),
        ensures
            r.wf(),
            r.spec_partition() == self.spec_partition(),
            r.contents() == self.contents(),
            self.spec_tree().spec_root().same_shape(r.spec_root()),
            r.spec_root().aggregated(f),
    {
        let Mutation { mut tree } = self;
        tree.root.recompute(&f);
        proof {
            self.spec_tree().spec_root().lemma_same_shape(tree.root);
        }
        tree
    }
}

impl<L: AsPosition> Mutation<L, ()> {
    /// Ends the batch. The tree has no aggregates to recompute.
    pub fn commit(self) -> (r: Tree<L, ()>)
        ensures
            r == self.spec_tree(),
    {
        self.tree
    }
}

impl<L, A> From<Tree<L, A>> for Mutation<L, A> {
    fn from(tree: Tree<L, A>) -> (r: Self) {
        Mutation { tree }
    }
}

impl<L, A> vstd::std_specs::convert::FromSpecImpl<Tree<L, A>> for Mutation<L, A> {
    open spec fn obeys_from_spec() -> bool {
        true
    }

    closed spec fn from_spec(tree: Tree<L, A>) -> Self {
        Mutation { tree }
    }
}

/// Inserting two items at different positions of the root partition into a
/// fresh tree succeeds for both. When their child indices differ, the root
/// becomes a branch whose children are leaves: the child at each item's index
/// holds that item and the others are empty.
pub proof fn lemma_leaf_to_branch<L: AsPosition, A>(t: Tree<L, A>, a: L, b: L)
    requires
        t.wf(),
        t.spec_partition().spec_contains(a.spec_position()),
        t.spec_partition().spec_contains(b.spec_position()),
        a.spec_position() != b.spec_position(),
        t.contents() == Multiset::<L>::empty().insert(a).insert(b),
    ensures
        insert_outcome(t.spec_partition(), Multiset::<L>::empty(), a.spec_position()) == Ok::<
            (),
            InsertError,
        >(()),
        insert_outcome(
            t.spec_partition(),
            Multiset::<L>::empty().insert(a),
            b.spec_position(),
        ) == Ok::<(), InsertError>(()),
        t.spec_root().is_branch(),
        t.spec_partition().spec_index(a.spec_position()) != t.spec_partition().spec_index(
            b.spec_position(),
        ) ==> ({
            let root = t.spec_root();
            let ka = t.spec_partition().spec_index(a.spec_position()) as int;
            let kb = t.spec_partition().spec_index(b.spec_position()) as int;
            &&& root.spec_children().len() == pow2(t.spec_partition().spec_dimension())
            &&& forall|k: int|
                0 <= k < root.spec_children().len() ==> !(#[trigger] root.spec_children()[k]).is_branch()
            &&& root.spec_children()[ka].spec_item() == Some(a)
            &&& root.spec_children()[kb].spec_item() == Some(b)
            &&& forall|k: int|
                0 <= k < root.spec_children().len() && k != ka && k != kb
                    ==> (#[trigger] root.spec_children()[k]).spec_item() is None
        }),
{
    assert(!holds_position(Multiset::<L>::empty(), a.spec_position()));
    if holds_position(Multiset::<L>::empty().insert(a), b.spec_position()) {
        let x = choose|x: L| #[trigger] Multiset::<L>::empty().insert(a).count(x) > 0
            && x.spec_position() == b.spec_position();
        assert(x == a);
    }
    t.spec_root().lemma_two_points(a, b);
    if t.spec_partition().spec_index(a.spec_position()) != t.spec_partition().spec_index(
        b.spec_position(),
    ) {
        t.spec_root().lemma_two_items(a, b);
    }
}

} // verus!
