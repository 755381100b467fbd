use vstd::multiset::Multiset;
use vstd::prelude::*;

use crate::ncube::{lemma_containment_closure, lemma_distinct_points_split, NCube, MAX_SCALE};
use crate::partition::{pow2, Partition, Subdivide};
use crate::position::{AsPosition, Position};

verus! {

/// Either a branch or a leaf.
pub enum NodeTopology<B, L> {
    Branch(B),
    Leaf(L),
}

impl<B, L> NodeTopology<B, L> {
    pub fn into_branch(self) -> (r: Option<B>)
        ensures
            r == (match self {
                NodeTopology::Branch(b) => Some(b),
                NodeTopology::Leaf(_) => None,
            }),
    {
        if let NodeTopology::Branch(branch) = self {
            Some(branch)
        } else {
            None
        }
    }

    pub fn into_leaf(self) -> (r: Option<L>)
        ensures
            r == (match self {
                NodeTopology::Branch(_) => None,
                NodeTopology::Leaf(l) => Some(l),
            }),
    {
        if let NodeTopology::Leaf(leaf) = self {
            Some(leaf)
        } else {
            None
        }
    }

    pub fn to_ref(&self) -> (r: NodeTopology<&B, &L>)
        ensures
            match (r, *self) {
                (NodeTopology::Branch(x), NodeTopology::Branch(y)) => *x == y,
                (NodeTopology::Leaf(x), NodeTopology::Leaf(y)) => *x == y,
                _ => false,
            },
    {
        match self {
            NodeTopology::Branch(branch) => NodeTopology::Branch(branch),
            NodeTopology::Leaf(leaf) => NodeTopology::Leaf(leaf),
        }
    }
}

/// An internal node: `2^N` children, in the order of the partition's child index.
pub struct Branch<L, A> {
    nodes: Vec<Node<L, A>>,
}

/// A terminal node holding at most one item.
pub struct Leaf<L> {
    data: Option<L>,
}

/// A node of the tree: its aggregate, its topology and the region it covers.
pub struct Node<L, A> {
    data: A,
    topology: NodeTopology<Branch<L, A>, Leaf<L>>,
    partition: NCube,
}

impl<L> Leaf<L> {
    pub closed spec fn spec_item(&self) -> Option<L> {
        self.data
    }

    pub fn get(&self) -> (r: Option<&L>)
        ensures
            r is Some == self.spec_item() is Some,
            r matches Some(x) ==> *x == self.spec_item()->0,
    {
        self.data.as_ref()
    }
}

impl<L, A> Branch<L, A> {
    pub closed spec fn spec_nodes(&self) -> Seq<Node<L, A>> {
        self.nodes@
    }

    pub fn nodes(&self) -> (r: &[Node<L, A>])
        ensures
            r@ == self.spec_nodes(),
    {
        self.nodes.as_slice()
    }
}

impl<L, A> Node<L, A> {
    /// The node's aggregate.
    pub fn get(&self) -> (r: &A)
        ensures
            *r == self.spec_data(),
    {
        &self.data
    }

    pub fn topology(&self) -> (r: NodeTopology<&Branch<L, A>, &Leaf<L>>)
        ensures
            match r {
                NodeTopology::Branch(b) => self.is_branch() && b.spec_nodes() == self.spec_children(),
                NodeTopology::Leaf(l) => !self.is_branch() && l.spec_item() == self.spec_item(),
            },
    {
        self.topology.to_ref()
    }

    /// The region this node covers.
    pub fn partition(&self) -> (r: &NCube)
        ensures
            *r == self.spec_partition(),
    {
        &self.partition
    }

    pub fn as_leaf(&self) -> (r: Option<&Leaf<L>>)
        ensures
            r is Some == !self.is_branch(),
            r matches Some(l) ==> l.spec_item() == self.spec_item(),
    {
        self.topology.to_ref().into_leaf()
    }

    pub fn as_branch(&self) -> (r: Option<&Branch<L, A>>)
        ensures
            r is Some == self.is_branch(),
            r matches Some(b) ==> b.spec_nodes() == self.spec_children(),
    {
        self.topology.to_ref().into_branch()
    }
}

impl<L, A> Node<L, A> {
    /// The children of a branch for exclusive access, or `None` for a leaf.
    pub(crate) fn children_mut(&mut self) -> (r: Option<&mut [Node<L, A>]>)
        ensures
            r is Some == old(self).is_branch(),
            r matches Some(s) ==> s@ == old(self).spec_children(),
            r matches Some(s) ==> final(self).is_branch() && final(self).spec_children() == final(s)@,
            final(self).spec_partition() == old(self).spec_partition(),
            final(self).spec_data() == old(self).spec_data(),
            r is None ==> *final(self) == *old(self),
    {
        match &mut self.topology {
            NodeTopology::Branch(branch) => Some(branch.nodes.as_mut_slice()),
            NodeTopology::Leaf(_) => None,
        }
    }
}

/// The union of the contents of `nodes[0..k]`.
pub closed spec fn contents_upto<L, A>(nodes: Seq<Node<L, A>>, k: nat) -> Multiset<L>
    decreases nodes, k,
{
    if k == 0 || k > nodes.len() {
        Multiset::empty()
    } else {
        contents_upto(nodes, (k - 1) as nat).add(nodes[k - 1].contents())
    }
}

impl<L, A> Node<L, A> {
    pub closed spec fn spec_data(&self) -> A {
        self.data
    }

    pub closed spec fn spec_partition(&self) -> NCube {
        self.partition
    }

    pub closed spec fn is_branch(&self) -> bool {
        self.topology is Branch
    }

    /// The children of a branch, empty for a leaf.
    pub closed spec fn spec_children(&self) -> Seq<Node<L, A>> {
        match self.topology {
            NodeTopology::Branch(b) => b.nodes@,
            NodeTopology::Leaf(_) => Seq::empty(),
        }
    }

    /// The item of a leaf, `None` for an empty leaf or a branch.
    pub closed spec fn spec_item(&self) -> Option<L> {
        match self.topology {
            NodeTopology::Branch(_) => None,
            NodeTopology::Leaf(l) => l.data,
        }
    }

    /// The items stored beneath this node.
    pub closed spec fn contents(&self) -> Multiset<L>
        decreases self,
    {
        match self.topology {
            NodeTopology::Branch(b) => contents_upto(b.nodes@, b.nodes@.len()),
            NodeTopology::Leaf(l) => match l.data {
                Some(x) => Multiset::singleton(x),
                None => Multiset::empty(),
            },
        }
    }
}

impl<L, A> Node<L, A> {
    pub open spec fn is_empty_leaf(&self) -> bool {
        !self.is_branch() && self.spec_item() is None
    }
}

/// The partitions of a sequence of nodes.
pub closed spec fn partitions<L, A>(nodes: Seq<Node<L, A>>) -> Seq<NCube> {
    nodes.map_values(|c: Node<L, A>| c.partition)
}

/// The aggregates of a sequence of nodes.
pub closed spec fn aggregates<L, A>(nodes: Seq<Node<L, A>>) -> Seq<A> {
    nodes.map_values(|c: Node<L, A>| c.data)
}

/// Whether an item of `stored` lies at `p`.
pub open spec fn holds_position<L: AsPosition>(stored: Multiset<L>, p: Seq<i64>) -> bool {
    exists|x: L| #[trigger] stored.count(x) > 0 && x.spec_position() == p
}

/// Whether every item beneath `nodes[k]` has child index `k` in `partition`.
pub open spec fn routed<L: AsPosition, A>(partition: NCube, nodes: Seq<Node<L, A>>) -> bool {
    forall|k: int, x: L|
        0 <= k < nodes.len() && #[trigger] nodes[k].contents().count(x) > 0
            ==> partition.spec_index(x.spec_position()) == k
}

impl<L: AsPosition, A> Node<L, A> {
    /// The tree's invariant: every partition is valid; a leaf's item lies in
    /// its partition; a branch's partition can be halved, its children are its
    /// subdivision in index order, each item beneath child `k` has index `k`,
    /// and it holds at least two items.
    pub closed spec fn wf(&self) -> bool
        decreases self,
    {
        &&& self.partition.well_formed()
        &&& match self.topology {
            NodeTopology::Leaf(l) => l.data matches Some(x) ==> self.partition.spec_contains(
                x.spec_position(),
            ),
            NodeTopology::Branch(b) => {
                &&& self.partition.subdividable()
                &&& self.partition.is_subdivision(partitions(b.nodes@))
                &&& forall|k: int| 0 <= k < b.nodes@.len() ==> (#[trigger] b.nodes@[k]).wf()
                &&& routed(self.partition, b.nodes@)
                &&& contents_upto(b.nodes@, b.nodes@.len()).len() >= 2
            },
        }
    }

    /// The item of the leaf reached from this node by following the child
    /// index of `p` at each branch.
    pub closed spec fn find(&self, p: Seq<i64>) -> Option<L>
        decreases self,
    {
        match self.topology {
            NodeTopology::Leaf(l) => l.data,
            NodeTopology::Branch(b) => {
                let k = self.partition.spec_index(p) as int;
                if k < b.nodes@.len() {
                    b.nodes@[k].find(p)
                } else {
                    None
                }
            },
        }
    }

    /// Whether an item at `p` can be stored beneath this node: the leaf that
    /// `p` reaches is empty, or its item lies elsewhere.
    pub closed spec fn placeable(&self, p: Seq<i64>) -> bool
        decreases self,
    {
        match self.topology {
            NodeTopology::Leaf(l) => match l.data {
                None => true,
                Some(x) => x.spec_position() != p,
            },
            NodeTopology::Branch(b) => {
                let k = self.partition.spec_index(p) as int;
                k < b.nodes@.len() && b.nodes@[k].placeable(p)
            },
        }
    }
}

impl<L, A> Node<L, A> {
    /// Whether two nodes differ at most in their aggregates.
    pub closed spec fn same_shape(&self, other: Node<L, A>) -> bool
        decreases self,
    {
        &&& self.partition == other.partition
        &&& match (self.topology, other.topology) {
            (NodeTopology::Leaf(x), NodeTopology::Leaf(y)) => x.data == y.data,
            (NodeTopology::Branch(x), NodeTopology::Branch(y)) => {
                &&& x.nodes@.len() == y.nodes@.len()
                &&& forall|k: int|
                    0 <= k < x.nodes@.len() ==> (#[trigger] x.nodes@[k]).same_shape(y.nodes@[k])
            },
            _ => false,
        }
    }

    /// Whether every aggregate beneath this node is what recomputation with
    /// `f` gives: a default value for an empty leaf, `f` of the item for an
    /// occupied leaf, and for a branch the fold of `f` over its children's
    /// aggregates in index order.
    pub closed spec fn aggregated<F: Fn(NodeTopology<(&A, &A), &L>) -> A>(&self, f: F) -> bool
        where
            A: Default,
        decreases self,
    {
        match self.topology {
            NodeTopology::Leaf(l) => match l.data {
                None => call_ensures(A::default, (), self.data),
                Some(x) => f.ensures((NodeTopology::Leaf(&x),), self.data),
            },
            NodeTopology::Branch(b) => {
                &&& forall|k: int|
                    0 <= k < b.nodes@.len() ==> (#[trigger] b.nodes@[k]).aggregated(f)
                &&& folds(f, aggregates(b.nodes@), self.data)
            },
        }
    }
}

/// Whether `result` is the left fold of `f` over `datas`, starting from a
/// default aggregate: some sequence of accumulators starts at a value that
/// `A::default` may return, steps by `f` applied to the accumulator and the
/// next value, and ends at `result`.
pub open spec fn folds<L, A: Default, F: Fn(NodeTopology<(&A, &A), &L>) -> A>(
    f: F,
    datas: Seq<A>,
    result: A,
) -> bool {
    exists|accs: Seq<A>|
        {
            &&& accs.len() == datas.len() + 1
            &&& call_ensures(A::default, (), accs[0])
            &&& accs[datas.len() as int] == result
            &&& forall|i: int|
                0 <= i < datas.len() ==> f.ensures(
                    (NodeTopology::Branch((&accs[i], &datas[i])),),
                    #[trigger] accs[i + 1],
                )
        }
}

impl<L: AsPosition, A: Default> Node<L, A> {
    /// Whether every aggregate beneath this node, its own included, is a value
    /// that `A::default` may return.
    pub closed spec fn all_default(&self) -> bool
        decreases self,
    {
        &&& call_ensures(A::default, (), self.data)
        &&& match self.topology {
            NodeTopology::Leaf(_) => true,
            NodeTopology::Branch(b) => forall|k: int|
                0 <= k < b.nodes@.len() ==> (#[trigger] b.nodes@[k]).all_default(),
        }
    }

    /// Whether `new` is this node after an insertion at `p` that kept every
    /// existing aggregate: the node's own aggregate is the same; a branch keeps
    /// every child but the one at `p`'s index, which is related to its old
    /// value in the same way; an occupied leaf's new children carry default
    /// aggregates throughout.
    pub closed spec fn keeps_aggregates(&self, new: Node<L, A>, p: Seq<i64>) -> bool
        decreases self,
    {
        &&& new.data == self.data
        &&& match self.topology {
            NodeTopology::Leaf(l) => l.data is Some ==> forall|k: int|
                0 <= k < new.spec_children().len() ==> (#[trigger] new.spec_children()[k]).all_default(),
            NodeTopology::Branch(b) => {
                let k = self.partition.spec_index(p) as int;
                &&& new.is_branch()
                &&& new.spec_children().len() == b.nodes@.len()
                &&& forall|j: int|
                    0 <= j < b.nodes@.len() && j != k ==> #[trigger] new.spec_children()[j]
                        == b.nodes@[j]
                &&& 0 <= k < b.nodes@.len() ==> b.nodes@[k].keeps_aggregates(
                    new.spec_children()[k],
                    p,
                )
            },
        }
    }
}

/// Whether `f` counts items: one for a leaf's item, and for a branch step the
/// sum of the accumulator and the next child's count, where that sum fits in a
/// `u64` (above it, any value, such as a saturated one).
pub open spec fn counts_items<L, F: Fn(NodeTopology<(&u64, &u64), &L>) -> u64>(f: F) -> bool {
    &&& forall|x: L, r: u64| #[trigger] f.ensures((NodeTopology::Leaf(&x),), r) ==> r == 1
    &&& forall|a: u64, b: u64, r: u64|
        #[trigger] f.ensures((NodeTopology::Branch((&a, &b)),), r) ==> a + b > u64::MAX || r == a
            + b
}

impl<L, A> NodeTopology<Branch<L, A>, Leaf<L>> {
    /// An empty leaf.
    pub fn empty() -> (r: Self)
        ensures
            r matches NodeTopology::Leaf(l) && l.spec_item() is None,
    {
        NodeTopology::Leaf(Leaf { data: None })
    }
}

impl<L: AsPosition, A> Node<L, A> {
    /// An empty leaf over `partition`, with aggregate `data`.
    pub fn empty(partition: NCube, data: A) -> (r: Self)
        requires
            partition.well_formed(),
        ensures
            r.is_empty_leaf(),
            r.wf(),
            r.spec_partition() == partition,
            r.spec_data() == data,
            r.contents() == Multiset::<L>::empty(),
    {
        Node { data, topology: NodeTopology::empty(), partition }
    }

    /// Empty leaves over the subdivision of `partition`, in index order.
    fn empty_children(partition: &NCube) -> (r: Vec<Node<L, A>>)
        where
            A: Default,
        requires
            partition.well_formed(),
            partition.subdividable(),
        ensures
            partition.is_subdivision(partitions(r@)),
            forall|k: int| 0 <= k < r@.len() ==> (#[trigger] r@[k]).is_empty_leaf(),
            forall|k: int| 0 <= k < r@.len() ==> (#[trigger] r@[k]).wf(),
            forall|k: int| 0 <= k < r@.len() ==> (#[trigger] r@[k]).all_default(),
    {
        let mut parts = partition.subdivide();
        let ghost all = parts@;
        let mut nodes: Vec<Node<L, A>> = Vec::new();
        while parts.len() > 0
            invariant
                partition.is_subdivision(all),
                nodes@.len() + parts@.len() == all.len(),
                parts@ == all.subrange(nodes@.len() as int, all.len() as int),
                forall|k: int| 0 <= k < nodes@.len() ==> (#[trigger] nodes@[k]).spec_partition() == all[k],
                forall|k: int| 0 <= k < nodes@.len() ==> (#[trigger] nodes@[k]).is_empty_leaf(),
                forall|k: int| 0 <= k < nodes@.len() ==> (#[trigger] nodes@[k]).wf(),
                forall|k: int| 0 <= k < nodes@.len() ==> (#[trigger] nodes@[k]).all_default(),
            decreases parts@.len(),
        {
            let part = parts.remove(0);
            assert(part == all[nodes@.len() as int]);
            let d = A::default();
            let node = Node::empty(part, d);
            assert(node.all_default());
            nodes.push(node);
        }
        assert(partitions(nodes@) =~= all);
        nodes
    }
}

impl<L: AsPosition, A: Default> Node<L, A> {
    /// Inserts `item` into the child that the partition's index picks for it.
    fn dispatch(nodes: &mut Vec<Node<L, A>>, partition: &NCube, item: L)
        requires
            partition.well_formed(),
            partition.subdividable(),
            partition.is_subdivision(partitions(old(nodes)@)),
            forall|k: int| 0 <= k < old(nodes)@.len() ==> (#[trigger] old(nodes)@[k]).wf(),
            routed(*partition, old(nodes)@),
            partition.spec_contains(item.spec_position()),
            old(nodes)@[partition.spec_index(item.spec_position()) as int].placeable(
                item.spec_position(),
            ),
        ensures
            ({
                let k = partition.spec_index(item.spec_position()) as int;
                &&& k < old(nodes)@.len()
                &&& final(nodes)@ == old(nodes)@.update(k, final(nodes)@[k])
                &&& final(nodes)@[k].wf()
                &&& final(nodes)@[k].spec_partition() == old(nodes)@[k].spec_partition()
                &&& final(nodes)@[k].contents() == old(nodes)@[k].contents().insert(item)
                &&& old(nodes)@[k].is_empty_leaf() ==> !final(nodes)@[k].is_branch()
                    && final(nodes)@[k].spec_item() == Some(item)
                &&& old(nodes)@[k].keeps_aggregates(final(nodes)@[k], item.spec_position())
                &&& old(nodes)@[k].all_default() ==> final(nodes)@[k].all_default()
            }),
            partition.is_subdivision(partitions(final(nodes)@)),
            forall|k: int| 0 <= k < final(nodes)@.len() ==> (#[trigger] final(nodes)@[k]).wf(),
            routed(*partition, final(nodes)@),
        decreases MAX_SCALE - partition.spec_scale(), 0nat,
    {
        let ghost p = item.spec_position();
        proof {
            lemma_containment_closure(*partition, partitions(nodes@), p);
        }
        let k = partition.index_unchecked(item.as_position());
        proof {
            assert(partitions(nodes@)[k as int] == nodes@[k as int].spec_partition());
            assert(partition.is_child(k as int, partitions(nodes@)[k as int]));
        }
        nodes[k].insert(item);
        proof {
            assert(partitions(nodes@) =~= partitions(old(nodes)@));
            assert forall|j: int, x: L|
                0 <= j < nodes@.len() && #[trigger] nodes@[j].contents().count(x) > 0 implies partition.spec_index(x.spec_position(),
            ) == j by {
                if j != k {
                    assert(nodes@[j] == old(nodes)@[j]);
                } else if x != item {
                    assert(old(nodes)@[j].contents().count(x) > 0);
                }
            }
        }
    }

    /// Inserts `item` beneath this node, turning an occupied leaf into a branch.
    pub(crate) fn insert(&mut self, item: L)
        requires
            old(self).wf(),
            old(self).spec_partition().spec_contains(item.spec_position()),
            old(self).placeable(item.spec_position()),
        ensures
            final(self).wf(),
            final(self).spec_partition() == old(self).spec_partition(),
            final(self).contents() == old(self).contents().insert(item),
            old(self).is_empty_leaf() ==> !final(self).is_branch() && final(self).spec_item()
                == Some(item),
            final(self).spec_data() == old(self).spec_data(),
            old(self).keeps_aggregates(*final(self), item.spec_position()),
            old(self).all_default() ==> final(self).all_default(),
            old(self).spec_item() is Some ==> final(self).spec_partition().is_subdivision(
                final(self).spec_children().map_values(|c: Node<L, A>| c.spec_partition()),
            ),
            old(self).spec_item() matches Some(y) ==> final(self).is_branch() && (
            old(self).spec_partition().spec_index(y.spec_position())
                != old(self).spec_partition().spec_index(item.spec_position()) ==> {
                let c = final(self).spec_children();
                let ky = old(self).spec_partition().spec_index(y.spec_position()) as int;
                let kp = old(self).spec_partition().spec_index(item.spec_position()) as int;
                &&& forall|k: int| 0 <= k < c.len() ==> !(#[trigger] c[k]).is_branch()
                &&& c[ky].spec_item() == Some(y)
                &&& c[kp].spec_item() == Some(item)
                &&& forall|k: int|
                    0 <= k < c.len() && k != ky && k != kp ==> (#[trigger] c[k]).spec_item() is None
            }),
        decreases MAX_SCALE - old(self).spec_partition().spec_scale(), 1nat,
    {
        let ghost p = item.spec_position();
        let mut topology = NodeTopology::empty();
        std::mem::swap(&mut topology, &mut self.topology);
        match topology {
            NodeTopology::Leaf(Leaf { data: None }) => {
                self.topology = NodeTopology::Leaf(Leaf { data: Some(item) });
                proof {
                    assert(self.contents() =~= old(self).contents().insert(item));
                }
            },
            NodeTopology::Leaf(Leaf { data: Some(existing) }) => {
                let ghost q = existing.spec_position();
                proof {
                    lemma_distinct_points_split(self.partition, q, p);
                }
                let mut nodes = Self::empty_children(&self.partition);
                let ghost n0 = nodes@;
                proof {
                    lemma_contents_upto_empty(n0, n0.len());
                    lemma_containment_closure(self.partition, partitions(n0), p);
                    lemma_containment_closure(self.partition, partitions(n0), q);
                }
                let ghost kp = self.partition.spec_index(p) as int;
                let ghost kq = self.partition.spec_index(q) as int;
                Self::dispatch(&mut nodes, &self.partition, item);
                let ghost n1 = nodes@;
                proof {
                    lemma_contents_upto_update(n0, kp, n1[kp], item, n0.len());
                    if kq == kp {
                        assert(n1[kq].spec_item() == Some(item));
                    } else {
                        assert(n1[kq] == n0[kq]);
                    }
                }
                Self::dispatch(&mut nodes, &self.partition, existing);
                proof {
                    lemma_contents_upto_update(n1, kq, nodes@[kq], existing, n1.len());
                    assert(contents_upto(nodes@, nodes@.len()) =~= old(self).contents().insert(
                        item,
                    ));
                    assert forall|k: int| 0 <= k < nodes@.len() implies (
                    #[trigger] nodes@[k]).all_default() by {
                        assert(n0[k].all_default());
                        if k != kp {
                            assert(n1[k] == n0[k]);
                        }
                        assert(n1[k].all_default());
                    }
                }
                self.topology = NodeTopology::Branch(Branch { nodes });
                proof {
                    assert(self.wf());
                    assert(self.contents() =~= Multiset::<L>::empty().insert(existing).insert(
                        item,
                    ));
                    if kq != kp {
                        self.lemma_two_items(existing, item);
                    }
                    self.lemma_branch_subdivision();
                }
            },
            NodeTopology::Branch(Branch { nodes }) => {
                let mut nodes = nodes;
                let ghost n0 = nodes@;
                proof {
                    lemma_containment_closure(self.partition, partitions(n0), p);
                }
                Self::dispatch(&mut nodes, &self.partition, item);
                proof {
                    lemma_contents_upto_update(n0, self.partition.spec_index(p) as int, nodes@[self.partition.spec_index(p) as int], item, n0.len());
                }
                self.topology = NodeTopology::Branch(Branch { nodes });
            },
        }
    }
}

impl<L: AsPosition, A> Node<L, A> {
    /// Whether an item at `p` can be stored beneath this node.
    pub(crate) fn can_place(&self, p: &Position) -> (r: bool)
        requires
            self.wf(),
            p@.len() == self.spec_partition().spec_dimension(),
        ensures
            r == self.placeable(p@),
        decreases MAX_SCALE - self.spec_partition().spec_scale(),
    {
        match &self.topology {
            NodeTopology::Leaf(leaf) => match &leaf.data {
                None => true,
                Some(x) => !x.as_position().coincides(p),
            },
            NodeTopology::Branch(branch) => {
                let k = self.partition.index_unchecked(p);
                proof {
                    let parts = partitions(branch.nodes@);
                    assert(parts[k as int] == branch.nodes@[k as int].spec_partition());
                    assert(self.partition.is_child(k as int, parts[k as int]));
                }
                branch.nodes[k].can_place(p)
            },
        }
    }
}

impl<L: AsPosition, A: Default> Node<L, A> {
    /// Recomputes every aggregate beneath this node, children before parents.
    pub(crate) fn recompute<F>(&mut self, f: &F)
        where
            F: Fn(NodeTopology<(&A, &A), &L>) -> A,
        requires
            old(self).wf(),
            forall|t: NodeTopology<(&A, &A), &L>| f.requires((t,)),
        ensures
            old(self).same_shape(*final(self)),
            final(self).aggregated(*f),
        decreases MAX_SCALE - old(self).spec_partition().spec_scale(),
    {
        let mut topology = NodeTopology::empty();
        std::mem::swap(&mut topology, &mut self.topology);
        match topology {
            NodeTopology::Leaf(leaf) => {
                let d = match &leaf.data {
                    None => A::default(),
                    Some(x) => f(NodeTopology::Leaf(x)),
                };
                self.topology = NodeTopology::Leaf(leaf);
                self.data = d;
            },
            NodeTopology::Branch(branch) => {
                let mut nodes = branch.nodes;
                let ghost n0 = nodes@;
                let n = nodes.len();
                let mut i: usize = 0;
                while i < n
                    invariant
                        old(self).wf(),
                        old(self).is_branch(),
                        old(self).spec_children() == n0,
                        n == nodes@.len(),
                        n0.len() == n,
                        i <= n,
                        forall|t: NodeTopology<(&A, &A), &L>| f.requires((t,)),
                        forall|k: int| 0 <= k < i ==> (#[trigger] n0[k]).same_shape(nodes@[k]),
                        forall|k: int| 0 <= k < i ==> (#[trigger] nodes@[k]).aggregated(*f),
                        forall|k: int| i <= k < n ==> #[trigger] nodes@[k] == n0[k],
                    decreases n - i,
                {
                    proof {
                        let parts = partitions(n0);
                        assert(parts[i as int] == n0[i as int].spec_partition());
                        assert(old(self).spec_partition().is_child(i as int, parts[i as int]));
                        assert(n0[i as int].wf());
                    }
                    nodes[i].recompute(f);
                    i = i + 1;
                }
                let mut acc = A::default();
                let ghost mut accs: Seq<A> = seq![acc];
                let mut i: usize = 0;
                while i < n
                    invariant
                        n == nodes@.len(),
                        i <= n,
                        forall|t: NodeTopology<(&A, &A), &L>| f.requires((t,)),
                        accs.len() == i + 1,
                        call_ensures(A::default, (), accs[0]),
                        accs[i as int] == acc,
                        forall|j: int|
                            0 <= j < i ==> f.ensures(
                                (NodeTopology::Branch((&accs[j], &aggregates(nodes@)[j])),),
                                #[trigger] accs[j + 1],
                            ),
                    decreases n - i,
                {
                    let next = f(NodeTopology::Branch((&acc, &nodes[i].data)));
                    proof {
                        accs = accs.push(next);
                    }
                    acc = next;
                    i = i + 1;
                }
                self.topology = NodeTopology::Branch(Branch { nodes });
                self.data = acc;
            },
        }
    }
}

proof fn lemma_contents_upto_update<L, A>(
    nodes: Seq<Node<L, A>>,
    k: int,
    c: Node<L, A>,
    x: L,
    n: nat,
)
    requires
        0 <= k < nodes.len(),
        n <= nodes.len(),
        c.contents() == nodes[k].contents().insert(x),
    ensures
        contents_upto(nodes.update(k, c), n) == if k < n {
            contents_upto(nodes, n).insert(x)
        } else {
            contents_upto(nodes, n)
        },
    decreases n,
{
    if n > 0 {
        lemma_contents_upto_update(nodes, k, c, x, (n - 1) as nat);
        let m = nodes.update(k, c);
        assert(m[n - 1] == if n - 1 == k { c } else { nodes[n - 1] });
        if n - 1 == k {
            assert(contents_upto(m, n) =~= contents_upto(nodes, n).insert(x));
        } else if k < n {
            assert(contents_upto(m, n) =~= contents_upto(nodes, n).insert(x));
        }
    }
}

proof fn lemma_contents_upto_member<L, A>(nodes: Seq<Node<L, A>>, n: nat, x: L)
    requires
        n <= nodes.len(),
        contents_upto(nodes, n).count(x) > 0,
    ensures
        exists|k: int| 0 <= k < n && #[trigger] nodes[k].contents().count(x) > 0,
    decreases n,
{
    if n > 0 {
        if nodes[n - 1].contents().count(x) == 0 {
            lemma_contents_upto_member(nodes, (n - 1) as nat, x);
        }
    }
}

proof fn lemma_contents_upto_empty<L, A>(nodes: Seq<Node<L, A>>, n: nat)
    requires
        n <= nodes.len(),
        forall|k: int| 0 <= k < n ==> (#[trigger] nodes[k]).is_empty_leaf(),
    ensures
        contents_upto(nodes, n) == Multiset::<L>::empty(),
    decreases n,
{
    if n > 0 {
        lemma_contents_upto_empty(nodes, (n - 1) as nat);
        assert(nodes[n - 1].is_empty_leaf());
        assert(nodes[n - 1].contents() =~= Multiset::<L>::empty());
    }
}

proof fn lemma_contents_upto_same<L, A>(xs: Seq<Node<L, A>>, ys: Seq<Node<L, A>>, n: nat)
    requires
        n <= xs.len(),
        xs.len() == ys.len(),
        forall|k: int| 0 <= k < n ==> (#[trigger] xs[k]).contents() == ys[k].contents(),
    ensures
        contents_upto(xs, n) == contents_upto(ys, n),
    decreases n,
{
    if n > 0 {
        lemma_contents_upto_same(xs, ys, (n - 1) as nat);
        assert(xs[n - 1].contents() == ys[n - 1].contents());
    }
}

proof fn lemma_contents_upto_part<L, A>(nodes: Seq<Node<L, A>>, n: nat, k: int, x: L)
    requires
        n <= nodes.len(),
        0 <= k < n,
        nodes[k].contents().count(x) > 0,
    ensures
        contents_upto(nodes, n).count(x) > 0,
    decreases n,
{
    if k < n - 1 {
        lemma_contents_upto_part(nodes, (n - 1) as nat, k, x);
    }
}

proof fn lemma_contents_upto_count<L, A>(nodes: Seq<Node<L, A>>, n: nat, k: int, x: L)
    requires
        n <= nodes.len(),
        0 <= k < n,
    ensures
        nodes[k].contents().count(x) <= contents_upto(nodes, n).count(x),
    decreases n,
{
    if k < n - 1 {
        lemma_contents_upto_count(nodes, (n - 1) as nat, k, x);
    }
}

proof fn lemma_contents_upto_len_mono<L, A>(nodes: Seq<Node<L, A>>, n: nat, m: nat)
    requires
        n <= m <= nodes.len(),
    ensures
        contents_upto(nodes, n).len() <= contents_upto(nodes, m).len(),
    decreases m,
{
    broadcast use vstd::multiset::group_multiset_axioms;

    if n < m {
        lemma_contents_upto_len_mono(nodes, n, (m - 1) as nat);
    }
}

proof fn lemma_count_fold<L, F: Fn(NodeTopology<(&u64, &u64), &L>) -> u64>(
    nodes: Seq<Node<L, u64>>,
    accs: Seq<u64>,
    f: F,
    n: nat,
)
    requires
        counts_items(f),
        n <= nodes.len(),
        accs.len() == nodes.len() + 1,
        call_ensures(u64::default, (), accs[0]),
        forall|k: int| 0 <= k < nodes.len() ==> (#[trigger] nodes[k]).data == nodes[k].contents().len(),
        contents_upto(nodes, nodes.len()).len() <= u64::MAX,
        forall|i: int|
            0 <= i < nodes.len() ==> f.ensures(
                (NodeTopology::Branch((&accs[i], &aggregates(nodes)[i])),),
                #[trigger] accs[i + 1],
            ),
    ensures
        accs[n as int] == contents_upto(nodes, n).len(),
    decreases n,
{
    broadcast use vstd::multiset::group_multiset_axioms;

    if n > 0 {
        lemma_count_fold(nodes, accs, f, (n - 1) as nat);
        lemma_contents_upto_len_mono(nodes, n, nodes.len());
        let i = n - 1;
        assert(f.ensures((NodeTopology::Branch((&accs[i], &aggregates(nodes)[i])),), accs[i + 1]));
        assert(aggregates(nodes)[i] == nodes[i].data);
    }
}

impl<L: AsPosition, A> Node<L, A> {
    pub proof fn lemma_wf_partition(&self)
        requires
            self.wf(),
        ensures
            self.spec_partition().well_formed(),
    {
    }

    /// In a well-formed node, following the child index of an item's position
    /// from the node reaches the leaf that holds the item.
    pub proof fn lemma_find_contents(&self, x: L)
        requires
            self.wf(),
            self.contents().count(x) > 0,
        ensures
            self.find(x.spec_position()) == Some(x),
        decreases self,
    {
        match self.topology {
            NodeTopology::Leaf(l) => {
                assert(l.data == Some(x));
            },
            NodeTopology::Branch(b) => {
                lemma_contents_upto_member(b.nodes@, b.nodes@.len(), x);
                let k = choose|k: int| 0 <= k < b.nodes@.len() && #[trigger] b.nodes@[k].contents().count(x) > 0;
                assert(b.nodes@[k].wf());
                b.nodes@[k].lemma_find_contents(x);
            },
        }
    }
}

impl<L: AsPosition, A> Node<L, A> {
    /// A point of a well-formed node's partition can be placed beneath it
    /// exactly when no item the node holds lies at that point.
    pub proof fn lemma_placeable_contents(&self, p: Seq<i64>)
        requires
            self.wf(),
            self.spec_partition().spec_contains(p),
        ensures
            self.placeable(p) == !holds_position(self.contents(), p),
        decreases self,
    {
        match self.topology {
            NodeTopology::Leaf(l) => {
                match l.data {
                    Some(x) => {
                        assert(self.contents().count(x) > 0);
                    },
                    None => {},
                }
            },
            NodeTopology::Branch(b) => {
                let parts = partitions(b.nodes@);
                lemma_containment_closure(self.partition, parts, p);
                let k = self.partition.spec_index(p) as int;
                let child = b.nodes@[k];
                assert(parts[k] == child.spec_partition());
                assert(self.partition.is_child(k, parts[k]));
                child.lemma_placeable_contents(p);
                if holds_position(self.contents(), p) {
                    let x = choose|x: L| #[trigger] self.contents().count(x) > 0 && x.spec_position() == p;
                    lemma_contents_upto_member(b.nodes@, b.nodes@.len(), x);
                    let j = choose|j: int|
                        0 <= j < b.nodes@.len() && #[trigger] b.nodes@[j].contents().count(x) > 0;
                    assert(self.partition.spec_index(x.spec_position()) == j);
                    assert(child.contents().count(x) > 0);
                }
                if holds_position(child.contents(), p) {
                    let x = choose|x: L| #[trigger] child.contents().count(x) > 0 && x.spec_position() == p;
                    lemma_contents_upto_part(b.nodes@, b.nodes@.len(), k, x);
                }
            },
        }
    }
}

impl<L: AsPosition, A> Node<L, A> {
    /// Nodes that differ only in their aggregates hold the same items, route
    /// points alike, and are well formed together.
    pub proof fn lemma_same_shape(&self, other: Node<L, A>)
        requires
            self.same_shape(other),
        ensures
            self.contents() == other.contents(),
            self.wf() ==> other.wf(),
            self.spec_partition() == other.spec_partition(),
            self.is_branch() == other.is_branch(),
            self.spec_item() == other.spec_item(),
            forall|p: Seq<i64>| #[trigger] self.find(p) == other.find(p),
            forall|p: Seq<i64>| #[trigger] self.placeable(p) == other.placeable(p),
        decreases self,
    {
        match (self.topology, other.topology) {
            (NodeTopology::Branch(x), NodeTopology::Branch(y)) => {
                assert forall|k: int| 0 <= k < x.nodes@.len() implies {
                    &&& (#[trigger] x.nodes@[k]).contents() == y.nodes@[k].contents()
                    &&& x.nodes@[k].wf() ==> y.nodes@[k].wf()
                    &&& x.nodes@[k].spec_partition() == y.nodes@[k].spec_partition()
                    &&& forall|p: Seq<i64>| #[trigger] x.nodes@[k].find(p) == y.nodes@[k].find(p)
                    &&& forall|p: Seq<i64>| #[trigger] x.nodes@[k].placeable(p) == y.nodes@[k].placeable(p)
                } by {
                    assert(x.nodes@[k].same_shape(y.nodes@[k]));
                    x.nodes@[k].lemma_same_shape(y.nodes@[k]);
                }
                lemma_contents_upto_same(x.nodes@, y.nodes@, x.nodes@.len());
                assert(partitions(x.nodes@) =~= partitions(y.nodes@));
                let o = self.partition.spec_origin();
                if self.wf() {
                    assert forall|k: int, z: L|
                        0 <= k < y.nodes@.len() && #[trigger] y.nodes@[k].contents().count(z) > 0
                            implies self.partition.spec_index(z.spec_position()) == k by {
                        assert(x.nodes@[k].contents() == y.nodes@[k].contents());
                    }
                    assert forall|k: int| 0 <= k < y.nodes@.len() implies (
                    #[trigger] y.nodes@[k]).wf() by {
                        assert(x.nodes@[k].wf());
                    }
                }
                assert forall|p: Seq<i64>| #[trigger] self.find(p) == other.find(p) by {
                    let k = self.partition.spec_index(p) as int;
                    if k < x.nodes@.len() {
                        assert(x.nodes@[k].find(p) == y.nodes@[k].find(p));
                    }
                }
                assert forall|p: Seq<i64>| #[trigger] self.placeable(p) == other.placeable(p) by {
                    let k = self.partition.spec_index(p) as int;
                    if k < x.nodes@.len() {
                        assert(x.nodes@[k].placeable(p) == y.nodes@[k].placeable(p));
                    }
                }
            },
            _ => {},
        }
    }
}

impl<L: AsPosition, A> Node<L, A> {
    /// The children of a well-formed branch are the subdivision of its
    /// partition, in index order.
    pub proof fn lemma_branch_subdivision(&self)
        requires
            self.wf(),
            self.is_branch(),
        ensures
            self.spec_partition().subdividable(),
            self.spec_partition().is_subdivision(
                self.spec_children().map_values(|c: Node<L, A>| c.spec_partition()),
            ),
    {
        assert(self.spec_children().map_values(|c: Node<L, A>| c.spec_partition()) =~= partitions(
            self.spec_children(),
        ));
    }

    /// A node holding two distinct items is a branch.
    pub proof fn lemma_two_points(&self, a: L, b: L)
        requires
            self.contents() == Multiset::<L>::empty().insert(a).insert(b),
            a != b,
        ensures
            self.is_branch(),
    {
        assert(self.contents().count(a) > 0 && self.contents().count(b) > 0);
    }

    /// A well-formed node with fewer than two items is a leaf holding them.
    pub proof fn lemma_small_is_leaf(&self)
        requires
            self.wf(),
            self.contents().len() < 2,
        ensures
            !self.is_branch(),
            self.contents() == (match self.spec_item() {
                Some(x) => Multiset::singleton(x),
                None => Multiset::<L>::empty(),
            }),
    {
    }

    /// A well-formed node holding exactly two items whose child indices differ
    /// is a branch whose children are leaves: the child at each item's index
    /// holds that item, and the others are empty.
    pub proof fn lemma_two_items(&self, a: L, b: L)
        requires
            self.wf(),
            self.contents() == Multiset::<L>::empty().insert(a).insert(b),
            self.spec_partition().spec_index(a.spec_position()) != self.spec_partition().spec_index(b.spec_position(),
            ),
        ensures
            self.is_branch(),
            self.spec_children().len() == pow2(self.spec_partition().spec_dimension()),
            forall|k: int| 0 <= k < self.spec_children().len() ==> !(#[trigger] self.spec_children()[k]).is_branch(),
            self.spec_children()[self.spec_partition().spec_index(a.spec_position()) as int].spec_item() == Some(a),
            self.spec_children()[self.spec_partition().spec_index(b.spec_position()) as int].spec_item() == Some(b),
            forall|k: int|
                0 <= k < self.spec_children().len() && k != self.spec_partition().spec_index(a.spec_position())
                    && k != self.spec_partition().spec_index(b.spec_position())
                    ==> (#[trigger] self.spec_children()[k]).spec_item() is None,
    {
        let o = self.partition.spec_origin();
        let ka = self.partition.spec_index(a.spec_position()) as int;
        let kb = self.partition.spec_index(b.spec_position()) as int;
        let total = self.contents();
        assert(a != b);
        assert(total.count(a) == 1 && total.count(b) == 1);
        match self.topology {
            NodeTopology::Leaf(l) => {
                assert(total.count(a) > 0 && total.count(b) > 0);
            },
            NodeTopology::Branch(br) => {
                let nodes = br.nodes@;
                let n = nodes.len();
                lemma_contents_upto_member(nodes, n, a);
                lemma_contents_upto_member(nodes, n, b);
                assert forall|k: int| 0 <= k < n implies {
                    let c = (#[trigger] nodes[k]).contents();
                    &&& c == if k == ka {
                        Multiset::singleton(a)
                    } else if k == kb {
                        Multiset::singleton(b)
                    } else {
                        Multiset::<L>::empty()
                    }
                    &&& !nodes[k].is_branch()
                } by {
                    let c = nodes[k].contents();
                    assert forall|x: L| #[trigger] c.count(x) <= total.count(x) by {
                        lemma_contents_upto_count(nodes, n, k, x);
                    }
                    if c.count(a) > 0 {
                        assert(ka == k);
                    }
                    if c.count(b) > 0 {
                        assert(kb == k);
                    }
                    if k == ka {
                        let ja = choose|j: int| 0 <= j < n && #[trigger] nodes[j].contents().count(a) > 0;
                        assert(ja == ka);
                        assert(c =~= Multiset::singleton(a));
                    } else if k == kb {
                        let jb = choose|j: int| 0 <= j < n && #[trigger] nodes[j].contents().count(b) > 0;
                        assert(jb == kb);
                        assert(c =~= Multiset::singleton(b));
                    } else {
                        assert(c =~= Multiset::<L>::empty());
                    }
                    assert(nodes[k].wf());
                    nodes[k].lemma_small_is_leaf();
                }
                assert(self.partition.is_subdivision(partitions(nodes)));
                assert(partitions(nodes).len() == n);
            },
        }
    }
}

impl<L: AsPosition> Node<L, u64> {
    /// When every aggregate was computed by a combinator that counts items,
    /// and the node holds at most `u64::MAX` items, each node's aggregate is
    /// the number of items beneath it.
    pub proof fn lemma_count_aggregate<F: Fn(NodeTopology<(&u64, &u64), &L>) -> u64>(&self, f: F)
        requires
            counts_items(f),
            self.aggregated(f),
            self.contents().len() <= u64::MAX,
        ensures
            self.spec_data() == self.contents().len(),
        decreases self,
    {
        broadcast use vstd::multiset::group_multiset_axioms;

        match self.topology {
            NodeTopology::Leaf(l) => {},
            NodeTopology::Branch(b) => {
                let nodes = b.nodes@;
                let datas = aggregates(nodes);
                assert forall|k: int| 0 <= k < nodes.len() implies (#[trigger] nodes[k]).data
                    == nodes[k].contents().len() by {
                    assert(nodes[k].aggregated(f));
                    lemma_contents_upto_len_mono(nodes, (k + 1) as nat, nodes.len());
                    nodes[k].lemma_count_aggregate(f);
                }
                let accs = choose|accs: Seq<u64>|
                    {
                        &&& accs.len() == datas.len() + 1
                        &&& call_ensures(u64::default, (), accs[0])
                        &&& accs[datas.len() as int] == self.data
                        &&& forall|i: int|
                            0 <= i < datas.len() ==> f.ensures(
                                (NodeTopology::Branch((&accs[i], &datas[i])),),
                                #[trigger] accs[i + 1],
                            )
                    };
                lemma_count_fold(nodes, accs, f, nodes.len());
            },
        }
    }
}

} // verus!
