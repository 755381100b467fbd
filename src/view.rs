use vstd::prelude::*;

use crate::node::Node;

verus! {

/// A traversal handle over a node, generic over the way the node is held:
/// owned (`Node`), shared (`&Node`) or exclusive (`&mut Node`).
pub struct NodeView<B> {
    node: B,
}

/// A handle for a subtree detached from its tree. It has no operations yet.
pub struct NodeOrphan;

impl<B> NodeView<B> {
    /// The value the view holds.
    pub closed spec fn spec_handle(&self) -> B {
        self.node
    }
}

/// Whether `views` are shared views of `children`, in order.
pub open spec fn views_of<L, A>(views: Seq<NodeView<&Node<L, A>>>, children: Seq<Node<L, A>>) -> bool {
    &&& views.len() == children.len()
    &&& forall|k: int| 0 <= k < views.len() ==> *(#[trigger] views[k]).spec_handle() == children[k]
}

/// Shared views of a branch's children in index order, or `None` for a leaf.
/// Every kind of view traverses through this.
fn child_views<'a, L, A>(node: &'a Node<L, A>) -> (r: Option<Vec<NodeView<&'a Node<L, A>>>>)
    ensures
        r is Some == node.is_branch(),
        r matches Some(v) ==> views_of(v@, node.spec_children()),
{
    match node.as_branch() {
        None => None,
        Some(branch) => {
            let nodes = branch.nodes();
            let mut v: Vec<NodeView<&'a Node<L, A>>> = Vec::new();
            let mut i: usize = 0;
            while i < nodes.len()
                invariant
                    nodes@ == node.spec_children(),
                    i <= nodes@.len(),
                    views_of(v@, nodes@.subrange(0, i as int)),
                decreases nodes@.len() - i,
            {
                v.push(NodeView { node: &nodes[i] });
                i = i + 1;
            }
            assert(nodes@.subrange(0, nodes@.len() as int) =~= nodes@);
            Some(v)
        },
    }
}

impl<'a, L, A> NodeView<&'a Node<L, A>> {
    pub fn new(node: &'a Node<L, A>) -> (r: Self)
        ensures
            *r.spec_handle() == *node,
    {
        NodeView { node }
    }

    /// The node viewed.
    pub fn node(&self) -> (r: &'a Node<L, A>)
        ensures
            *r == *self.spec_handle(),
    {
        self.node
    }

    pub fn to_ref(&self) -> (r: NodeView<&'a Node<L, A>>)
        ensures
            *r.spec_handle() == *self.spec_handle(),
    {
        NodeView { node: self.node }
    }

    pub fn into_ref(self) -> (r: NodeView<&'a Node<L, A>>)
        ensures
            *r.spec_handle() == *self.spec_handle(),
    {
        self
    }

    /// Views of the children of a branch in index order, or `None` for a leaf.
    /// The view is left as it was, so every call gives the same sequence.
    pub fn subdivisions(&self) -> (r: Option<Vec<NodeView<&'a Node<L, A>>>>)
        ensures
            r is Some == self.spec_handle().is_branch(),
            r matches Some(v) ==> views_of(v@, self.spec_handle().spec_children()),
    {
        child_views(self.node)
    }
}

impl<'a, L, A> NodeView<&'a mut Node<L, A>> {
    pub fn new(node: &'a mut Node<L, A>) -> (r: Self)
        ensures
            *r.spec_handle() == *old(node),
            *final(node) == *final(r.spec_handle()),
    {
        NodeView { node }
    }

    /// The node viewed.
    pub fn node(&self) -> (r: &Node<L, A>)
        ensures
            *r == *self.spec_handle(),
    {
        &*self.node
    }

    /// The node viewed, for exclusive access.
    pub fn node_mut(&mut self) -> (r: &mut Node<L, A>)
        ensures
            *r == *old(self).spec_handle(),
            *final(self).spec_handle() == *final(r),
    {
        &mut *self.node
    }

    pub fn to_ref(&self) -> (r: NodeView<&Node<L, A>>)
        ensures
            *r.spec_handle() == *self.spec_handle(),
    {
        NodeView { node: &*self.node }
    }

    pub fn into_ref(self) -> (r: NodeView<&'a Node<L, A>>)
        ensures
            *r.spec_handle() == *self.spec_handle(),
    {
        NodeView { node: &*self.node }
    }

    /// Views of the children of a branch in index order, or `None` for a leaf.
    pub fn subdivisions(&self) -> (r: Option<Vec<NodeView<&Node<L, A>>>>)
        ensures
            r is Some == self.spec_handle().is_branch(),
            r matches Some(v) ==> views_of(v@, self.spec_handle().spec_children()),
    {
        child_views(&*self.node)
    }
}

impl<L, A> NodeView<Node<L, A>> {
    pub fn new(node: Node<L, A>) -> (r: Self)
        ensures
            r.spec_handle() == node,
    {
        NodeView { node }
    }

    /// The node viewed.
    pub fn node(&self) -> (r: &Node<L, A>)
        ensures
            *r == self.spec_handle(),
    {
        &self.node
    }

    pub fn to_ref(&self) -> (r: NodeView<&Node<L, A>>)
        ensures
            *r.spec_handle() == self.spec_handle(),
    {
        NodeView { node: &self.node }
    }

    /// Views of the children of a branch in index order, or `None` for a leaf.
    pub fn subdivisions(&self) -> (r: Option<Vec<NodeView<&Node<L, A>>>>)
        ensures
            r is Some == self.spec_handle().is_branch(),
            r matches Some(v) ==> views_of(v@, self.spec_handle().spec_children()),
    {
        child_views(&self.node)
    }

    pub fn into_inner(self) -> (r: Node<L, A>)
        ensures
            r == self.spec_handle(),
    {
        self.node
    }
}

/// Exclusive views of a branch's children in index order, or `None` for a leaf.
fn child_views_mut<'a, L, A>(node: &'a mut Node<L, A>) -> (r: Option<
    Vec<NodeView<&'a mut Node<L, A>>>,
>)
    ensures
        r is Some == old(node).is_branch(),
        r matches Some(v) ==> {
            &&& v@.len() == old(node).spec_children().len()
            &&& forall|k: int|
                0 <= k < v@.len() ==> *(#[trigger] v@[k]).spec_handle()
                    == old(node).spec_children()[k]
            &&& final(node).is_branch()
            &&& final(node).spec_children() == Seq::new(
                v@.len(),
                |k: int| *final(v@[k].spec_handle()),
            )
        },
        final(node).spec_partition() == old(node).spec_partition(),
        final(node).spec_data() == old(node).spec_data(),
        r is None ==> *final(node) == *old(node),
{
    match node.children_mut() {
        None => None,
        Some(children) => {
            let ghost all = children@;
            let ghost whole = children;
            let mut rest = children;
            let mut v: Vec<NodeView<&'a mut Node<L, A>>> = Vec::new();
            while rest.len() > 0
                invariant
                    v@.len() + rest@.len() == all.len(),
                    rest@ == all.subrange(v@.len() as int, all.len() as int),
                    forall|k: int| 0 <= k < v@.len() ==> *(#[trigger] v@[k]).spec_handle() == all[k],
                    final(whole)@ == Seq::new(v@.len(), |k: int| *final(v@[k].spec_handle()))
                        + final(rest)@,
                decreases rest@.len(),
            {
                let (head, tail) = rest.split_at_mut(1);
                let first = head.first_mut().unwrap();
                v.push(NodeView { node: first });
                rest = tail;
            }
            assert(final(whole)@ =~= Seq::new(v@.len(), |k: int| *final(v@[k].spec_handle())));
            Some(v)
        },
    }
}

impl<'a, L, A> NodeView<&'a mut Node<L, A>> {
    /// Exclusive views of the children of a branch in index order, borrowed
    /// from this view, or `None` for a leaf.
    pub fn subdivisions_mut(&mut self) -> (r: Option<Vec<NodeView<&mut Node<L, A>>>>)
        ensures
            r is Some == old(self).spec_handle().is_branch(),
            r matches Some(v) ==> {
                &&& v@.len() == old(self).spec_handle().spec_children().len()
                &&& forall|k: int|
                    0 <= k < v@.len() ==> *(#[trigger] v@[k]).spec_handle()
                        == old(self).spec_handle().spec_children()[k]
                &&& final(self).spec_handle().spec_children() == Seq::new(
                    v@.len(),
                    |k: int| *final(v@[k].spec_handle()),
                )
            },
            final(self).spec_handle().spec_partition() == old(self).spec_handle().spec_partition(),
            final(self).spec_handle().spec_data() == old(self).spec_handle().spec_data(),
            r is None ==> *final(self).spec_handle() == *old(self).spec_handle(),
    {
        child_views_mut(&mut *self.node)
    }

    /// Exclusive views of the children of a branch in index order, which
    /// outlive this view, or `None` for a leaf.
    pub fn into_subdivisions_mut(self) -> (r: Option<Vec<NodeView<&'a mut Node<L, A>>>>)
        ensures
            r is Some == self.spec_handle().is_branch(),
            r matches Some(v) ==> {
                &&& v@.len() == self.spec_handle().spec_children().len()
                &&& forall|k: int|
                    0 <= k < v@.len() ==> *(#[trigger] v@[k]).spec_handle()
                        == self.spec_handle().spec_children()[k]
                &&& final(self.spec_handle()).spec_children() == Seq::new(
                    v@.len(),
                    |k: int| *final(v@[k].spec_handle()),
                )
            },
            final(self.spec_handle()).spec_partition() == self.spec_handle().spec_partition(),
            final(self.spec_handle()).spec_data() == self.spec_handle().spec_data(),
            r is None ==> *final(self.spec_handle()) == *self.spec_handle(),
    {
        let NodeView { node } = self;
        child_views_mut(node)
    }
}

} // verus!
