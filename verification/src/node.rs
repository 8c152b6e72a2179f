//! The aggregation node: one filesystem entry with its cumulative size.

use vstd::prelude::*;
use crate::label::{label, label_of};

verus! {

/// What kind of filesystem entry a node stands for.
#[derive(Clone, Copy, Debug, PartialEq, Eq, Structural)]
pub enum NodeKind {
    File,
    Directory,
}

/// The mathematical model of a node: a finite tree of plain values.
pub struct NodeView {
    pub path: Seq<char>,
    pub name: Seq<char>,
    pub kind: NodeKind,
    pub size_bytes: nat,
    pub children: Seq<NodeView>,
}

/// One filesystem entry and the byte size of everything beneath it.
#[derive(Debug)]
pub struct DiskItem {
    path: String,
    name: String,
    kind: NodeKind,
    size_bytes: u64,
    children: Vec<DiskItem>,
}

/// The sum of the sizes of a sequence of nodes.
pub open spec fn total_size(nodes: Seq<NodeView>) -> nat
    decreases nodes.len(),
{
    if nodes.len() == 0 {
        0
    } else {
        total_size(nodes.drop_last()) + nodes.last().size_bytes
    }
}

/// The models of a sequence of nodes, in order.
pub open spec fn views(items: Seq<DiskItem>) -> Seq<NodeView> {
    Seq::new(items.len(), |i: int| items[i]@)
}

/// Appending a node adds its size to the sum.
pub proof fn lemma_total_size_push(nodes: Seq<NodeView>, node: NodeView)
    ensures
        total_size(nodes.push(node)) == total_size(nodes) + node.size_bytes,
{
    assert(nodes.push(node).drop_last() =~= nodes);
}

/// The sum over a prefix never exceeds the sum over the whole.
pub proof fn lemma_total_size_prefix(nodes: Seq<NodeView>, n: int)
    requires
        0 <= n <= nodes.len(),
    ensures
        total_size(nodes.take(n)) <= total_size(nodes),
    decreases nodes.len() - n,
{
    if n < nodes.len() {
        lemma_total_size_prefix(nodes, n + 1);
        assert(nodes.take(n + 1).drop_last() =~= nodes.take(n));
    } else {
        assert(nodes.take(n) =~= nodes);
    }
}

impl NodeView {
    /// The node of a file at `path` that is `size` bytes long.
    pub open spec fn file(path: Seq<char>, size: nat) -> NodeView {
        NodeView {
            path,
            name: label_of(path),
            kind: NodeKind::File,
            size_bytes: size,
            children: Seq::empty(),
        }
    }

    /// The node of a directory at `path` that holds `children`.
    pub open spec fn directory(path: Seq<char>, children: Seq<NodeView>) -> NodeView {
        NodeView {
            path,
            name: label_of(path),
            kind: NodeKind::Directory,
            size_bytes: total_size(children),
            children,
        }
    }

    /// A node is sound when its name is the label of its path, a file has no
    /// children, a directory's size is the sum of its children's sizes, and
    /// every child is sound in turn.
    pub open spec fn sound(self) -> bool
        decreases self,
    {
        &&& self.name == label_of(self.path)
        &&& match self.kind {
            NodeKind::File => self.children.len() == 0,
            NodeKind::Directory => self.size_bytes == total_size(self.children),
        }
        &&& forall|i: int| 0 <= i < self.children.len() ==> (#[trigger] self.children[i]).sound()
    }
}

/// Every node of a sequence is sound.
pub open spec fn all_sound(nodes: Seq<NodeView>) -> bool {
    forall|i: int| 0 <= i < nodes.len() ==> (#[trigger] nodes[i]).sound()
}

impl View for DiskItem {
    type V = NodeView;

    /// The tree of plain values that the node stands for.
    closed spec fn view(&self) -> NodeView
        decreases self,
    {
        NodeView {
            path: self.path@,
            name: self.name@,
            kind: self.kind,
            size_bytes: self.size_bytes as nat,
            children: Seq::new(
                self.children@.len(),
                |i: int|
                    if 0 <= i < self.children@.len() {
                        self.children@[i]@
                    } else {
                        arbitrary()
                    },
            ),
        }
    }
}

impl DiskItem {
    /// The invariant of the type: every node there is is sound.
    #[verifier::type_invariant]
    pub(crate) open spec fn sound_within(&self) -> bool {
        self@.sound()
    }

    /// The children of the model are the models of the children.
    proof fn lemma_children(&self)
        ensures
            self@.children == views(self.children@),
    {
        reveal_with_fuel(<DiskItem as View>::view, 2);
        assert(self@.children =~= views(self.children@));
    }

    /// The node of a file at `path` that is `size` bytes long.
    pub fn file(path: String, size: u64) -> (node: DiskItem)
        ensures
            node@ == NodeView::file(path@, size as nat),
            node@.sound(),
    {
        let name = label(path.as_str());
        let children: Vec<DiskItem> = Vec::new();
        proof {
            let node = DiskItem { path, name, kind: NodeKind::File, size_bytes: size, children };
            node.lemma_children();
            assert(node@.children =~= Seq::empty());
        }
        DiskItem { path, name, kind: NodeKind::File, size_bytes: size, children }
    }

    /// The node of a directory at `path` that holds `children`; `None` when
    /// the sum of their sizes does not fit in 64 bits.
    pub fn directory(path: String, children: Vec<DiskItem>) -> (node: Option<DiskItem>)
        ensures
            node is Some <==> total_size(views(children@)) <= u64::MAX,
            node is Some ==> node->0@ == NodeView::directory(path@, views(children@)),
            node is Some ==> node->0@.sound(),
    {
        let ghost all = views(children@);
        let mut total: u64 = 0;
        let mut i: usize = 0;
        while i < children.len()
            invariant
                i <= children.len(),
                all == views(children@),
                total == total_size(all.take(i as int)),
                all_sound(all.take(i as int)),
            decreases children.len() - i,
        {
            let child = &children[i];
            let size: u64 = child.size_bytes;
            proof {
                use_type_invariant(child);
                assert(all.take(i + 1).drop_last() =~= all.take(i as int));
                assert(all.take(i + 1).last() == children@[i as int]@);
            }
            if size > u64::MAX - total {
                proof {
                    lemma_total_size_prefix(all, i + 1);
                }
                return None;
            }
            total = total + size;
            i = i + 1;
        }
        proof {
            assert(all.take(i as int) =~= all);
        }
        Some(Self::assemble(path, children, total))
    }

    /// The directory node with a sum that the caller has kept.
    pub(crate) fn assemble(path: String, children: Vec<DiskItem>, total: u64) -> (node: DiskItem)
        requires
            total == total_size(views(children@)),
            all_sound(views(children@)),
        ensures
            node@ == NodeView::directory(path@, views(children@)),
            node@.sound(),
    {
        let name = label(path.as_str());
        proof {
            let node = DiskItem {
                path,
                name,
                kind: NodeKind::Directory,
                size_bytes: total,
                children,
            };
            node.lemma_children();
        }
        DiskItem { path, name, kind: NodeKind::Directory, size_bytes: total, children }
    }

    /// The path of the entry.
    pub fn path(&self) -> (path: &String)
        ensures
            path@ == self@.path,
    {
        &self.path
    }

    /// The display label of the entry.
    pub fn name(&self) -> (name: &String)
        ensures
            name@ == self@.name,
    {
        &self.name
    }

    /// Whether the entry is a file or a directory.
    pub fn kind(&self) -> (kind: NodeKind)
        ensures
            kind == self@.kind,
            self@.sound(),
    {
        proof {
            use_type_invariant(self);
        }
        self.kind
    }

    /// The byte size of the entry and of everything beneath it.
    pub fn size_bytes(&self) -> (size: u64)
        ensures
            size == self@.size_bytes,
            self@.sound(),
    {
        proof {
            use_type_invariant(self);
        }
        self.size_bytes
    }

    /// The entries directly beneath this one, in order.
    pub fn children(&self) -> (children: &Vec<DiskItem>)
        ensures
            views(children@) == self@.children,
            self@.sound(),
    {
        proof {
            use_type_invariant(self);
            self.lemma_children();
        }
        &self.children
    }
}

impl Clone for DiskItem {
    /// A deep copy: the same tree of values.
    fn clone(&self) -> (copy: Self)
        ensures
            copy@ == self@,
        decreases self,
    {
        let mut children: Vec<DiskItem> = Vec::new();
        let mut i: usize = 0;
        while i < self.children.len()
            invariant
                i <= self.children.len(),
                children.len() == i,
                forall|k: int| 0 <= k < i ==> (#[trigger] children@[k])@ == self.children@[k]@,
            decreases self.children.len() - i,
        {
            let child = self.children[i].clone();
            children.push(child);
            i = i + 1;
        }
        let path = self.path.clone();
        let name = self.name.clone();
        proof {
            let copy = DiskItem { path, name, kind: self.kind, size_bytes: self.size_bytes, children };
            use_type_invariant(self);
            copy.lemma_children();
            self.lemma_children();
            assert(views(copy.children@) =~= views(self.children@));
            assert(copy@ == self@);
        }
        DiskItem { path, name, kind: self.kind, size_bytes: self.size_bytes, children }
    }
}

} // verus!
