//! An in-memory picture of a directory tree.
//!
//! A walk over the real filesystem first snapshots what it sees into this
//! model; the planner and the extension tally are then ordinary verified
//! functions over the model.  [`NodeV`] is the mathematical form of a node,
//! with names as character sequences, and every contract speaks of it.

use vstd::prelude::*;

verus! {

/// One entry of a directory tree, as a directory listing classifies it: a
/// regular file or symbolic link, a directory with its entries, or an entry
/// of another kind (socket, device, ...), which every operation leaves alone.
#[derive(Debug, PartialEq, Eq)]
pub enum Node {
    File { name: String },
    Dir { name: String, entries: Vec<Node> },
    Other { name: String },
}

/// The mathematical form of a [`Node`].
pub enum NodeV {
    File { name: Seq<char> },
    Dir { name: Seq<char>, entries: Seq<NodeV> },
    Other { name: Seq<char> },
}

impl NodeV {
    /// The entry's own name, whatever its kind.
    pub open spec fn name(self) -> Seq<char> {
        match self {
            NodeV::File { name } => name,
            NodeV::Dir { name, entries } => name,
            NodeV::Other { name } => name,
        }
    }
}

/// The mathematical form of a node.
pub open spec fn view_node(n: Node) -> NodeV
    decreases n,
{
    match n {
        Node::File { name } => NodeV::File { name: name@ },
        Node::Dir { name, entries } => NodeV::Dir {
            name: name@,
            entries: view_entries(entries@),
        },
        Node::Other { name } => NodeV::Other { name: name@ },
    }
}

/// The mathematical form of a sequence of sibling nodes.
pub open spec fn view_entries(s: Seq<Node>) -> Seq<NodeV>
    decreases s,
{
    if s.len() == 0 {
        Seq::empty()
    } else {
        seq![view_node(s[0])] + view_entries(s.subrange(1, s.len() as int))
    }
}

/// `view_entries` maps the sequence pointwise.
pub broadcast proof fn lemma_view_entries_len(s: Seq<Node>)
    ensures
        (#[trigger] view_entries(s)).len() == s.len(),
    decreases s,
{
    if s.len() > 0 {
        lemma_view_entries_len(s.subrange(1, s.len() as int));
    }
}

/// The `i`th viewed sibling is the view of the `i`th sibling.
pub broadcast proof fn lemma_view_entries_index(s: Seq<Node>, i: int)
    requires
        0 <= i < s.len(),
    ensures
        #[trigger] view_entries(s)[i] == view_node(s[i]),
    decreases s,
{
    lemma_view_entries_len(s);
    if i > 0 {
        lemma_view_entries_index(s.subrange(1, s.len() as int), i - 1);
    }
}

/// Well-formedness of siblings: their names are pairwise distinct, as the
/// entries of a real directory are, and each is itself well formed.
pub open spec fn wf_entries(s: Seq<NodeV>) -> bool
    decreases s,
{
    &&& forall|i: int, j: int|
        0 <= i < j < s.len() ==> (#[trigger] s[i]).name() != (#[trigger] s[j]).name()
    &&& forall|i: int| 0 <= i < s.len() ==> wf_node(#[trigger] s[i])
}

/// Well-formedness of a node: every directory under it has well-formed
/// entries.
pub open spec fn wf_node(n: NodeV) -> bool
    decreases n,
{
    match n {
        NodeV::Dir { name, entries } => wf_entries(entries),
        _ => true,
    }
}

/// How many files (or symbolic links) the subtree holds.
pub open spec fn num_files(n: NodeV) -> nat
    decreases n,
{
    match n {
        NodeV::File { name } => 1,
        NodeV::Dir { name, entries } => num_files_entries(entries),
        NodeV::Other { name } => 0,
    }
}

/// How many files (or symbolic links) a sequence of subtrees holds in all.
pub open spec fn num_files_entries(s: Seq<NodeV>) -> nat
    decreases s,
{
    if s.len() == 0 {
        0
    } else {
        num_files(s[0]) + num_files_entries(s.subrange(1, s.len() as int))
    }
}

} // verus!
