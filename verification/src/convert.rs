//! What recursive case conversion makes of a directory tree.
//!
//! [`convert_node_v`] is the mathematical description: every file name is
//! folded to the target case unless files are ignored, every directory name
//! unless directories are ignored, entries of other kinds are left alone, and
//! the walk always descends into directories.  [`convert_tree`] computes it.

use crate::case::LetterCase;
use crate::case::case_fold;
use crate::case::convert_name;
use crate::tree::Node;
use crate::tree::NodeV;
use crate::tree::lemma_view_entries_index;
use crate::tree::lemma_view_entries_len;
use crate::tree::view_entries;
use crate::tree::view_node;
use vstd::prelude::*;

verus! {

/// The tree that a recursive conversion of `n` leaves behind, assuming no
/// two sibling names collide once folded.
pub open spec fn convert_node_v(
    n: NodeV,
    case: LetterCase,
    ignore_files: bool,
    ignore_dirs: bool,
) -> NodeV
    decreases n,
{
    match n {
        NodeV::File { name } => if ignore_files {
            n
        } else {
            NodeV::File { name: case_fold(case, name) }
        },
        NodeV::Dir { name, entries } => NodeV::Dir {
            name: if ignore_dirs {
                name
            } else {
                case_fold(case, name)
            },
            entries: convert_entries_v(entries, case, ignore_files, ignore_dirs),
        },
        NodeV::Other { name } => n,
    }
}

/// Pointwise recursive conversion of sibling entries.
pub open spec fn convert_entries_v(
    s: Seq<NodeV>,
    case: LetterCase,
    ignore_files: bool,
    ignore_dirs: bool,
) -> Seq<NodeV>
    decreases s,
{
    if s.len() == 0 {
        Seq::empty()
    } else {
        seq![convert_node_v(s[0], case, ignore_files, ignore_dirs)] + convert_entries_v(
            s.subrange(1, s.len() as int),
            case,
            ignore_files,
            ignore_dirs,
        )
    }
}

/// `convert_entries_v` keeps the number of siblings.
pub broadcast proof fn lemma_convert_entries_len(
    s: Seq<NodeV>,
    case: LetterCase,
    ignore_files: bool,
    ignore_dirs: bool,
)
    ensures
        (#[trigger] convert_entries_v(s, case, ignore_files, ignore_dirs)).len() == s.len(),
    decreases s,
{
    if s.len() > 0 {
        lemma_convert_entries_len(s.subrange(1, s.len() as int), case, ignore_files, ignore_dirs);
    }
}

/// `convert_entries_v` converts the siblings pointwise.
pub broadcast proof fn lemma_convert_entries_index(
    s: Seq<NodeV>,
    case: LetterCase,
    ignore_files: bool,
    ignore_dirs: bool,
    i: int,
)
    requires
        0 <= i < s.len(),
    ensures
        #[trigger] convert_entries_v(s, case, ignore_files, ignore_dirs)[i] == convert_node_v(
            s[i],
            case,
            ignore_files,
            ignore_dirs,
        ),
    decreases s,
{
    lemma_convert_entries_len(s, case, ignore_files, ignore_dirs);
    if i > 0 {
        lemma_convert_entries_index(
            s.subrange(1, s.len() as int),
            case,
            ignore_files,
            ignore_dirs,
            i - 1,
        );
    }
}

/// Computes the tree that recursive conversion leaves behind: every file and
/// directory name folded to `case`, except the kinds the flags ignore.
#[verifier::loop_isolation(false)]
pub fn convert_tree(n: &Node, case: &LetterCase, ignore_files: bool, ignore_dirs: bool) -> (r:
    Node)
    ensures
        view_node(r) == convert_node_v(view_node(*n), *case, ignore_files, ignore_dirs),
    decreases *n,
{
    broadcast use lemma_view_entries_len, lemma_view_entries_index, lemma_convert_entries_len, lemma_convert_entries_index;

    match n {
        Node::File { name } => {
            if ignore_files {
                Node::File { name: name.clone() }
            } else {
                Node::File { name: convert_name(name.as_str(), case) }
            }
        },
        Node::Other { name } => Node::Other { name: name.clone() },
        Node::Dir { name, entries } => {
            let new_name = if ignore_dirs {
                name.clone()
            } else {
                convert_name(name.as_str(), case)
            };
            let mut out: Vec<Node> = Vec::new();
            let mut i: usize = 0;
            while i < entries.len()
                invariant
                    i <= entries.len(),
                    out@.len() == i,
                    forall|k: int|
                        0 <= k < i ==> view_node(#[trigger] out@[k]) == convert_node_v(
                            view_node(entries@[k]),
                            *case,
                            ignore_files,
                            ignore_dirs,
                        ),
                decreases entries.len() - i,
            {
                out.push(convert_tree(&entries[i], case, ignore_files, ignore_dirs));
                i += 1;
            }
            proof {
                assert(view_entries(out@) =~= convert_entries_v(
                    view_entries(entries@),
                    *case,
                    ignore_files,
                    ignore_dirs,
                ));
            }
            Node::Dir { name: new_name, entries: out }
        },
    }
}


/// `b` has the same shape as `a`, with every file keeping its exact name at
/// every depth.
pub open spec fn same_files(a: NodeV, b: NodeV) -> bool
    decreases a,
{
    match a {
        NodeV::File { name } => b == a,
        NodeV::Dir { name, entries } => b is Dir && same_files_entries(entries, b->Dir_entries),
        NodeV::Other { name } => b is Other,
    }
}

/// Pointwise [`same_files`] over two runs of siblings.
pub open spec fn same_files_entries(a: Seq<NodeV>, b: Seq<NodeV>) -> bool
    decreases a,
{
    &&& a.len() == b.len()
    &&& (a.len() == 0 || (same_files(a[0], b[0]) && same_files_entries(
        a.subrange(1, a.len() as int),
        b.subrange(1, b.len() as int),
    )))
}

/// `b` has the same shape as `a`, with every directory keeping its exact
/// name at every depth.
pub open spec fn same_dirs(a: NodeV, b: NodeV) -> bool
    decreases a,
{
    match a {
        NodeV::File { name } => b is File,
        NodeV::Dir { name, entries } => b is Dir && b->Dir_name == name && same_dirs_entries(
            entries,
            b->Dir_entries,
        ),
        NodeV::Other { name } => b is Other,
    }
}

/// Pointwise [`same_dirs`] over two runs of siblings.
pub open spec fn same_dirs_entries(a: Seq<NodeV>, b: Seq<NodeV>) -> bool
    decreases a,
{
    &&& a.len() == b.len()
    &&& (a.len() == 0 || (same_dirs(a[0], b[0]) && same_dirs_entries(
        a.subrange(1, a.len() as int),
        b.subrange(1, b.len() as int),
    )))
}

/// Law: with files ignored, the recursive conversion leaves every file's
/// name unchanged at every depth, while still descending into and renaming
/// directories.
pub proof fn lemma_ignore_files_keeps_files(n: NodeV, case: LetterCase, ignore_dirs: bool)
    ensures
        same_files(n, convert_node_v(n, case, true, ignore_dirs)),
    decreases n,
{
    match n {
        NodeV::Dir { name, entries } => {
            lemma_ignore_files_entries(entries, case, ignore_dirs);
        },
        _ => {
        },
    }
}

proof fn lemma_ignore_files_entries(s: Seq<NodeV>, case: LetterCase, ignore_dirs: bool)
    ensures
        same_files_entries(s, convert_entries_v(s, case, true, ignore_dirs)),
    decreases s,
{
    broadcast use lemma_convert_entries_len, lemma_convert_entries_index;

    if s.len() > 0 {
        let rest = s.subrange(1, s.len() as int);
        lemma_ignore_files_keeps_files(s[0], case, ignore_dirs);
        lemma_ignore_files_entries(rest, case, ignore_dirs);
        let c = convert_entries_v(s, case, true, ignore_dirs);
        assert(c[0] == convert_node_v(s[0], case, true, ignore_dirs));
        assert(c.subrange(1, c.len() as int) =~= convert_entries_v(rest, case, true, ignore_dirs));
    }
}

/// Law: with directories ignored, the recursive conversion leaves every
/// directory's name unchanged at every depth, while still descending into
/// them and renaming files.
pub proof fn lemma_ignore_dirs_keeps_dirs(n: NodeV, case: LetterCase, ignore_files: bool)
    ensures
        same_dirs(n, convert_node_v(n, case, ignore_files, true)),
    decreases n,
{
    match n {
        NodeV::Dir { name, entries } => {
            lemma_ignore_dirs_entries(entries, case, ignore_files);
        },
        _ => {
        },
    }
}

proof fn lemma_ignore_dirs_entries(s: Seq<NodeV>, case: LetterCase, ignore_files: bool)
    ensures
        same_dirs_entries(s, convert_entries_v(s, case, ignore_files, true)),
    decreases s,
{
    broadcast use lemma_convert_entries_len, lemma_convert_entries_index;

    if s.len() > 0 {
        let rest = s.subrange(1, s.len() as int);
        lemma_ignore_dirs_keeps_dirs(s[0], case, ignore_files);
        lemma_ignore_dirs_entries(rest, case, ignore_files);
        let c = convert_entries_v(s, case, ignore_files, true);
        assert(c[0] == convert_node_v(s[0], case, ignore_files, true));
        assert(c.subrange(1, c.len() as int) =~= convert_entries_v(rest, case, ignore_files, true));
    }
}

} // verus!
