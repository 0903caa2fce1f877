//! The rename plan of a case conversion.
//!
//! A walk does not rename the tree in one step: it renames one entry at a
//! time, and it must rename everything inside a directory before the
//! directory itself, or later renames would be aimed at paths that no longer
//! exist.  [`plan_children`] and [`plan_convert`] compute the exact sequence
//! of renames, each given as the path of source names from the walk root to
//! the entry together with the entry's new name.  Executing the operations in
//! order against the real filesystem therefore always addresses paths whose
//! ancestors still carry their source names.

use crate::case::LetterCase;
use crate::case::case_fold;
use crate::case::convert_name;
use crate::tree::Node;
use crate::tree::NodeV;
use crate::tree::lemma_view_entries_index;
use crate::tree::lemma_view_entries_len;
use crate::tree::view_entries;
use crate::tree::view_node;
use crate::tree::wf_entries;
use crate::tree::wf_node;
use vstd::prelude::*;

verus! {

/// One rename: the entry at `path` (source names, relative to the walk root)
/// gets the new final component `target`.
#[derive(Debug, PartialEq, Eq)]
pub struct RenameOp {
    pub path: Vec<String>,
    pub target: String,
}

/// The mathematical form of a [`RenameOp`].
#[verifier::ext_equal]
pub struct OpV {
    pub path: Seq<Seq<char>>,
    pub target: Seq<char>,
}

/// The mathematical form of one rename operation.
pub open spec fn op_view(op: RenameOp) -> OpV {
    OpV { path: op.path.deep_view(), target: op.target@ }
}

/// The mathematical form of a sequence of rename operations.
pub open spec fn ops_view(s: Seq<RenameOp>) -> Seq<OpV> {
    Seq::new(s.len(), |i: int| op_view(s[i]))
}

/// The same operations, addressed from one directory level further up.
pub open spec fn with_prefix(pre: Seq<Seq<char>>, ops: Seq<OpV>) -> Seq<OpV> {
    ops.map_values(|op: OpV| OpV { path: pre + op.path, target: op.target })
}

/// The renames that the recursive walk performs for one entry, in order:
/// for a directory, first everything inside it, then - unless directories
/// are ignored - the directory itself; for a file, the file itself unless
/// files are ignored; nothing for an entry of another kind.
pub open spec fn plan_node(
    n: NodeV,
    case: LetterCase,
    ignore_files: bool,
    ignore_dirs: bool,
) -> Seq<OpV>
    decreases n,
{
    match n {
        NodeV::File { name } => if ignore_files {
            Seq::empty()
        } else {
            seq![OpV { path: seq![name], target: case_fold(case, name) }]
        },
        NodeV::Dir { name, entries } => with_prefix(
            seq![name],
            plan_entries(entries, case, ignore_files, ignore_dirs),
        ) + if ignore_dirs {
            Seq::empty()
        } else {
            seq![OpV { path: seq![name], target: case_fold(case, name) }]
        },
        NodeV::Other { name } => Seq::empty(),
    }
}

/// The renames for a run of sibling entries, in listing order.
pub open spec fn plan_entries(
    s: Seq<NodeV>,
    case: LetterCase,
    ignore_files: bool,
    ignore_dirs: bool,
) -> Seq<OpV>
    decreases s,
{
    if s.len() == 0 {
        Seq::empty()
    } else {
        plan_node(s[0], case, ignore_files, ignore_dirs) + plan_entries(
            s.subrange(1, s.len() as int),
            case,
            ignore_files,
            ignore_dirs,
        )
    }
}

/// The renames for a whole top-level conversion of `n`: the children first
/// (only when `recursive` is set), then the root itself - unconditionally,
/// whatever the ignore flags say, unless its name is empty, in which case the
/// conversion of the root is a no-op.  A root that is neither a file nor a
/// directory is left alone.
pub open spec fn plan_root(
    n: NodeV,
    case: LetterCase,
    recursive: bool,
    ignore_files: bool,
    ignore_dirs: bool,
) -> Seq<OpV> {
    match n {
        NodeV::File { name } => if name.len() == 0 {
            Seq::empty()
        } else {
            seq![OpV { path: seq![name], target: case_fold(case, name) }]
        },
        NodeV::Dir { name, entries } => (if recursive {
            with_prefix(seq![name], plan_entries(entries, case, ignore_files, ignore_dirs))
        } else {
            Seq::empty()
        }) + if name.len() == 0 {
            Seq::empty()
        } else {
            seq![OpV { path: seq![name], target: case_fold(case, name) }]
        },
        NodeV::Other { name } => Seq::empty(),
    }
}

proof fn lemma_plan_entries_push(
    s: Seq<NodeV>,
    x: NodeV,
    case: LetterCase,
    ignore_files: bool,
    ignore_dirs: bool,
)
    ensures
        plan_entries(s.push(x), case, ignore_files, ignore_dirs) == plan_entries(
            s,
            case,
            ignore_files,
            ignore_dirs,
        ) + plan_node(x, case, ignore_files, ignore_dirs),
    decreases s.len(),
{
    let whole = s.push(x);
    assert(plan_entries(Seq::<NodeV>::empty(), case, ignore_files, ignore_dirs)
        == Seq::<OpV>::empty());
    if s.len() == 0 {
        assert(whole.subrange(1, whole.len() as int) =~= Seq::<NodeV>::empty());
        assert(whole[0] == x);
        assert(plan_entries(whole, case, ignore_files, ignore_dirs) =~= plan_entries(
            s,
            case,
            ignore_files,
            ignore_dirs,
        ) + plan_node(x, case, ignore_files, ignore_dirs));
    } else {
        let rest = s.subrange(1, s.len() as int);
        assert(whole.subrange(1, whole.len() as int) =~= rest.push(x));
        assert(whole[0] == s[0]);
        lemma_plan_entries_push(rest, x, case, ignore_files, ignore_dirs);
        assert(plan_entries(whole, case, ignore_files, ignore_dirs) =~= plan_entries(
            s,
            case,
            ignore_files,
            ignore_dirs,
        ) + plan_node(x, case, ignore_files, ignore_dirs));
    }
}

proof fn lemma_with_prefix_concat(pre: Seq<Seq<char>>, a: Seq<OpV>, b: Seq<OpV>)
    ensures
        with_prefix(pre, a + b) == with_prefix(pre, a) + with_prefix(pre, b),
{
    assert(with_prefix(pre, a + b) =~= with_prefix(pre, a) + with_prefix(pre, b));
}

proof fn lemma_with_prefix_empty(ops: Seq<OpV>)
    ensures
        with_prefix(Seq::empty(), ops) == ops,
{
    assert forall|i: int| 0 <= i < ops.len() implies with_prefix(Seq::empty(), ops)[i] == ops[i] by {
        assert(Seq::<Seq<char>>::empty() + ops[i].path =~= ops[i].path);
    }
    assert(with_prefix(Seq::empty(), ops) =~= ops);
}

proof fn lemma_with_prefix_nest(pre: Seq<Seq<char>>, name: Seq<char>, ops: Seq<OpV>)
    ensures
        with_prefix(pre, with_prefix(seq![name], ops)) == with_prefix(pre.push(name), ops),
{
    assert forall|i: int| 0 <= i < ops.len() implies with_prefix(
        pre,
        with_prefix(seq![name], ops),
    )[i] == with_prefix(pre.push(name), ops)[i] by {
        assert(pre + (seq![name] + ops[i].path) =~= pre.push(name) + ops[i].path);
    }
    assert(with_prefix(pre, with_prefix(seq![name], ops)) =~= with_prefix(
        pre.push(name),
        ops,
    ));
}

fn clone_names(v: &Vec<String>) -> (r: Vec<String>)
    ensures
        r.deep_view() == v.deep_view(),
{
    let mut r: Vec<String> = Vec::new();
    let mut i: usize = 0;
    while i < v.len()
        invariant
            i <= v.len(),
            r@.len() == i,
            forall|k: int| 0 <= k < i ==> #[trigger] r@[k]@ == v@[k]@,
        decreases v.len() - i,
    {
        r.push(v[i].clone());
        i += 1;
    }
    proof {
        assert(r.deep_view() =~= v.deep_view());
    }
    r
}

/// Appends to `out` the renames of the walk for entry `n`, every path
/// extended below `prefix`.
#[verifier::loop_isolation(false)]
fn plan_into(
    n: &Node,
    case: &LetterCase,
    ignore_files: bool,
    ignore_dirs: bool,
    prefix: &Vec<String>,
    out: &mut Vec<RenameOp>,
)
    ensures
        ops_view(final(out)@) == ops_view(old(out)@) + with_prefix(
            prefix.deep_view(),
            plan_node(view_node(*n), *case, ignore_files, ignore_dirs),
        ),
    decreases *n,
{
    broadcast use lemma_view_entries_len, lemma_view_entries_index;

    match n {
        Node::File { name } => {
            if !ignore_files {
                let mut path = clone_names(prefix);
                path.push(name.clone());
                let target = convert_name(name.as_str(), case);
                out.push(RenameOp { path, target });
                proof {
                    assert(out@.last().path.deep_view() =~= prefix.deep_view() + seq![name@]);
                    assert(ops_view(out@) =~= ops_view(old(out)@) + with_prefix(
                        prefix.deep_view(),
                        plan_node(view_node(*n), *case, ignore_files, ignore_dirs),
                    ));
                }
            } else {
                proof {
                    assert(ops_view(out@) =~= ops_view(old(out)@) + with_prefix(
                        prefix.deep_view(),
                        plan_node(view_node(*n), *case, ignore_files, ignore_dirs),
                    ));
                }
            }
        },
        Node::Other { name } => {
            proof {
                assert(ops_view(out@) =~= ops_view(old(out)@) + with_prefix(
                    prefix.deep_view(),
                    plan_node(view_node(*n), *case, ignore_files, ignore_dirs),
                ));
            }
        },
        Node::Dir { name, entries } => {
            let mut pre2 = clone_names(prefix);
            pre2.push(name.clone());
            proof {
                assert(pre2.deep_view() =~= prefix.deep_view().push(name@));
            }
            let ghost entries_v = view_entries(entries@);
            let mut i: usize = 0;
            while i < entries.len()
                invariant
                    i <= entries.len(),
                    pre2.deep_view() == prefix.deep_view().push(name@),
                    ops_view(out@) == ops_view(old(out)@) + with_prefix(
                        pre2.deep_view(),
                        plan_entries(
                            view_entries(entries@.subrange(0, i as int)),
                            *case,
                            ignore_files,
                            ignore_dirs,
                        ),
                    ),
                decreases entries.len() - i,
            {
                let ghost done = view_entries(entries@.subrange(0, i as int));
                plan_into(&entries[i], case, ignore_files, ignore_dirs, &pre2, out);
                proof {
                    let stepped = view_entries(entries@.subrange(0, i + 1 as int));
                    assert(stepped =~= done.push(view_node(entries@[i as int])));
                    lemma_plan_entries_push(
                        done,
                        view_node(entries@[i as int]),
                        *case,
                        ignore_files,
                        ignore_dirs,
                    );
                    lemma_with_prefix_concat(
                        pre2.deep_view(),
                        plan_entries(done, *case, ignore_files, ignore_dirs),
                        plan_node(view_node(entries@[i as int]), *case, ignore_files, ignore_dirs),
                    );
                    assert(ops_view(out@) =~= ops_view(old(out)@) + with_prefix(
                        pre2.deep_view(),
                        plan_entries(stepped, *case, ignore_files, ignore_dirs),
                    ));
                }
                i += 1;
            }
            proof {
                assert(entries@.subrange(0, entries@.len() as int) =~= entries@);
            }
            if !ignore_dirs {
                let mut path = clone_names(prefix);
                path.push(name.clone());
                let target = convert_name(name.as_str(), case);
                out.push(RenameOp { path, target });
            }
            proof {
                let pre = prefix.deep_view();
                let inner = plan_entries(entries_v, *case, ignore_files, ignore_dirs);
                let subs = with_prefix(seq![name@], inner);
                let own: Seq<OpV> = if ignore_dirs {
                    Seq::empty()
                } else {
                    seq![OpV { path: seq![name@], target: case_fold(*case, name@) }]
                };
                assert(plan_node(view_node(*n), *case, ignore_files, ignore_dirs) == subs + own);
                lemma_with_prefix_nest(pre, name@, inner);
                lemma_with_prefix_concat(pre, subs, own);
                if !ignore_dirs {
                    assert(out@.last().path.deep_view() =~= pre.push(name@));
                    assert(with_prefix(pre, own) =~~= seq![op_view(out@.last())]);
                }
                assert(ops_view(out@) =~~= ops_view(old(out)@) + with_prefix(pre, subs)
                    + with_prefix(pre, own));
                assert(ops_view(out@) =~~= ops_view(old(out)@) + with_prefix(
                    pre,
                    plan_node(view_node(*n), *case, ignore_files, ignore_dirs),
                ));
            }
        },
    }
}

/// Computes the renames of a recursive walk over sibling entries, exactly in
/// the order the walk performs them: for each entry in listing order, first
/// the renames inside it, then the entry itself.
#[verifier::loop_isolation(false)]
pub fn plan_children(
    entries: &Vec<Node>,
    case: &LetterCase,
    ignore_files: bool,
    ignore_dirs: bool,
) -> (r: Vec<RenameOp>)
    ensures
        ops_view(r@) == plan_entries(view_entries(entries@), *case, ignore_files, ignore_dirs),
{
    broadcast use lemma_view_entries_len, lemma_view_entries_index;

    let prefix: Vec<String> = Vec::new();
    let mut out: Vec<RenameOp> = Vec::new();
    proof {
        assert(prefix.deep_view() =~= Seq::<Seq<char>>::empty());
        assert(ops_view(out@) =~= Seq::<OpV>::empty());
    }
    let mut i: usize = 0;
    while i < entries.len()
        invariant
            i <= entries.len(),
            prefix.deep_view() == Seq::<Seq<char>>::empty(),
            ops_view(out@) == plan_entries(
                view_entries(entries@.subrange(0, i as int)),
                *case,
                ignore_files,
                ignore_dirs,
            ),
        decreases entries.len() - i,
    {
        let ghost done = view_entries(entries@.subrange(0, i as int));
        plan_into(&entries[i], case, ignore_files, ignore_dirs, &prefix, &mut out);
        proof {
            let stepped = view_entries(entries@.subrange(0, i + 1 as int));
            assert(stepped =~= done.push(view_node(entries@[i as int])));
            lemma_plan_entries_push(
                done,
                view_node(entries@[i as int]),
                *case,
                ignore_files,
                ignore_dirs,
            );
            lemma_with_prefix_empty(
                plan_node(view_node(entries@[i as int]), *case, ignore_files, ignore_dirs),
            );
            assert(ops_view(out@) =~= plan_entries(
                stepped,
                *case,
                ignore_files,
                ignore_dirs,
            ));
        }
        i += 1;
    }
    proof {
        assert(entries@.subrange(0, entries@.len() as int) =~= entries@);
    }
    out
}

/// Computes the renames of one whole conversion command: with `recursive`
/// set and a directory root, first everything below the root, children
/// before their directories; then the root itself, whatever the ignore flags
/// say, unless its name is empty.  Paths are relative to the root's parent.
#[verifier::loop_isolation(false)]
pub fn plan_convert(
    root: &Node,
    case: &LetterCase,
    recursive: bool,
    ignore_files: bool,
    ignore_dirs: bool,
) -> (r: Vec<RenameOp>)
    ensures
        ops_view(r@) == plan_root(view_node(*root), *case, recursive, ignore_files, ignore_dirs),
{
    broadcast use lemma_view_entries_len, lemma_view_entries_index;

    match root {
        Node::File { name } => {
            let mut out: Vec<RenameOp> = Vec::new();
            if !name.as_str().is_empty() {
                let mut path: Vec<String> = Vec::new();
                path.push(name.clone());
                let target = convert_name(name.as_str(), case);
                out.push(RenameOp { path, target });
                proof {
                    assert(out@[0].path.deep_view() =~= seq![name@]);
                }
            }
            proof {
                assert(ops_view(out@) =~= plan_root(
                    view_node(*root),
                    *case,
                    recursive,
                    ignore_files,
                    ignore_dirs,
                ));
            }
            out
        },
        Node::Other { name } => {
            let out: Vec<RenameOp> = Vec::new();
            proof {
                assert(ops_view(out@) =~= plan_root(
                    view_node(*root),
                    *case,
                    recursive,
                    ignore_files,
                    ignore_dirs,
                ));
            }
            out
        },
        Node::Dir { name, entries } => {
            let ghost entries_v = view_entries(entries@);
            let mut out: Vec<RenameOp> = Vec::new();
            let mut pre: Vec<String> = Vec::new();
            pre.push(name.clone());
            proof {
                assert(pre.deep_view() =~= seq![name@]);
            }
            if recursive {
                let mut i: usize = 0;
                while i < entries.len()
                    invariant
                        i <= entries.len(),
                        pre.deep_view() == seq![name@],
                        ops_view(out@) == with_prefix(
                            seq![name@],
                            plan_entries(
                                view_entries(entries@.subrange(0, i as int)),
                                *case,
                                ignore_files,
                                ignore_dirs,
                            ),
                        ),
                    decreases entries.len() - i,
                {
                    let ghost done = view_entries(entries@.subrange(0, i as int));
                    plan_into(&entries[i], case, ignore_files, ignore_dirs, &pre, &mut out);
                    proof {
                        let stepped = view_entries(entries@.subrange(0, i + 1 as int));
                        assert(stepped =~= done.push(view_node(entries@[i as int])));
                        lemma_plan_entries_push(
                            done,
                            view_node(entries@[i as int]),
                            *case,
                            ignore_files,
                            ignore_dirs,
                        );
                        lemma_with_prefix_concat(
                            seq![name@],
                            plan_entries(done, *case, ignore_files, ignore_dirs),
                            plan_node(
                                view_node(entries@[i as int]),
                                *case,
                                ignore_files,
                                ignore_dirs,
                            ),
                        );
                        assert(ops_view(out@) =~= with_prefix(
                            seq![name@],
                            plan_entries(stepped, *case, ignore_files, ignore_dirs),
                        ));
                    }
                    i += 1;
                }
                proof {
                    assert(entries@.subrange(0, entries@.len() as int) =~= entries@);
                }
            }
            if !name.as_str().is_empty() {
                let mut path: Vec<String> = Vec::new();
                path.push(name.clone());
                let target = convert_name(name.as_str(), case);
                out.push(RenameOp { path, target });
                proof {
                    assert(out@.last().path.deep_view() =~= seq![name@]);
                }
            }
            proof {
                assert(ops_view(out@) =~= plan_root(
                    view_node(*root),
                    *case,
                    recursive,
                    ignore_files,
                    ignore_dirs,
                ));
            }
            out
        },
    }
}

/// `p` addresses the same entry as `q`, or one of the entries `q` lies
/// under.
pub open spec fn is_prefix_path(p: Seq<Seq<char>>, q: Seq<Seq<char>>) -> bool {
    p.len() <= q.len() && p == q.subrange(0, p.len() as int)
}

/// The plan's order is safe to execute step by step: no operation addresses
/// an entry at or below one that an earlier operation has already renamed,
/// so children are always renamed before their ancestors.
pub open spec fn children_first(ops: Seq<OpV>) -> bool {
    forall|i: int, j: int|
        0 <= i < j < ops.len() ==> !is_prefix_path(
            (#[trigger] ops[i]).path,
            (#[trigger] ops[j]).path,
        )
}

proof fn lemma_plan_node_under(n: NodeV, case: LetterCase, ignore_files: bool, ignore_dirs: bool)
    ensures
        forall|k: int|
            0 <= k < plan_node(n, case, ignore_files, ignore_dirs).len() ==> {
                &&& 1 <= (#[trigger] plan_node(n, case, ignore_files, ignore_dirs)[k]).path.len()
                &&& plan_node(n, case, ignore_files, ignore_dirs)[k].path[0] == n.name()
            },
{
}

proof fn lemma_plan_entries_under(
    s: Seq<NodeV>,
    case: LetterCase,
    ignore_files: bool,
    ignore_dirs: bool,
)
    ensures
        forall|k: int|
            0 <= k < plan_entries(s, case, ignore_files, ignore_dirs).len() ==> {
                &&& 1 <= (#[trigger] plan_entries(s, case, ignore_files, ignore_dirs)[k]).path.len()
                &&& exists|i: int|
                    0 <= i < s.len() && plan_entries(s, case, ignore_files, ignore_dirs)[k].path[0]
                        == (#[trigger] s[i]).name()
            },
    decreases s,
{
    if s.len() > 0 {
        let rest = s.subrange(1, s.len() as int);
        let a = plan_node(s[0], case, ignore_files, ignore_dirs);
        let b = plan_entries(rest, case, ignore_files, ignore_dirs);
        lemma_plan_node_under(s[0], case, ignore_files, ignore_dirs);
        lemma_plan_entries_under(rest, case, ignore_files, ignore_dirs);
        assert forall|k: int|
            0 <= k < plan_entries(s, case, ignore_files, ignore_dirs).len() implies {
            &&& 1 <= (#[trigger] plan_entries(s, case, ignore_files, ignore_dirs)[k]).path.len()
            &&& exists|i: int|
                0 <= i < s.len() && plan_entries(s, case, ignore_files, ignore_dirs)[k].path[0]
                    == (#[trigger] s[i]).name()
        } by {
            if k < a.len() {
                assert(plan_entries(s, case, ignore_files, ignore_dirs)[k] == a[k]);
                assert(plan_entries(s, case, ignore_files, ignore_dirs)[k].path[0] == s[0].name());
            } else {
                assert(plan_entries(s, case, ignore_files, ignore_dirs)[k] == b[k - a.len()]);
                let i = choose|i: int|
                    0 <= i < rest.len() && b[k - a.len()].path[0] == (#[trigger] rest[i]).name();
                assert(rest[i] == s[i + 1]);
                assert(plan_entries(s, case, ignore_files, ignore_dirs)[k].path[0] == s[
                    i + 1
                ].name());
            }
        }
    }
}

proof fn lemma_plan_node_children_first(
    n: NodeV,
    case: LetterCase,
    ignore_files: bool,
    ignore_dirs: bool,
)
    requires
        wf_node(n),
    ensures
        children_first(plan_node(n, case, ignore_files, ignore_dirs)),
    decreases n,
{
    match n {
        NodeV::File { name } => {
        },
        NodeV::Other { name } => {
        },
        NodeV::Dir { name, entries } => {
            let inner = plan_entries(entries, case, ignore_files, ignore_dirs);
            let subs = with_prefix(seq![name], inner);
            let ops = plan_node(n, case, ignore_files, ignore_dirs);
            lemma_plan_entries_children_first(entries, case, ignore_files, ignore_dirs);
            lemma_plan_entries_under(entries, case, ignore_files, ignore_dirs);
            assert forall|i: int, j: int| 0 <= i < j < ops.len() implies !is_prefix_path(
                (#[trigger] ops[i]).path,
                (#[trigger] ops[j]).path,
            ) by {
                if j < subs.len() {
                    // both operations come from inside the directory
                    assert(ops[i] == subs[i] && ops[j] == subs[j]);
                    assert(!is_prefix_path(inner[i].path, inner[j].path));
                    if is_prefix_path(subs[i].path, subs[j].path) {
                        assert(inner[i].path =~= inner[j].path.subrange(
                            0,
                            inner[i].path.len() as int,
                        )) by {
                            assert forall|t: int| 0 <= t < inner[i].path.len() implies inner[
                                i
                            ].path[t] == inner[j].path[t] by {
                                assert(subs[i].path[t + 1] == subs[j].path.subrange(
                                    0,
                                    subs[i].path.len() as int,
                                )[t + 1]);
                            }
                        }
                        assert(false);
                    }
                } else {
                    // the later operation renames the directory itself, and the
                    // earlier one lies strictly below it
                    assert(ops[i] == subs[i]);
                    assert(1 <= inner[i].path.len());
                    assert(ops[i].path.len() >= 2);
                    assert(ops[j].path.len() == 1);
                }
            }
        },
    }
}

/// Law: over well-formed sibling entries, the plan of the recursive walk
/// renames children before their ancestors - once an operation has renamed
/// an entry, no later operation addresses that entry or anything below it,
/// so every operation still finds its source path intact.
pub proof fn lemma_plan_entries_children_first(
    s: Seq<NodeV>,
    case: LetterCase,
    ignore_files: bool,
    ignore_dirs: bool,
)
    requires
        wf_entries(s),
    ensures
        children_first(plan_entries(s, case, ignore_files, ignore_dirs)),
    decreases s,
{
    if s.len() > 0 {
        let rest = s.subrange(1, s.len() as int);
        let a = plan_node(s[0], case, ignore_files, ignore_dirs);
        let b = plan_entries(rest, case, ignore_files, ignore_dirs);
        let ops = plan_entries(s, case, ignore_files, ignore_dirs);
        assert(wf_node(s[0]));
        assert(wf_entries(rest)) by {
            assert(forall|i: int| 0 <= i < rest.len() ==> #[trigger] rest[i] == s[i + 1]);
        }
        lemma_plan_node_children_first(s[0], case, ignore_files, ignore_dirs);
        lemma_plan_entries_children_first(rest, case, ignore_files, ignore_dirs);
        lemma_plan_node_under(s[0], case, ignore_files, ignore_dirs);
        lemma_plan_entries_under(rest, case, ignore_files, ignore_dirs);
        assert forall|i: int, j: int| 0 <= i < j < ops.len() implies !is_prefix_path(
            (#[trigger] ops[i]).path,
            (#[trigger] ops[j]).path,
        ) by {
            if j < a.len() {
                assert(ops[i] == a[i] && ops[j] == a[j]);
            } else if i >= a.len() {
                assert(ops[i] == b[i - a.len()] && ops[j] == b[j - a.len()]);
            } else {
                // the earlier operation belongs to the first sibling, the
                // later one to a different sibling: their first components
                // are two distinct sibling names, so neither path can lead
                // into the other
                assert(ops[i] == a[i] && ops[j] == b[j - a.len()]);
                assert(ops[i].path[0] == s[0].name());
                let w = choose|w: int|
                    0 <= w < rest.len() && b[j - a.len()].path[0] == (#[trigger] rest[w]).name();
                assert(rest[w] == s[w + 1]);
                assert(ops[j].path[0] == s[w + 1].name());
                assert(s[0].name() != s[w + 1].name());
                if is_prefix_path(ops[i].path, ops[j].path) {
                    assert(ops[i].path[0] == ops[j].path.subrange(
                        0,
                        ops[i].path.len() as int,
                    )[0]);
                    assert(false);
                }
            }
        }
    }
}

/// Law: the plan of a whole conversion command renames children before
/// their ancestors; in particular the root itself comes last.
pub proof fn lemma_plan_root_children_first(
    n: NodeV,
    case: LetterCase,
    recursive: bool,
    ignore_files: bool,
    ignore_dirs: bool,
)
    requires
        wf_node(n),
    ensures
        children_first(plan_root(n, case, recursive, ignore_files, ignore_dirs)),
{
    let ops = plan_root(n, case, recursive, ignore_files, ignore_dirs);
    match n {
        NodeV::File { name } => {
        },
        NodeV::Other { name } => {
        },
        NodeV::Dir { name, entries } => {
            let inner = plan_entries(entries, case, ignore_files, ignore_dirs);
            let subs: Seq<OpV> = if recursive {
                with_prefix(seq![name], inner)
            } else {
                Seq::empty()
            };
            lemma_plan_entries_children_first(entries, case, ignore_files, ignore_dirs);
            lemma_plan_entries_under(entries, case, ignore_files, ignore_dirs);
            assert forall|i: int, j: int| 0 <= i < j < ops.len() implies !is_prefix_path(
                (#[trigger] ops[i]).path,
                (#[trigger] ops[j]).path,
            ) by {
                if j < subs.len() {
                    assert(ops[i] == subs[i] && ops[j] == subs[j]);
                    assert(!is_prefix_path(inner[i].path, inner[j].path));
                    if is_prefix_path(subs[i].path, subs[j].path) {
                        assert(inner[i].path =~= inner[j].path.subrange(
                            0,
                            inner[i].path.len() as int,
                        )) by {
                            assert forall|t: int| 0 <= t < inner[i].path.len() implies inner[
                                i
                            ].path[t] == inner[j].path[t] by {
                                assert(subs[i].path[t + 1] == subs[j].path.subrange(
                                    0,
                                    subs[i].path.len() as int,
                                )[t + 1]);
                            }
                        }
                        assert(false);
                    }
                } else {
                    assert(ops[i] == subs[i]);
                    assert(1 <= inner[i].path.len());
                    assert(ops[i].path.len() >= 2);
                    assert(ops[j].path.len() == 1);
                }
            }
        },
    }
}

} // verus!
