//! Tallying the file extensions of a directory tree.
//!
//! The extension of a file name is the part after the last `.`, unless the
//! name holds no `.`, or its only `.` is the leading character; a directory
//! never contributes an extension.  [`tally_extensions`] walks a tree and
//! counts, for every extension that occurs, how many files under the root
//! carry it, exactly as the mapping [`tally_entries`] describes.

use crate::tree::Node;
use crate::tree::NodeV;
use crate::tree::lemma_view_entries_index;
use crate::tree::lemma_view_entries_len;
use crate::tree::num_files;
use crate::tree::num_files_entries;
use crate::tree::view_entries;
use crate::tree::view_node;
use vstd::prelude::*;

verus! {

/// The position of the last `.` in `s`, or `-1` if there is none.
pub open spec fn last_dot(s: Seq<char>) -> int
    decreases s.len(),
{
    if s.len() == 0 {
        -1
    } else if s[s.len() - 1] == '.' {
        s.len() - 1
    } else {
        last_dot(s.subrange(0, s.len() - 1))
    }
}

/// The extension of the file name `name`: what follows the final `.`, and
/// nothing when there is no `.`, or when the only `.` leads the name (a
/// hidden file such as `.config` has no extension).
pub open spec fn ext_of(name: Seq<char>) -> Option<Seq<char>> {
    if last_dot(name) <= 0 {
        None
    } else {
        Some(name.subrange(last_dot(name) + 1, name.len() as int))
    }
}

proof fn lemma_last_dot(s: Seq<char>)
    ensures
        -1 <= last_dot(s) < s.len(),
        last_dot(s) == -1 ==> forall|k: int| 0 <= k < s.len() ==> s[k] != '.',
        last_dot(s) >= 0 ==> s[last_dot(s)] == '.',
        last_dot(s) >= 0 ==> forall|k: int| last_dot(s) < k < s.len() ==> s[k] != '.',
    decreases s.len(),
{
    if s.len() > 0 && s[s.len() - 1] != '.' {
        let head = s.subrange(0, s.len() - 1);
        lemma_last_dot(head);
        assert(forall|k: int| 0 <= k < head.len() ==> head[k] == s[k]);
    }
}

/// Computes the extension of a file name, if it has one.
#[verifier::loop_isolation(false)]
pub fn extension_of(name: &str) -> (r: Option<String>)
    ensures
        r.deep_view() == ext_of(name@),
{
    let n = name.unicode_len();
    let mut i: usize = n;
    while i > 0
        invariant
            i <= n,
            forall|k: int| i <= k < n ==> name@[k] != '.',
        decreases i,
    {
        if name.get_char(i - 1) == '.' {
            proof {
                lemma_last_dot(name@);
                assert(last_dot(name@) == i - 1);
            }
            if i == 1 {
                return None;
            }
            let ext = name.substring_char(i, n).to_owned();
            return Some(ext);
        }
        i -= 1;
    }
    proof {
        lemma_last_dot(name@);
    }
    None
}

/// The count of `k` in the tally `m`; zero where `k` is absent.
pub open spec fn count_of(m: Map<Seq<char>, nat>, k: Seq<char>) -> nat {
    if m.dom().contains(k) {
        m[k]
    } else {
        0
    }
}

/// Two tallies merged: counts added key by key.
pub open spec fn merge_tally(a: Map<Seq<char>, nat>, b: Map<Seq<char>, nat>) -> Map<
    Seq<char>,
    nat,
> {
    Map::new(
        |k: Seq<char>| a.dom().contains(k) || b.dom().contains(k),
        |k: Seq<char>| count_of(a, k) + count_of(b, k),
    )
}

/// The extension tally of one entry: one count for a file with an extension,
/// nothing for a file without one or for an entry of another kind, and the
/// merged tally of the entries for a directory.
pub open spec fn tally_node(n: NodeV) -> Map<Seq<char>, nat>
    decreases n,
{
    match n {
        NodeV::File { name } => match ext_of(name) {
            Some(e) => Map::empty().insert(e, 1nat),
            None => Map::empty(),
        },
        NodeV::Dir { name, entries } => tally_entries(entries),
        NodeV::Other { name } => Map::empty(),
    }
}

/// The extension tally of a run of sibling entries.
pub open spec fn tally_entries(s: Seq<NodeV>) -> Map<Seq<char>, nat>
    decreases s,
{
    if s.len() == 0 {
        Map::empty()
    } else {
        merge_tally(tally_node(s[0]), tally_entries(s.subrange(1, s.len() as int)))
    }
}

/// One row of the result: an extension and how many files carry it.
#[derive(Debug, PartialEq, Eq)]
pub struct ExtCount {
    pub ext: String,
    pub count: u64,
}

/// The mapping that a row list stands for.
pub open spec fn counts_map(s: Seq<ExtCount>) -> Map<Seq<char>, nat>
    decreases s.len(),
{
    if s.len() == 0 {
        Map::empty()
    } else {
        counts_map(s.drop_last()).insert(s.last().ext@, s.last().count as nat)
    }
}

/// No extension occurs in two rows.
pub open spec fn distinct_exts(s: Seq<ExtCount>) -> bool {
    forall|i: int, j: int| 0 <= i < j < s.len() ==> (#[trigger] s[i]).ext@ != (#[trigger] s[j]).ext@
}

proof fn lemma_merge_empty(a: Map<Seq<char>, nat>)
    ensures
        merge_tally(a, Map::empty()) == a,
        merge_tally(Map::empty(), a) == a,
{
    assert(merge_tally(a, Map::empty()) =~= a);
    assert(merge_tally(Map::empty(), a) =~= a);
}

proof fn lemma_merge_assoc(a: Map<Seq<char>, nat>, b: Map<Seq<char>, nat>, c: Map<Seq<char>, nat>)
    ensures
        merge_tally(merge_tally(a, b), c) == merge_tally(a, merge_tally(b, c)),
{
    assert(merge_tally(merge_tally(a, b), c) =~= merge_tally(a, merge_tally(b, c)));
}

proof fn lemma_merge_comm(a: Map<Seq<char>, nat>, b: Map<Seq<char>, nat>)
    ensures
        merge_tally(a, b) == merge_tally(b, a),
{
    assert(merge_tally(a, b) =~= merge_tally(b, a));
}

proof fn lemma_counts_map_row(s: Seq<ExtCount>, j: int)
    requires
        distinct_exts(s),
        0 <= j < s.len(),
    ensures
        counts_map(s).dom().contains(s[j].ext@),
        counts_map(s)[s[j].ext@] == s[j].count as nat,
    decreases s.len(),
{
    if j < s.len() - 1 {
        lemma_counts_map_row(s.drop_last(), j);
    }
}

proof fn lemma_counts_map_dom(s: Seq<ExtCount>, k: Seq<char>)
    ensures
        counts_map(s).dom().contains(k) <==> exists|j: int| 0 <= j < s.len() && (#[trigger] s[j]).ext@
            == k,
    decreases s.len(),
{
    if s.len() > 0 {
        lemma_counts_map_dom(s.drop_last(), k);
        if s.last().ext@ == k {
            assert(s[s.len() - 1].ext@ == k);
        } else if exists|j: int| 0 <= j < s.len() && (#[trigger] s[j]).ext@ == k {
            let j = choose|j: int| 0 <= j < s.len() && (#[trigger] s[j]).ext@ == k;
            assert(s.drop_last()[j].ext@ == k);
        }
    }
}

proof fn lemma_counts_map_update(s: Seq<ExtCount>, j: int, x: ExtCount)
    requires
        distinct_exts(s),
        0 <= j < s.len(),
        x.ext@ == s[j].ext@,
    ensures
        counts_map(s.update(j, x)) == counts_map(s).insert(x.ext@, x.count as nat),
    decreases s.len(),
{
    if j == s.len() - 1 {
        assert(s.update(j, x).drop_last() =~= s.drop_last());
        assert(counts_map(s.update(j, x)) =~= counts_map(s).insert(x.ext@, x.count as nat));
    } else {
        assert(s.update(j, x).drop_last() =~= s.drop_last().update(j, x));
        lemma_counts_map_update(s.drop_last(), j, x);
        assert(s.update(j, x).last() == s.last());
        assert(s.last().ext@ != x.ext@);
        assert(counts_map(s.update(j, x)) =~= counts_map(s).insert(x.ext@, x.count as nat));
    }
}

/// Adds `add` to the row of `ext`, creating the row if it is missing.
#[verifier::loop_isolation(false)]
fn bump(acc: &mut Vec<ExtCount>, ext: String, add: u64)
    requires
        distinct_exts(old(acc)@),
        count_of(counts_map(old(acc)@), ext@) + add <= u64::MAX,
    ensures
        distinct_exts(final(acc)@),
        counts_map(final(acc)@) == merge_tally(
            counts_map(old(acc)@),
            Map::empty().insert(ext@, add as nat),
        ),
{
    let ghost m0 = counts_map(old(acc)@);
    let mut j: usize = 0;
    while j < acc.len()
        invariant
            j <= acc@.len(),
            acc@ == old(acc)@,
            forall|t: int| 0 <= t < j ==> (#[trigger] acc@[t]).ext@ != ext@,
        decreases acc@.len() - j,
    {
        if acc[j].ext == ext {
            proof {
                lemma_counts_map_row(acc@, j as int);
            }
            let c = acc[j].count;
            let row = ExtCount { ext, count: c + add };
            proof {
                lemma_counts_map_update(acc@, j as int, row);
            }
            acc.set(j, row);
            proof {
                assert(distinct_exts(acc@)) by {
                    assert(forall|t: int|
                        0 <= t < acc@.len() ==> (#[trigger] acc@[t]).ext@ == old(acc)@[t].ext@);
                }
                assert(counts_map(acc@) =~= merge_tally(m0, Map::empty().insert(ext@, add as nat)));
            }
            return ;
        }
        j += 1;
    }
    proof {
        lemma_counts_map_dom(acc@, ext@);
        assert(!counts_map(acc@).dom().contains(ext@));
    }
    let ghost before = acc@;
    acc.push(ExtCount { ext, count: add });
    proof {
        assert(acc@.drop_last() =~= before);
        assert(distinct_exts(acc@));
        assert(counts_map(acc@) =~= merge_tally(m0, Map::empty().insert(ext@, add as nat)));
    }
}


proof fn lemma_tally_node_le(n: NodeV, k: Seq<char>)
    ensures
        count_of(tally_node(n), k) <= num_files(n),
    decreases n,
{
    match n {
        NodeV::Dir { name, entries } => {
            lemma_tally_entries_le(entries, k);
        },
        _ => {
        },
    }
}

proof fn lemma_tally_entries_le(s: Seq<NodeV>, k: Seq<char>)
    ensures
        count_of(tally_entries(s), k) <= num_files_entries(s),
    decreases s,
{
    if s.len() > 0 {
        lemma_tally_node_le(s[0], k);
        lemma_tally_entries_le(s.subrange(1, s.len() as int), k);
    }
}

proof fn lemma_nf_split(s: Seq<NodeV>, i: int)
    requires
        0 <= i <= s.len(),
    ensures
        num_files_entries(s) == num_files_entries(s.subrange(0, i)) + num_files_entries(
            s.subrange(i, s.len() as int),
        ),
    decreases i,
{
    if i == 0 {
        assert(s.subrange(0, 0) =~= Seq::<NodeV>::empty());
        assert(s.subrange(0, s.len() as int) =~= s);
    } else {
        let tail = s.subrange(1, s.len() as int);
        lemma_nf_split(tail, i - 1);
        assert(tail.subrange(0, i - 1) =~= s.subrange(0, i).subrange(1, i));
        assert(tail.subrange(i - 1, tail.len() as int) =~= s.subrange(i, s.len() as int));
        assert(s.subrange(0, i)[0] == s[0]);
    }
}

proof fn lemma_tally_entries_push(s: Seq<NodeV>, x: NodeV)
    ensures
        tally_entries(s.push(x)) == merge_tally(tally_entries(s), tally_node(x)),
    decreases s.len(),
{
    let whole = s.push(x);
    assert(tally_entries(Seq::<NodeV>::empty()) == Map::<Seq<char>, nat>::empty());
    if s.len() == 0 {
        assert(whole.subrange(1, whole.len() as int) =~= Seq::<NodeV>::empty());
        assert(whole[0] == x);
        lemma_merge_empty(tally_node(x));
        lemma_merge_empty(tally_entries(s));
        assert(tally_entries(s) == Map::<Seq<char>, nat>::empty());
    } else {
        let rest = s.subrange(1, s.len() as int);
        assert(whole.subrange(1, whole.len() as int) =~= rest.push(x));
        assert(whole[0] == s[0]);
        lemma_tally_entries_push(rest, x);
        lemma_merge_assoc(tally_node(s[0]), tally_entries(rest), tally_node(x));
    }
}

/// Walks sibling entries in listing order, merging every extension count
/// into `acc`.
#[verifier::loop_isolation(false)]
fn tally_into(entries: &Vec<Node>, acc: &mut Vec<ExtCount>)
    requires
        distinct_exts(old(acc)@),
        forall|k: Seq<char>|
            count_of(counts_map(old(acc)@), k) + num_files_entries(view_entries(entries@))
                <= u64::MAX,
    ensures
        distinct_exts(final(acc)@),
        counts_map(final(acc)@) == merge_tally(
            counts_map(old(acc)@),
            tally_entries(view_entries(entries@)),
        ),
    decreases entries@,
{
    broadcast use lemma_view_entries_len, lemma_view_entries_index;

    let ghost e_v = view_entries(entries@);
    let ghost m0 = counts_map(old(acc)@);
    assert(counts_map(acc@) == merge_tally(m0, tally_entries(view_entries(entries@.subrange(0, 0)))))
        by {
        assert(entries@.subrange(0, 0) =~= Seq::<Node>::empty());
        assert(view_entries(Seq::<Node>::empty()) =~= Seq::<NodeV>::empty());
        lemma_merge_empty(m0);
    }
    let mut i: usize = 0;
    while i < entries.len()
        invariant
            i <= entries.len(),
            distinct_exts(acc@),
            counts_map(acc@) == merge_tally(
                m0,
                tally_entries(view_entries(entries@.subrange(0, i as int))),
            ),
        decreases entries@.len() - i,
    {
        let ghost done = view_entries(entries@.subrange(0, i as int));
        let ghost x = view_node(entries@[i as int]);
        proof {
            assert(done =~= e_v.subrange(0, i as int));
            lemma_nf_split(e_v, i as int);
            assert(e_v.subrange(i as int, e_v.len() as int)[0] == e_v[i as int]);
            assert(e_v.subrange(i as int, e_v.len() as int).subrange(
                1,
                e_v.subrange(i as int, e_v.len() as int).len() as int,
            ) =~= e_v.subrange(i + 1, e_v.len() as int));
            assert(num_files_entries(e_v.subrange(i as int, e_v.len() as int)) >= num_files(
                e_v[i as int],
            ));
        }
        let entry = &entries[i];
        match entry {
            Node::File { name } => {
                let found = extension_of(name.as_str());
                match found {
                    Some(e) => {
                        proof {
                            assert(ext_of(name@) == Some(e@));
                            assert(tally_node(x) =~= Map::<Seq<char>, nat>::empty().insert(
                                e@,
                                1nat,
                            ));
                            lemma_tally_entries_le(done, e@);
                            assert(count_of(counts_map(acc@), e@) + 1 <= u64::MAX);
                        }
                        bump(acc, e, 1);
                        proof {
                            lemma_merge_assoc(m0, tally_entries(done), tally_node(x));
                        }
                    },
                    None => {
                        proof {
                            assert(ext_of(name@) is None);
                            assert(tally_node(x) =~= Map::<Seq<char>, nat>::empty());
                            lemma_merge_empty(tally_entries(done));
                        }
                    },
                }
            },
            Node::Other { name } => {
                proof {
                    assert(tally_node(x) =~= Map::<Seq<char>, nat>::empty());
                    lemma_merge_empty(tally_entries(done));
                }
            },
            Node::Dir { name, entries: sub } => {
                proof {
                    assert(tally_node(x) == tally_entries(view_entries(sub@)));
                    assert(num_files(x) == num_files_entries(view_entries(sub@)));
                    assert forall|k: Seq<char>|
                        count_of(counts_map(acc@), k) + num_files_entries(view_entries(sub@))
                            <= u64::MAX by {
                        lemma_tally_entries_le(done, k);
                        assert(count_of(counts_map(old(acc)@), k) + num_files_entries(e_v)
                            <= u64::MAX);
                    }
                }
                tally_into(sub, acc);
                proof {
                    lemma_merge_assoc(m0, tally_entries(done), tally_node(x));
                }
            },
        }
        proof {
            let stepped = view_entries(entries@.subrange(0, i + 1 as int));
            assert(stepped =~= done.push(x));
            lemma_tally_entries_push(done, x);
        }
        i += 1;
    }
    proof {
        assert(entries@.subrange(0, entries@.len() as int) =~= entries@);
    }
}

/// Tallies the extensions of every file under the directory `root`: for
/// each extension that occurs, the returned rows hold exactly one entry
/// with the number of files across the whole subtree that carry it; files
/// without an extension are counted nowhere.
pub fn tally_extensions(root: &Node) -> (r: Vec<ExtCount>)
    requires
        view_node(*root) is Dir,
        num_files(view_node(*root)) <= u64::MAX,
    ensures
        distinct_exts(r@),
        counts_map(r@) == tally_node(view_node(*root)),
{
    let mut acc: Vec<ExtCount> = Vec::new();
    match root {
        Node::Dir { name, entries } => {
            proof {
                assert(counts_map(acc@) == Map::<Seq<char>, nat>::empty());
            }
            tally_into(entries, &mut acc);
            proof {
                lemma_merge_empty(tally_entries(view_entries(entries@)));
            }
        },
        Node::File { name } => {
            proof {
                assert(false);
            }
        },
        Node::Other { name } => {
            proof {
                assert(false);
            }
        },
    }
    acc
}


/// Whether the entry `n` holds, anywhere below it, a file whose extension
/// is `e`.
pub open spec fn node_has_ext(n: NodeV, e: Seq<char>) -> bool
    decreases n,
{
    match n {
        NodeV::File { name } => ext_of(name) == Some(e),
        NodeV::Dir { name, entries } => entries_have_ext(entries, e),
        NodeV::Other { name } => false,
    }
}

/// Whether some entry of the run holds a file whose extension is `e`.
pub open spec fn entries_have_ext(s: Seq<NodeV>, e: Seq<char>) -> bool
    decreases s,
{
    if s.len() == 0 {
        false
    } else {
        node_has_ext(s[0], e) || entries_have_ext(s.subrange(1, s.len() as int), e)
    }
}

proof fn lemma_tally_node_keys(n: NodeV, e: Seq<char>)
    ensures
        tally_node(n).dom().contains(e) <==> node_has_ext(n, e),
    decreases n,
{
    match n {
        NodeV::Dir { name, entries } => {
            lemma_tally_keys_are_extensions(entries, e);
        },
        _ => {
        },
    }
}

/// Law: the keys of the tally are exactly the extensions that files in the
/// tree carry.  In particular a file without an extension contributes no
/// key at all.
pub proof fn lemma_tally_keys_are_extensions(s: Seq<NodeV>, e: Seq<char>)
    ensures
        tally_entries(s).dom().contains(e) <==> entries_have_ext(s, e),
    decreases s,
{
    if s.len() > 0 {
        lemma_tally_node_keys(s[0], e);
        lemma_tally_keys_are_extensions(s.subrange(1, s.len() as int), e);
    }
}

proof fn lemma_tally_remove(s: Seq<NodeV>, j: int)
    requires
        0 <= j < s.len(),
    ensures
        tally_entries(s) == merge_tally(tally_node(s[j]), tally_entries(s.remove(j))),
    decreases j,
{
    if j == 0 {
        assert(s.remove(0) =~= s.subrange(1, s.len() as int));
    } else {
        let rest = s.subrange(1, s.len() as int);
        lemma_tally_remove(rest, j - 1);
        assert(rest[j - 1] == s[j]);
        assert(rest.remove(j - 1) =~= s.remove(j).subrange(1, s.remove(j).len() as int));
        assert(s.remove(j)[0] == s[0]);
        lemma_merge_assoc(
            tally_node(s[0]),
            tally_node(s[j]),
            tally_entries(rest.remove(j - 1)),
        );
        lemma_merge_comm(tally_node(s[0]), tally_node(s[j]));
        lemma_merge_assoc(
            tally_node(s[j]),
            tally_node(s[0]),
            tally_entries(rest.remove(j - 1)),
        );
    }
}

/// Law: the tally does not depend on the order in which sibling entries are
/// visited - two listings of the same entries, in any two orders, give the
/// same count for every extension.
pub proof fn lemma_tally_permutation(s1: Seq<NodeV>, s2: Seq<NodeV>)
    requires
        s1.to_multiset() == s2.to_multiset(),
    ensures
        tally_entries(s1) == tally_entries(s2),
    decreases s1.len(),
{
    vstd::seq_lib::to_multiset_len(s1);
    vstd::seq_lib::to_multiset_len(s2);
    if s1.len() == 0 {
        assert(s2.len() == 0);
    } else {
        let x = s1[0];
        assert(s1.contains(x));
        vstd::seq_lib::to_multiset_contains(s1, x);
        vstd::seq_lib::to_multiset_contains(s2, x);
        assert(s2.contains(x));
        let j = choose|j: int| 0 <= j < s2.len() && s2[j] == x;
        lemma_tally_remove(s1, 0);
        lemma_tally_remove(s2, j);
        vstd::seq_lib::to_multiset_remove(s1, 0);
        vstd::seq_lib::to_multiset_remove(s2, j);
        assert(s1.remove(0).to_multiset() == s2.remove(j).to_multiset());
        lemma_tally_permutation(s1.remove(0), s2.remove(j));
    }
}

} // verus!
