use vstd::prelude::*;
use crate::tree::{
    children_records, children_size, keep_within, tree_records, tree_size, usage_records, FsNode,
    Record,
};

verus! {

/// Sum of the sizes of the records of `s` that lie at depth `k`.
pub open spec fn sum_at_depth(s: Seq<Record>, k: nat) -> nat
    decreases s.len(),
{
    if s.len() == 0 {
        0
    } else {
        let last = s[s.len() - 1];
        sum_at_depth(s.subrange(0, s.len() - 1), k) + if last.depth == k {
            last.size
        } else {
            0
        }
    }
}

proof fn lemma_sum_concat(a: Seq<Record>, b: Seq<Record>, k: nat)
    ensures
        sum_at_depth(a + b, k) == sum_at_depth(a, k) + sum_at_depth(b, k),
    decreases b.len(),
{
    if b.len() == 0 {
        assert(a + b =~= a);
    } else {
        let ab = a + b;
        assert(ab.subrange(0, ab.len() - 1) =~= a + b.subrange(0, b.len() - 1));
        lemma_sum_concat(a, b.subrange(0, b.len() - 1), k);
    }
}

proof fn lemma_tree_sum(n: FsNode, e: nat, k: nat)
    requires
        k <= e,
    ensures
        sum_at_depth(tree_records(n, e), k) == if k == e { tree_size(n) } else { 0 },
    decreases n,
{
    match n {
        FsNode::File { path, size } => {
            let s = tree_records(n, e);
            assert(s.subrange(0, 0) =~= Seq::<Record>::empty());
            assert(sum_at_depth(s.subrange(0, 0), k) == 0);
        },
        FsNode::Dir { path, children } => {
            let own = seq![Record { path: path@, size: children_size(children@), depth: e }];
            lemma_children_sum(children@, e + 1, k);
            lemma_sum_concat(children_records(children@, e + 1), own, k);
            assert(own.subrange(0, 0) =~= Seq::<Record>::empty());
            assert(sum_at_depth(own.subrange(0, 0), k) == 0);
        },
        FsNode::Unreadable { .. } => {},
    }
}

proof fn lemma_children_sum(s: Seq<FsNode>, e: nat, k: nat)
    requires
        k <= e,
    ensures
        sum_at_depth(children_records(s, e), k) == if k == e { children_size(s) } else { 0 },
    decreases s,
{
    if s.len() > 0 {
        let prefix = s.subrange(0, s.len() - 1);
        lemma_children_sum(prefix, e, k);
        lemma_tree_sum(s[s.len() - 1], e, k);
        lemma_sum_concat(children_records(prefix, e), tree_records(s[s.len() - 1], e), k);
    }
}

/// A directory's own record, the last of its traversal, carries the sum of
/// the sizes of the records one level below it. This holds at every
/// directory of the tree, each being the root of its own traversal.
pub proof fn aggregate_is_sum_of_children(n: FsNode, d: nat)
    requires
        n is Dir,
    ensures
        tree_records(n, d).len() > 0,
        tree_records(n, d).last() == (Record {
            path: n->Dir_path@,
            size: sum_at_depth(tree_records(n, d), d + 1),
            depth: d,
        }),
{
    let own = seq![Record { path: n->Dir_path@, size: children_size(n->Dir_children@), depth: d }];
    lemma_children_sum(n->Dir_children@, d + 1, d + 1);
    lemma_sum_concat(children_records(n->Dir_children@, d + 1), own, d + 1);
    assert(own.subrange(0, 0) =~= Seq::<Record>::empty());
    assert(sum_at_depth(own.subrange(0, 0), d + 1) == 0);
}

/// The report on a single file is that file's record alone, at depth 0,
/// whatever the maximum depth.
pub proof fn single_file_report(root: FsNode, max_depth: nat)
    requires
        root is File,
    ensures
        usage_records(root, max_depth) == seq![
            Record { path: root->File_path@, size: root->File_size as nat, depth: 0 },
        ],
{
    let one = tree_records(root, 0);
    assert(one.subrange(0, 0) =~= Seq::<Record>::empty());
    assert(keep_within(one, max_depth) =~= one) by {
        reveal_with_fuel(keep_within, 2);
    }
}

proof fn lemma_keep_within_contains(s: Seq<Record>, m: nat, r: Record)
    ensures
        keep_within(s, m).contains(r) <==> (s.contains(r) && r.depth <= m),
    decreases s.len(),
{
    if s.len() > 0 {
        let prefix = s.subrange(0, s.len() - 1);
        let last = s[s.len() - 1];
        lemma_keep_within_contains(prefix, m, r);
        let tail = if last.depth <= m { seq![last] } else { Seq::<Record>::empty() };
        assert(keep_within(s, m) == keep_within(prefix, m) + tail);
        assert(s =~= prefix.push(last));
        if keep_within(s, m).contains(r) {
            let i = choose|i: int| 0 <= i < keep_within(s, m).len() && keep_within(s, m)[i] == r;
            if i < keep_within(prefix, m).len() {
                assert(keep_within(prefix, m)[i] == r);
            } else {
                assert(tail[i - keep_within(prefix, m).len()] == r);
                assert(s[s.len() - 1] == r);
            }
        }
        if s.contains(r) && r.depth <= m {
            let i = choose|i: int| 0 <= i < s.len() && s[i] == r;
            if i < prefix.len() {
                assert(prefix[i] == r);
                let j = choose|j: int|
                    0 <= j < keep_within(prefix, m).len() && keep_within(prefix, m)[j] == r;
                assert(keep_within(s, m)[j] == r);
            } else {
                assert(keep_within(s, m)[keep_within(prefix, m).len() as int] == r);
            }
        }
    }
}

/// Raising the maximum depth by one keeps every record the report held.
pub proof fn depth_filter_monotone(root: FsNode, d: nat)
    ensures
        forall|r: Record|
            usage_records(root, d).contains(r) ==> #[trigger] usage_records(root, d + 1).contains(r),
{
    assert forall|r: Record| usage_records(root, d).contains(r) implies #[trigger] usage_records(
        root,
        d + 1,
    ).contains(r) by {
        lemma_keep_within_contains(tree_records(root, 0), d, r);
        lemma_keep_within_contains(tree_records(root, 0), d + 1, r);
    }
}

/// A directory holding an unreadable subdirectory and a file of `size` bytes
/// totals exactly `size`: the unreadable node adds nothing and yields no record.
pub proof fn unreadable_subtree_counts_nothing(n: FsNode, d: nat)
    requires
        n is Dir,
        n->Dir_children@.len() == 2,
        n->Dir_children@[0] is Unreadable,
        n->Dir_children@[1] is File,
    ensures
        tree_size(n) == n->Dir_children@[1]->File_size,
        tree_records(n, d) == seq![
            Record {
                path: n->Dir_children@[1]->File_path@,
                size: n->Dir_children@[1]->File_size as nat,
                depth: d + 1,
            },
            Record { path: n->Dir_path@, size: tree_size(n), depth: d },
        ],
{
    let s = n->Dir_children@;
    assert(s.subrange(0, 1).subrange(0, 0) =~= Seq::<FsNode>::empty());
    assert(s.subrange(0, 1)[0] == s[0]);
    assert(s.subrange(0, s.len() - 1) =~= s.subrange(0, 1));
    let t = s.subrange(0, 1);
    assert(t.subrange(0, t.len() - 1) =~= Seq::<FsNode>::empty());
    assert(children_records(Seq::<FsNode>::empty(), d + 1) == Seq::<Record>::empty());
    assert(children_size(Seq::<FsNode>::empty()) == 0);
    assert(tree_records(t[0], d + 1) == Seq::<Record>::empty());
    assert(t[0] == s[0]);
    assert(tree_size(t[0]) == 0);
    assert(children_size(t) == 0);
    assert(children_size(s) == children_size(t) + tree_size(s[1]));
    assert(tree_size(n) == children_size(s));
    let one = children_records(t, d + 1);
    assert(one =~= Seq::<Record>::empty());
    assert(children_records(s, d + 1) =~= tree_records(s[1], d + 1));
    assert(tree_records(n, d) =~= children_records(s, d + 1) + seq![
        Record { path: n->Dir_path@, size: children_size(s), depth: d },
    ]);
}

/// The node reached from `n` by following the child indices `idx`, if any.
pub open spec fn descendant(n: FsNode, idx: Seq<int>) -> Option<FsNode>
    decreases idx.len(),
{
    if idx.len() == 0 {
        Some(n)
    } else {
        match n {
            FsNode::Dir { children, .. } => if 0 <= idx[0] < children@.len() {
                descendant(children@[idx[0]], idx.subrange(1, idx.len() as int))
            } else {
                None
            },
            _ => None,
        }
    }
}

/// Whether `a` stands as one contiguous run inside `b`.
pub open spec fn is_block(a: Seq<Record>, b: Seq<Record>) -> bool {
    exists|i: int| 0 <= i && i + a.len() <= b.len() && #[trigger] b.subrange(i, i + a.len()) == a
}

proof fn lemma_block_trans(a: Seq<Record>, b: Seq<Record>, c: Seq<Record>)
    requires
        is_block(a, b),
        is_block(b, c),
    ensures
        is_block(a, c),
{
    let i = choose|i: int| 0 <= i && i + a.len() <= b.len() && #[trigger] b.subrange(i, i + a.len()) == a;
    let j = choose|j: int| 0 <= j && j + b.len() <= c.len() && #[trigger] c.subrange(j, j + b.len()) == b;
    let k = j + i;
    assert(c.subrange(k, k + a.len()) =~= a);
}

proof fn lemma_prefix_block(a: Seq<Record>, b: Seq<Record>)
    ensures
        is_block(a, a + b),
{
    let i: int = 0;
    assert((a + b).subrange(i, i + a.len()) =~= a);
}

proof fn lemma_child_block(s: Seq<FsNode>, e: nat, j: int)
    requires
        0 <= j < s.len(),
    ensures
        is_block(tree_records(s[j], e), children_records(s, e)),
    decreases s.len(),
{
    let prefix = s.subrange(0, s.len() - 1);
    let a = children_records(prefix, e);
    let b = tree_records(s[s.len() - 1], e);
    if j == s.len() - 1 {
        let i = a.len() as int;
        assert((a + b).subrange(i, i + b.len()) =~= b);
    } else {
        lemma_child_block(prefix, e, j);
        assert(prefix[j] == s[j]);
        lemma_prefix_block(a, b);
        lemma_block_trans(tree_records(s[j], e), a, a + b);
    }
}

proof fn lemma_descendant_block(n: FsNode, d: nat, idx: Seq<int>)
    requires
        descendant(n, idx) is Some,
    ensures
        is_block(tree_records(descendant(n, idx)->Some_0, d + idx.len()), tree_records(n, d)),
    decreases idx.len(),
{
    if idx.len() == 0 {
        let t = tree_records(n, d);
        let i: int = 0;
        assert(descendant(n, idx) == Some(n));
        assert(d + idx.len() == d);
        assert(t.subrange(i, i + t.len()) =~= t);
    } else {
        let children = n->Dir_children@;
        let c = children[idx[0]];
        let rest = idx.subrange(1, idx.len() as int);
        lemma_descendant_block(c, d + 1, rest);
        assert(d + 1 + rest.len() == d + idx.len());
        lemma_child_block(children, d + 1, idx[0]);
        lemma_block_trans(
            tree_records(descendant(n, idx)->Some_0, d + idx.len()),
            tree_records(c, d + 1),
            children_records(children, d + 1),
        );
        let own = seq![Record { path: n->Dir_path@, size: children_size(children), depth: d }];
        lemma_prefix_block(children_records(children, d + 1), own);
        lemma_block_trans(
            tree_records(descendant(n, idx)->Some_0, d + idx.len()),
            children_records(children, d + 1),
            tree_records(n, d),
        );
    }
}

/// Every directory inside the tree, reached by the child indices `idx`, has
/// its records as one contiguous run of the traversal of `root`, and the last
/// of them, the directory's own record, carries the sum of the sizes of the
/// records of that run one level below it.
pub proof fn every_directory_sums_its_children(root: FsNode, d: nat, idx: Seq<int>)
    requires
        descendant(root, idx) is Some,
        descendant(root, idx)->Some_0 is Dir,
    ensures
        ({
            let m = descendant(root, idx)->Some_0;
            let run = tree_records(m, d + idx.len());
            &&& is_block(run, tree_records(root, d))
            &&& run.len() > 0
            &&& run.last() == (Record {
                path: m->Dir_path@,
                size: sum_at_depth(run, d + idx.len() + 1),
                depth: d + idx.len(),
            })
        }),
{
    lemma_descendant_block(root, d, idx);
    aggregate_is_sum_of_children(descendant(root, idx)->Some_0, d + idx.len());
}

} // verus!
