use vstd::prelude::*;
use crate::tree::{views, PathSizeMetadata, Record};

verus! {

/// `s`, taken to be ordered by size, with `x` placed after every record
/// whose size is at most its own.
pub open spec fn insert_by_size(s: Seq<Record>, x: Record) -> Seq<Record>
    decreases s.len(),
{
    if s.len() == 0 || s[s.len() - 1].size <= x.size {
        s.push(x)
    } else {
        insert_by_size(s.subrange(0, s.len() - 1), x).push(s[s.len() - 1])
    }
}

/// `s` ordered by ascending size; records of equal size keep their order.
pub open spec fn sort_by_size(s: Seq<Record>) -> Seq<Record>
    decreases s.len(),
{
    if s.len() == 0 {
        s
    } else {
        insert_by_size(sort_by_size(s.subrange(0, s.len() - 1)), s[s.len() - 1])
    }
}

/// Whether the sizes of `s` never decrease.
pub open spec fn sizes_ascending(s: Seq<Record>) -> bool {
    forall|i: int, j: int| 0 <= i < j < s.len() ==> s[i].size <= s[j].size
}

proof fn lemma_insert_at(s: Seq<Record>, x: Record, p: int)
    requires
        0 <= p <= s.len(),
        forall|i: int| p <= i < s.len() ==> s[i].size > x.size,
        p == 0 || s[p - 1].size <= x.size,
    ensures
        insert_by_size(s, x) == s.insert(p, x),
    decreases s.len(),
{
    if s.len() == 0 {
        assert(s.push(x) =~= s.insert(p, x));
    } else if s[s.len() - 1].size <= x.size {
        assert(s.push(x) =~= s.insert(p, x));
    } else {
        let prefix = s.subrange(0, s.len() - 1);
        lemma_insert_at(prefix, x, p);
        assert(prefix.insert(p, x).push(s[s.len() - 1]) =~= s.insert(p, x));
    }
}

/// Orders `records` by ascending size, keeping the order of equal sizes.
pub fn sort_by_size_stable(records: &Vec<PathSizeMetadata>) -> (r: Vec<PathSizeMetadata>)
    ensures
        views(r@) == sort_by_size(views(records@)),
{
    let mut out: Vec<PathSizeMetadata> = Vec::new();
    let mut i: usize = 0;
    while i < records.len()
        invariant
            0 <= i <= records.len(),
            out.len() == i,
            views(out@) == sort_by_size(views(records@).subrange(0, i as int)),
        decreases records.len() - i,
    {
        let rec = &records[i];
        let mut p: usize = out.len();
        while p > 0 && out[p - 1].size > rec.size
            invariant
                0 <= p <= out.len(),
                forall|j: int| p <= j < out.len() ==> out@[j].size > rec.size,
            decreases p,
        {
            p = p - 1;
        }
        let ghost before = views(out@);
        let ghost x = rec@;
        let ghost upto = views(records@).subrange(0, i as int + 1);
        assert(upto.subrange(0, upto.len() - 1) =~= views(records@).subrange(0, i as int));
        assert(upto[upto.len() - 1] == x);
        proof {
            lemma_insert_at(before, x, p as int);
        }
        out.insert(p, PathSizeMetadata { path: rec.path.clone(), size: rec.size, depth: rec.depth });
        assert(views(out@) =~= before.insert(p as int, x));
        i = i + 1;
    }
    assert(views(records@).subrange(0, i as int) =~= views(records@));
    out
}

proof fn lemma_insert_sorted(s: Seq<Record>, x: Record)
    requires
        sizes_ascending(s),
    ensures
        sizes_ascending(insert_by_size(s, x)),
        insert_by_size(s, x).len() == s.len() + 1,
        forall|i: int|
            0 <= i < s.len() + 1 ==> #[trigger] insert_by_size(s, x)[i] == x || s.contains(
                insert_by_size(s, x)[i],
            ),
    decreases s.len(),
{
    let r = insert_by_size(s, x);
    if s.len() == 0 || s[s.len() - 1].size <= x.size {
        assert forall|i: int| 0 <= i < s.len() + 1 implies #[trigger] r[i] == x || s.contains(
            r[i],
        ) by {
            if i < s.len() {
                assert(r[i] == s[i]);
            }
        }
    } else {
        let prefix = s.subrange(0, s.len() - 1);
        let last = s[s.len() - 1];
        lemma_insert_sorted(prefix, x);
        let q = insert_by_size(prefix, x);
        assert forall|i: int| 0 <= i < q.len() implies q[i].size <= last.size by {
            if q[i] != x {
                assert(prefix.contains(q[i]));
                let j = choose|j: int| 0 <= j < prefix.len() && prefix[j] == q[i];
                assert(s[j] == q[i]);
            }
        }
        assert forall|i: int| 0 <= i < s.len() + 1 implies #[trigger] r[i] == x || s.contains(
            r[i],
        ) by {
            if i < q.len() {
                assert(r[i] == q[i]);
                if q[i] != x {
                    let j = choose|j: int| 0 <= j < prefix.len() && prefix[j] == q[i];
                    assert(s[j] == q[i]);
                }
            } else {
                assert(r[i] == s[s.len() - 1]);
            }
        }
    }
}

/// Ordering by size yields ascending sizes.
pub proof fn sorted_sizes_ascend(s: Seq<Record>)
    ensures
        sizes_ascending(sort_by_size(s)),
        sort_by_size(s).len() == s.len(),
    decreases s.len(),
{
    if s.len() > 0 {
        sorted_sizes_ascend(s.subrange(0, s.len() - 1));
        lemma_insert_sorted(sort_by_size(s.subrange(0, s.len() - 1)), s[s.len() - 1]);
    }
}

/// The records of `s` whose size is `k`, in their order.
pub open spec fn with_size(s: Seq<Record>, k: nat) -> Seq<Record>
    decreases s.len(),
{
    if s.len() == 0 {
        Seq::empty()
    } else {
        let last = s[s.len() - 1];
        with_size(s.subrange(0, s.len() - 1), k) + if last.size == k {
            seq![last]
        } else {
            Seq::empty()
        }
    }
}

proof fn lemma_insert_with_size(s: Seq<Record>, x: Record, k: nat)
    ensures
        with_size(insert_by_size(s, x), k) == with_size(s.push(x), k),
    decreases s.len(),
{
    let sx = s.push(x);
    assert(sx.subrange(0, sx.len() - 1) =~= s);
    if s.len() > 0 && s[s.len() - 1].size > x.size {
        let prefix = s.subrange(0, s.len() - 1);
        let last = s[s.len() - 1];
        lemma_insert_with_size(prefix, x, k);
        let q = insert_by_size(prefix, x);
        let qp = q.push(last);
        assert(qp.subrange(0, qp.len() - 1) =~= q);
        let px = prefix.push(x);
        assert(px.subrange(0, px.len() - 1) =~= prefix);
        let tx = if x.size == k { seq![x] } else { Seq::<Record>::empty() };
        let tl = if last.size == k { seq![last] } else { Seq::<Record>::empty() };
        assert(with_size(qp, k) =~= with_size(prefix, k) + tx + tl);
        assert(with_size(s, k) == with_size(prefix, k) + tl);
        assert(with_size(sx, k) == with_size(s, k) + tx);
        assert(with_size(sx, k) =~= with_size(prefix, k) + tl + tx);
        assert(tx + tl =~= tl + tx);
        assert(with_size(qp, k) =~= with_size(sx, k));
    }
}

/// Ordering by size keeps, for every size, the records of that size in
/// their original order, and drops or adds none.
pub proof fn sort_keeps_equal_sizes_in_order(s: Seq<Record>, k: nat)
    ensures
        with_size(sort_by_size(s), k) == with_size(s, k),
    decreases s.len(),
{
    if s.len() > 0 {
        let prefix = s.subrange(0, s.len() - 1);
        sort_keeps_equal_sizes_in_order(prefix, k);
        lemma_insert_with_size(sort_by_size(prefix), s[s.len() - 1], k);
        let a = sort_by_size(prefix).push(s[s.len() - 1]);
        assert(a.subrange(0, a.len() - 1) =~= sort_by_size(prefix));
        assert(prefix.push(s[s.len() - 1]) =~= s);
    }
}

} // verus!
