//! The order in which `optimize` lays values down: higher usage count first,
//! then shorter value first, then earlier insertion first.
use vstd::prelude::*;

verus! {

/// An entry to be ordered: its insertion index, its usage count and its
/// byte length.
pub type OrderItem = (usize, usize, u32);

/// `(c1, l1, i1)` comes strictly before `(c2, l2, i2)`: a higher count first;
/// on equal counts the shorter value; on equal lengths the earlier index.
pub open spec fn ranks_before(c1: int, l1: int, i1: int, c2: int, l2: int, i2: int) -> bool {
    c1 > c2 || (c1 == c2 && (l1 < l2 || (l1 == l2 && i1 < i2)))
}

pub open spec fn item_before(a: OrderItem, b: OrderItem) -> bool {
    ranks_before(a.1 as int, a.2 as int, a.0 as int, b.1 as int, b.2 as int, b.0 as int)
}

/// `perm` is a permutation of `0 .. n`.
pub open spec fn is_permutation(perm: Seq<int>, n: int) -> bool {
    &&& perm.len() == n
    &&& forall|k: int| 0 <= k < n ==> 0 <= #[trigger] perm[k] < n
    &&& forall|a: int, b: int| 0 <= a < b < n ==> #[trigger] perm[a] != #[trigger] perm[b]
    &&& forall|j: int| 0 <= j < n ==> #[trigger] perm.contains(j)
}

/// The indices `perm[0], perm[1], ...` are in increasing `ranks_before`
/// order, where index `i` ranks by `(counts[i], lens[i], i)`.
pub open spec fn sorted_by_rank(counts: Seq<nat>, lens: Seq<nat>, perm: Seq<int>) -> bool {
    forall|a: int, b: int|
        0 <= a < b < perm.len() ==> ranks_before(
            counts[#[trigger] perm[a]] as int,
            lens[perm[a]] as int,
            perm[a],
            counts[#[trigger] perm[b]] as int,
            lens[perm[b]] as int,
            perm[b],
        )
}

/// There is only one way to put `0 .. n` in rank order: two permutations
/// that are both sorted by rank are the same permutation.
pub proof fn lemma_rank_order_unique(counts: Seq<nat>, lens: Seq<nat>, p: Seq<int>, q: Seq<int>)
    requires
        counts.len() == lens.len(),
        is_permutation(p, counts.len() as int),
        is_permutation(q, counts.len() as int),
        sorted_by_rank(counts, lens, p),
        sorted_by_rank(counts, lens, q),
    ensures
        p == q,
{
    let n = counts.len() as int;
    assert forall|k: int| 0 <= k < n implies p[k] == q[k] by {
        lemma_rank_order_agree_upto(counts, lens, p, q, k);
    }
    assert(p =~= q);
}

proof fn lemma_rank_order_agree_upto(counts: Seq<nat>, lens: Seq<nat>, p: Seq<int>, q: Seq<int>, k: int)
    requires
        counts.len() == lens.len(),
        is_permutation(p, counts.len() as int),
        is_permutation(q, counts.len() as int),
        sorted_by_rank(counts, lens, p),
        sorted_by_rank(counts, lens, q),
        0 <= k < counts.len(),
    ensures
        forall|m: int| 0 <= m <= k ==> p[m] == q[m],
    decreases k,
{
    let n = counts.len() as int;
    if k > 0 {
        lemma_rank_order_agree_upto(counts, lens, p, q, k - 1);
    }
    let x = p[k];
    let y = q[k];
    if x != y {
        assert(p.contains(y));
        assert(q.contains(x));
        let mq = choose|m: int| 0 <= m < q.len() && q[m] == x;
        let mp = choose|m: int| 0 <= m < p.len() && p[m] == y;
        if ranks_before(counts[x] as int, lens[x] as int, x, counts[y] as int, lens[y] as int, y) {
            if mq < k {
                assert(p[mq] == q[mq]);
            } else {
                assert(mq != k);
            }
        } else {
            if mp < k {
                assert(p[mp] == q[mp]);
            } else {
                assert(mp != k);
            }
        }
    }
}

fn goes_before(a: OrderItem, b: OrderItem) -> (r: bool)
    ensures
        r == item_before(a, b),
{
    a.1 > b.1 || (a.1 == b.1 && (a.2 < b.2 || (a.2 == b.2 && a.0 < b.0)))
}

/// Sorts `(index, count, len)` entries, whose indices are their positions,
/// into the order `item_before` (a stable sort by count descending, then
/// length ascending). Returns, as a ghost value, the new position of each
/// index.
pub fn sort_by_frequency(items: &mut Vec<OrderItem>) -> (pos: Ghost<Seq<int>>)
    requires
        forall|k: int| 0 <= k < old(items).len() ==> (#[trigger] old(items)[k]).0 == k,
    ensures
        final(items).len() == old(items).len(),
        pos@.len() == old(items).len(),
        forall|k: int|
            0 <= k < final(items).len() ==> {
                &&& (#[trigger] final(items)[k]).0 < final(items).len()
                &&& final(items)[k] == old(items)[final(items)[k].0 as int]
                &&& pos@[final(items)[k].0 as int] == k
            },
        forall|j: int|
            0 <= j < old(items).len() ==> 0 <= #[trigger] pos@[j] < old(items).len()
                && final(items)[pos@[j]].0 == j,
        forall|a: int, b: int|
            0 <= a < b < final(items).len() ==> item_before(
                #[trigger] final(items)[a],
                #[trigger] final(items)[b],
            ),
{
    let n = items.len();
    let ghost orig = items@;
    let ghost mut pos: Seq<int> = Seq::new(n as nat, |j: int| j);
    let mut i: usize = 1;
    if n == 0 {
        return Ghost(pos);
    }
    while i < n
        invariant
            1 <= i <= n,
            n == items.len(),
            orig.len() == n,
            pos.len() == n,
            forall|k: int| 0 <= k < n ==> (#[trigger] orig[k]).0 == k,
            forall|k: int|
                0 <= k < n ==> {
                    &&& (#[trigger] items[k]).0 < n
                    &&& items[k] == orig[items[k].0 as int]
                    &&& pos[items[k].0 as int] == k
                },
            forall|j: int| 0 <= j < n ==> 0 <= #[trigger] pos[j] < n && items[pos[j]].0 == j,
            forall|a: int, b: int|
                0 <= a < b < i ==> item_before(#[trigger] items[a], #[trigger] items[b]),
        decreases n - i,
    {
        let mut j: usize = i;
        while j > 0 && goes_before(items[j], items[j - 1])
            invariant
                1 <= i < n,
                j <= i,
                n == items.len(),
                orig.len() == n,
                pos.len() == n,
                forall|k: int| 0 <= k < n ==> (#[trigger] orig[k]).0 == k,
                forall|k: int|
                    0 <= k < n ==> {
                        &&& (#[trigger] items[k]).0 < n
                        &&& items[k] == orig[items[k].0 as int]
                        &&& pos[items[k].0 as int] == k
                    },
                forall|jj: int| 0 <= jj < n ==> 0 <= #[trigger] pos[jj] < n && items[pos[jj]].0 == jj,
                forall|a: int, b: int|
                    0 <= a < b <= i && a != j && b != j ==> item_before(
                        #[trigger] items[a],
                        #[trigger] items[b],
                    ),
                forall|b: int| j < b <= i ==> item_before(items[j as int], #[trigger] items[b]),
            decreases j,
        {
            let x = items[j];
            let y = items[j - 1];
            proof {
                let px = x.0 as int;
                let py = y.0 as int;
                pos = pos.update(px, j - 1).update(py, j as int);
            }
            items[j] = y;
            items[j - 1] = x;
            j = j - 1;
        }
        proof {
            if j > 0 {
                assert forall|a: int| 0 <= a < j implies item_before(
                    #[trigger] items[a],
                    items[j as int],
                ) by {
                    assert(items[a].0 != items[j as int].0);
                    if a < j - 1 {
                        assert(item_before(items[a], items[j - 1]));
                    }
                }
            }
        }
        i = i + 1;
    }
    Ghost(pos)
}

} // verus!
