//! Ordering the entries of a frequency table by how often they occur.
//!
//! Entries are ranked by descending count. Entries with equal counts keep
//! the order in which the table holds them, which is the order in which
//! their keys were first seen.

use vstd::prelude::*;

verus! {

/// Whether position `a` comes before position `b` in the ranking: the higher
/// count first, and of two equal counts the earlier position first.
pub open spec fn outranks(counts: Seq<nat>, a: int, b: int) -> bool {
    counts[a] > counts[b] || (counts[a] == counts[b] && a < b)
}

/// Whether `order` lists the `n` best of the first `m` positions of `counts`
/// (all of them if there are fewer than `n`), best first.
pub open spec fn ranks_first(counts: Seq<nat>, m: int, n: int, order: Seq<usize>) -> bool {
    &&& order.len() == if n <= m { n } else { m }
    &&& forall|i: int| 0 <= i < order.len() ==> (#[trigger] order[i]) < m
    &&& forall|i: int, j: int|
        0 <= i < j < order.len() ==> outranks(
            counts,
            #[trigger] order[i] as int,
            #[trigger] order[j] as int,
        )
    &&& forall|i: int, k: usize|
        #![trigger order[i], order.contains(k)]
        0 <= i < order.len() && k < m && !order.contains(k) ==> outranks(
            counts,
            order[i] as int,
            k as int,
        )
}

/// Whether `order` lists the positions of the `n` highest counts (all
/// positions if there are fewer than `n`), best first.
pub open spec fn is_ranking(counts: Seq<nat>, n: int, order: Seq<usize>) -> bool {
    ranks_first(counts, counts.len() as int, n, order)
}

/// The positions of the `n` highest counts, best first.
pub open spec fn ranking(counts: Seq<nat>, n: int) -> Seq<usize> {
    choose|order: Seq<usize>| is_ranking(counts, n, order)
}

/// Two rankings of the same counts agree up to and including position `upto`.
proof fn lemma_rankings_agree(
    counts: Seq<nat>,
    m: int,
    n: int,
    a: Seq<usize>,
    b: Seq<usize>,
    upto: int,
)
    requires
        0 <= m <= counts.len(),
        0 <= n,
        ranks_first(counts, m, n, a),
        ranks_first(counts, m, n, b),
        0 <= upto < a.len(),
    ensures
        forall|i: int| 0 <= i <= upto ==> a[i] == b[i],
    decreases upto,
{
    if upto > 0 {
        lemma_rankings_agree(counts, m, n, a, b, upto - 1);
    }
    if a[upto] != b[upto] {
        lemma_first_difference(counts, m, n, a, b, upto);
        lemma_first_difference(counts, m, n, b, a, upto);
    }
}

/// Where two rankings agree before position `at` and differ there, the entry
/// of the first outranks that of the second.
proof fn lemma_first_difference(
    counts: Seq<nat>,
    m: int,
    n: int,
    a: Seq<usize>,
    b: Seq<usize>,
    at: int,
)
    requires
        ranks_first(counts, m, n, a),
        ranks_first(counts, m, n, b),
        0 <= at < a.len(),
        forall|i: int| 0 <= i < at ==> a[i] == b[i],
        a[at] != b[at],
    ensures
        outranks(counts, a[at] as int, b[at] as int),
{
    let x = b[at];
    if a.contains(x) {
        let j = choose|j: int| 0 <= j < a.len() && a[j] == x;
        if j < at {
            assert(b[j] == a[j]);
            assert(outranks(counts, b[j] as int, b[at] as int));
        } else {
            assert(outranks(counts, a[at] as int, a[j] as int));
        }
    } else {
        assert(a[at] == a[at] && !a.contains(x));
    }
}

/// Counts have one ranking only.
pub proof fn lemma_ranking_unique(counts: Seq<nat>, n: int, a: Seq<usize>, b: Seq<usize>)
    requires
        0 <= n,
        is_ranking(counts, n, a),
        is_ranking(counts, n, b),
    ensures
        a == b,
{
    if a.len() > 0 {
        lemma_rankings_agree(counts, counts.len() as int, n, a, b, a.len() - 1);
    }
    assert(a =~= b);
}

/// A ranking never lists more than `n` positions, nor more positions than
/// there are counts, and lists no position twice.
pub proof fn lemma_ranking_bounds(counts: Seq<nat>, n: int, order: Seq<usize>)
    requires
        0 <= n,
        is_ranking(counts, n, order),
    ensures
        order.len() <= n,
        order.len() <= counts.len(),
        order.no_duplicates(),
{
    assert forall|i: int, j: int|
        0 <= i < order.len() && 0 <= j < order.len() && i != j implies order[i] != order[j] by {
        if i < j {
            assert(outranks(counts, order[i] as int, order[j] as int));
        } else {
            assert(outranks(counts, order[j] as int, order[i] as int));
        }
    }
}

/// What becomes of a ranking of the first `k` positions when position `k`
/// joins them: it enters before the first entry with a lower count, and the
/// last entry leaves if the ranking was full.
proof fn lemma_rank_step(counts: Seq<nat>, k: int, n: int, old_order: Seq<usize>, p: int)
    requires
        0 <= k < counts.len(),
        k <= usize::MAX,
        0 <= n,
        ranks_first(counts, k, n, old_order),
        old_order.len() < n ==> forall|j: usize| j < k ==> old_order.contains(j),
        0 <= p <= old_order.len(),
        forall|i: int| 0 <= i < p ==> counts[old_order[i] as int] >= counts[k],
        p < old_order.len() ==> counts[old_order[p] as int] < counts[k],
    ensures
        ranks_first(counts, k + 1, n, next_order(old_order, k, n, p)),
        next_order(old_order, k, n, p).len() < n ==> forall|j: usize|
            j < k + 1 ==> next_order(old_order, k, n, p).contains(j),
{
    let len = old_order.len() as int;
    let new_order = next_order(old_order, k, n, p);
    if p >= n {
        assert(new_order == old_order);
        assert forall|i: int, j: usize|
            #![trigger new_order[i], new_order.contains(j)]
            0 <= i < new_order.len() && j < k + 1 && !new_order.contains(j) implies outranks(
            counts,
            new_order[i] as int,
            j as int,
        ) by {
            if j < k {
                assert(!old_order.contains(j));
            }
        }
    } else {
        let grown = old_order.insert(p, k as usize);
        assert(grown.len() == len + 1);
        assert(grown[p] == k as usize);
        assert forall|i: int| 0 <= i < p implies grown[i] == old_order[i] by {}
        assert forall|i: int| p < i <= len implies grown[i] == old_order[i - 1] by {}
        // every old entry from `p` on has a lower count than the newcomer
        assert forall|i: int| p <= i < len implies counts[old_order[i] as int] < counts[k] by {
            if i > p {
                assert(outranks(counts, old_order[p] as int, old_order[i] as int));
            }
        }
        assert forall|i: int, j: int| 0 <= i < j < grown.len() implies outranks(
            counts,
            #[trigger] grown[i] as int,
            #[trigger] grown[j] as int,
        ) by {
            if j < p {
                assert(outranks(counts, old_order[i] as int, old_order[j] as int));
            } else if j == p {
            } else if i < p {
                assert(outranks(counts, old_order[i] as int, old_order[j - 1] as int));
            } else if i == p {
            } else {
                assert(outranks(counts, old_order[i - 1] as int, old_order[j - 1] as int));
            }
        }
        assert forall|j: usize| old_order.contains(j) implies grown.contains(j) by {
            let i = choose|i: int| 0 <= i < len && old_order[i] == j;
            if i < p {
                assert(grown[i] == j);
            } else {
                assert(grown[i + 1] == j);
            }
        }
        assert(grown.contains(k as usize));
        if len + 1 > n {
            assert(len == n);
            assert(new_order =~= grown.take(n));
            let dropped = old_order[len - 1];
            assert(grown[len] == dropped);
            assert forall|i: int| 0 <= i < new_order.len() implies new_order[i] == grown[i] by {}
            assert forall|j: usize| grown.contains(j) && j != dropped implies new_order.contains(
                j,
            ) by {
                let i = choose|i: int| 0 <= i < grown.len() && grown[i] == j;
                if i == len {
                } else {
                    assert(new_order[i] == j);
                }
            }
            assert forall|i: int, j: usize|
                #![trigger new_order[i], new_order.contains(j)]
                0 <= i < new_order.len() && j < k + 1 && !new_order.contains(j) implies outranks(
                counts,
                new_order[i] as int,
                j as int,
            ) by {
                if j == dropped {
                    assert(outranks(counts, grown[i] as int, grown[len] as int));
                } else {
                    assert(!grown.contains(j));
                    assert(!old_order.contains(j));
                    assert(j != k);
                    // the newcomer outranks what the old ranking had left out
                    assert(outranks(counts, old_order[p] as int, j as int));
                    if i < p {
                        assert(outranks(counts, old_order[i] as int, j as int));
                    } else if i == p {
                    } else {
                        assert(outranks(counts, old_order[i - 1] as int, j as int));
                    }
                }
            }
        } else {
            assert(new_order == grown);
            assert forall|j: usize| j < k + 1 implies new_order.contains(j) by {
                if j < k {
                    assert(old_order.contains(j));
                }
            }
        }
    }
}

/// The ranking after position `k` has been offered at place `p`.
spec fn next_order(old_order: Seq<usize>, k: int, n: int, p: int) -> Seq<usize> {
    if p >= n {
        old_order
    } else if old_order.len() + 1 > n {
        old_order.insert(p, k as usize).drop_last()
    } else {
        old_order.insert(p, k as usize)
    }
}

/// The place at which a position with count `count` enters a ranking: behind
/// every entry whose count is at least as high.
spec fn entry_place(counts: Seq<nat>, order: Seq<usize>, count: nat) -> int
    decreases order.len(),
{
    if order.len() == 0 {
        0
    } else if counts[order.last() as int] >= count {
        order.len() as int
    } else {
        entry_place(counts, order.drop_last(), count)
    }
}

/// In a ranking, the entries before the place of entry have counts at least
/// as high as the newcomer, and the entry at that place has a lower one.
proof fn lemma_entry_place(counts: Seq<nat>, order: Seq<usize>, count: nat)
    requires
        forall|i: int, j: int|
            0 <= i < j < order.len() ==> outranks(
                counts,
                #[trigger] order[i] as int,
                #[trigger] order[j] as int,
            ),
    ensures
        0 <= entry_place(counts, order, count) <= order.len(),
        forall|i: int|
            0 <= i < entry_place(counts, order, count) ==> counts[order[i] as int] >= count,
        entry_place(counts, order, count) < order.len() ==> counts[order[entry_place(
            counts,
            order,
            count,
        )] as int] < count,
    decreases order.len(),
{
    if order.len() > 0 {
        let last = order.len() - 1;
        if counts[order[last] as int] >= count {
            assert forall|i: int| 0 <= i < order.len() implies counts[order[i] as int]
                >= count by {
                if i < last {
                    assert(outranks(counts, order[i] as int, order[last] as int));
                }
            }
        } else {
            let shorter = order.drop_last();
            assert forall|i: int, j: int| 0 <= i < j < shorter.len() implies outranks(
                counts,
                #[trigger] shorter[i] as int,
                #[trigger] shorter[j] as int,
            ) by {
                assert(outranks(counts, order[i] as int, order[j] as int));
            }
            lemma_entry_place(counts, shorter, count);
            let p = entry_place(counts, shorter, count);
            assert forall|i: int| 0 <= i < p implies counts[order[i] as int] >= count by {
                assert(shorter[i] == order[i]);
            }
            if p < shorter.len() {
                assert(shorter[p] == order[p]);
            }
        }
    }
}

/// The ranking of the first `m` positions, built by letting them enter one
/// after the other.
spec fn built_ranking(counts: Seq<nat>, m: nat, n: int) -> Seq<usize>
    decreases m,
{
    if m == 0 {
        Seq::<usize>::empty()
    } else {
        let before = built_ranking(counts, (m - 1) as nat, n);
        next_order(before, m - 1, n, entry_place(counts, before, counts[m - 1]))
    }
}

/// What `built_ranking` builds is the ranking of the first `m` positions.
proof fn lemma_built_ranking(counts: Seq<nat>, m: nat, n: int)
    requires
        m <= counts.len(),
        m <= usize::MAX,
        0 <= n,
    ensures
        ranks_first(counts, m as int, n, built_ranking(counts, m, n)),
        built_ranking(counts, m, n).len() < n ==> forall|j: usize|
            j < m ==> built_ranking(counts, m, n).contains(j),
    decreases m,
{
    if m > 0 {
        let before = built_ranking(counts, (m - 1) as nat, n);
        lemma_built_ranking(counts, (m - 1) as nat, n);
        lemma_entry_place(counts, before, counts[m - 1]);
        lemma_rank_step(counts, m - 1, n, before, entry_place(counts, before, counts[m - 1]));
    }
}

/// Counts have a ranking, and `ranking` is it.
pub proof fn lemma_ranking_exists(counts: Seq<nat>, n: int)
    requires
        0 <= n,
        counts.len() <= usize::MAX,
    ensures
        is_ranking(counts, n, ranking(counts, n)),
{
    lemma_built_ranking(counts, counts.len(), n);
    assert(is_ranking(counts, n, built_ranking(counts, counts.len(), n)));
}

/// Counts as natural numbers.
pub open spec fn as_nats(counts: Seq<usize>) -> Seq<nat> {
    Seq::new(counts.len(), |i: int| counts[i] as nat)
}

/// The positions of the `n` highest counts, best first; among equal counts
/// the earlier position comes first. Fewer than `n` positions are returned
/// only if there are fewer than `n` counts.
pub fn rank(counts: &Vec<usize>, n: usize) -> (order: Vec<usize>)
    ensures
        is_ranking(as_nats(counts@), n as int, order@),
        order@ == ranking(as_nats(counts@), n as int),
        order.len() <= n,
        order.len() <= counts.len(),
{
    let ghost nats = as_nats(counts@);
    let mut order: Vec<usize> = Vec::new();
    let mut k: usize = 0;
    while k < counts.len()
        invariant
            k <= counts.len(),
            nats == as_nats(counts@),
            ranks_first(nats, k as int, n as int, order@),
            order.len() < n ==> forall|j: usize| j < k ==> order@.contains(j),
        decreases counts.len() - k,
    {
        let mut p: usize = 0;
        while p < order.len()
            invariant
                k < counts.len(),
                nats == as_nats(counts@),
                p <= order.len(),
                forall|i: int| 0 <= i < order.len() ==> (#[trigger] order@[i]) < k,
                forall|i: int| 0 <= i < p ==> nats[order@[i] as int] >= nats[k as int],
            ensures
                p <= order.len(),
                forall|i: int| 0 <= i < p ==> nats[order@[i] as int] >= nats[k as int],
                p < order.len() ==> nats[order@[p as int] as int] < nats[k as int],
            decreases order.len() - p,
        {
            if counts[order[p]] < counts[k] {
                break ;
            }
            p = p + 1;
        }
        proof {
            lemma_rank_step(nats, k as int, n as int, order@, p as int);
        }
        if p < n {
            order.insert(p, k);
            if order.len() > n {
                order.pop();
            }
        }
        k = k + 1;
    }
    proof {
        let witness = order@;
        assert(is_ranking(nats, n as int, witness));
        lemma_ranking_unique(nats, n as int, order@, ranking(nats, n as int));
    }
    order
}

} // verus!
