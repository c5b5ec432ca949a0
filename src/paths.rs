use vstd::prelude::*;

use crate::network::{is_chain, is_path, path_weight, reachable_within, Link};
use crate::routing::{is_shortest_route, visits_once};

verus! {

/// Sum of the weights of the first `n` links.
pub open spec fn total_weight(links: Seq<Link>, n: int) -> nat
    decreases n,
{
    if n <= 0 {
        0
    } else {
        total_weight(links, n - 1) + links[n - 1].weight as nat
    }
}

proof fn lemma_weight_concat(links: Seq<Link>, a: Seq<usize>, b: Seq<usize>)
    ensures
        path_weight(links, a + b) == path_weight(links, a) + path_weight(links, b),
    decreases b.len(),
{
    if b.len() == 0 {
        assert(a + b =~= a);
    } else {
        assert((a + b).drop_last() =~= a + b.drop_last());
        lemma_weight_concat(links, a, b.drop_last());
    }
}

proof fn lemma_prefix_chain(links: Seq<Link>, q: Seq<usize>, i: int)
    requires
        is_chain(links, q),
        0 <= i <= q.len(),
    ensures
        is_chain(links, q.take(i)),
{
    let q2 = q.take(i);
    assert forall|m: int| 0 <= m < q2.len() - 1 implies links[q2[m] as int].end@ == #[trigger] links[q2[m + 1] as int].start@ by {
        assert(links[q[m] as int].end@ == links[q[m + 1] as int].start@);
    }
}

/// A path that leaves `d` at position `i` can stop there.
proof fn lemma_cut_at_destination(links: Seq<Link>, q: Seq<usize>, s: Seq<char>, d: Seq<char>, i: int) -> (r: Seq<usize>)
    requires
        is_path(links, q, s, d),
        0 <= i < q.len(),
        links[q[i] as int].start@ == d,
    ensures
        is_path(links, r, s, d),
        r.len() < q.len(),
        path_weight(links, r) <= path_weight(links, q),
{
    let q2 = q.take(i);
    lemma_weight_concat(links, q2, q.skip(i));
    assert(q2 + q.skip(i) =~= q);
    if i > 0 {
        let m = i - 1;
        assert(links[q[m] as int].end@ == links[q[m + 1] as int].start@);
    }
    lemma_prefix_chain(links, q, i);
    q2
}

/// A path that leaves the same node at positions `i < k` can skip the loop between.
proof fn lemma_cut_loop(links: Seq<Link>, q: Seq<usize>, s: Seq<char>, d: Seq<char>, i: int, k: int) -> (r: Seq<usize>)
    requires
        is_path(links, q, s, d),
        0 <= i < k < q.len(),
        links[q[i] as int].start@ == links[q[k] as int].start@,
    ensures
        is_path(links, r, s, d),
        r.len() < q.len(),
        path_weight(links, r) <= path_weight(links, q),
{
    let q2 = q.take(i) + q.skip(k);
    lemma_weight_concat(links, q.take(i), q.skip(i));
    lemma_weight_concat(links, q.skip(i).take(k - i), q.skip(k));
    assert(q.take(i) + q.skip(i) =~= q);
    assert(q.skip(i).take(k - i) + q.skip(k) =~= q.skip(i));
    lemma_weight_concat(links, q.take(i), q.skip(k));
    assert(q2[q2.len() - 1] == q[q.len() - 1]);
    assert forall|m: int| 0 <= m < q2.len() - 1 implies links[q2[m] as int].end@ == #[trigger] links[q2[m + 1] as int].start@ by {
        if m + 1 < i {
            assert(links[q[m] as int].end@ == links[q[m + 1] as int].start@);
        } else if m + 1 == i {
            let a = i - 1;
            assert(q2[m] == q[a] && q2[m + 1] == q[k]);
            assert(links[q[a] as int].end@ == links[q[a + 1] as int].start@);
        } else {
            let a = m - i + k;
            assert(q2[m] == q[a] && q2[m + 1] == q[a + 1]);
            assert(links[q[a] as int].end@ == links[q[a + 1] as int].start@);
        }
    }
    assert forall|m: int| 0 <= m < q2.len() implies #[trigger] q2[m] < links.len() by {
        if m < i {
            assert(q2[m] == q[m]);
        } else {
            assert(q2[m] == q[m - i + k]);
        }
    }
    if i == 0 {
        assert(q2[0] == q[k]);
    }
    q2
}

/// Cutting out the loops of a path, and whatever follows an early visit to
/// the destination, gives a path no heavier that passes no node twice.
proof fn lemma_simplify(links: Seq<Link>, q: Seq<usize>, s: Seq<char>, d: Seq<char>) -> (r: Seq<usize>)
    requires
        is_path(links, q, s, d),
    ensures
        is_path(links, r, s, d),
        visits_once(links, r, d),
        path_weight(links, r) <= path_weight(links, q),
    decreases q.len(),
{
    if visits_once(links, q, d) {
        q
    } else if exists|i: int| 0 <= i < q.len() && links[#[trigger] q[i] as int].start@ == d {
        let i = choose|i: int| 0 <= i < q.len() && links[#[trigger] q[i] as int].start@ == d;
        let q2 = lemma_cut_at_destination(links, q, s, d, i);
        lemma_simplify(links, q2, s, d)
    } else {
        let (i, k) = choose|i: int, k: int| 0 <= i < k < q.len()
            && links[#[trigger] q[i] as int].start@ == links[#[trigger] q[k] as int].start@;
        let q2 = lemma_cut_loop(links, q, s, d, i, k);
        lemma_simplify(links, q2, s, d)
    }
}

/// A path whose links are distinct weighs at most the sum of all link weights.
proof fn lemma_distinct_bounded(links: Seq<Link>, q: Seq<usize>, n: int)
    requires
        0 <= n <= links.len(),
        q.no_duplicates(),
        forall|m: int| 0 <= m < q.len() ==> #[trigger] q[m] < n,
    ensures
        path_weight(links, q) <= total_weight(links, n),
    decreases n,
{
    if n > 0 {
        if exists|t: int| 0 <= t < q.len() && q[t] as int == n - 1 {
            let t = choose|t: int| 0 <= t < q.len() && q[t] as int == n - 1;
            let r = q.remove(t);
            lemma_weight_concat(links, q.take(t), q.skip(t));
            assert(q.take(t) + q.skip(t) =~= q);
            assert(q.skip(t) =~= seq![q[t]] + q.skip(t + 1));
            lemma_weight_concat(links, seq![q[t]], q.skip(t + 1));
            assert(seq![q[t]].drop_last() =~= Seq::<usize>::empty());
            let one = seq![q[t]];
            assert(one.len() == 1 && one.last() == q[t]);
            assert(path_weight(links, one.drop_last()) == 0);
            assert(path_weight(links, one) == links[n - 1].weight);
            assert(r =~= q.take(t) + q.skip(t + 1));
            lemma_weight_concat(links, q.take(t), q.skip(t + 1));
            assert forall|m: int| 0 <= m < r.len() implies #[trigger] r[m] < n - 1 by {
                if m < t {
                    assert(r[m] == q[m]);
                } else {
                    assert(r[m] == q[m + 1]);
                }
            }
            assert(r.no_duplicates()) by {
                assert forall|a: int, b: int| 0 <= a < r.len() && 0 <= b < r.len() && a != b implies r[a] != r[b] by {
                    let a2 = if a < t { a } else { a + 1 };
                    let b2 = if b < t { b } else { b + 1 };
                    assert(r[a] == q[a2] && r[b] == q[b2]);
                }
            }
            lemma_distinct_bounded(links, r, n - 1);
        } else {
            assert forall|m: int| 0 <= m < q.len() implies #[trigger] q[m] < n - 1 by {
                assert(q[m] as int != n - 1);
            }
            lemma_distinct_bounded(links, q, n - 1);
        }
    }
}

/// When all link weights together fit in a `usize`, every path's endpoints
/// are joined by a path of representable weight.
pub proof fn lemma_path_within_bound(links: Seq<Link>, q: Seq<usize>, s: Seq<char>, d: Seq<char>)
    requires
        total_weight(links, links.len() as int) <= usize::MAX,
        is_path(links, q, s, d),
    ensures
        reachable_within(links, s, d),
{
    let r = lemma_simplify(links, q, s, d);
    assert(r.no_duplicates()) by {
        assert forall|a: int, b: int| 0 <= a < r.len() && 0 <= b < r.len() && a != b implies r[a] != r[b] by {
            if a < b {
                assert(links[r[a] as int].start@ != links[r[b] as int].start@);
            } else {
                assert(links[r[b] as int].start@ != links[r[a] as int].start@);
            }
        }
    }
    lemma_distinct_bounded(links, r, links.len() as int);
}

/// When all link weights together fit in a `usize`, a shortest-path query
/// between two different nodes answers `None` only if no directed path at
/// all joins them.
pub proof fn lemma_unreachable_means_no_path(
    links: Seq<Link>,
    s: Seq<char>,
    d: Seq<char>,
    r: Option<Vec<usize>>,
    q: Seq<usize>,
)
    requires
        total_weight(links, links.len() as int) <= usize::MAX,
        s != d,
        is_shortest_route(links, s, d, r),
        r is None,
    ensures
        !is_path(links, q, s, d),
{
    if is_path(links, q, s, d) {
        lemma_path_within_bound(links, q, s, d);
    }
}

} // verus!
