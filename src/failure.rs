use vstd::prelude::*;

use crate::network::{Link, Network, TrafficDemand};

verus! {

/// The demand starts or ends at an endpoint of the link.
pub open spec fn touches(link: Link, d: TrafficDemand) -> bool {
    ||| d.source@ == link.start@
    ||| d.source@ == link.end@
    ||| d.destination@ == link.start@
    ||| d.destination@ == link.end@
}

/// Pairs `(l, d)` for link `l` and each of the first `k` demands that touches it.
pub open spec fn link_failures(links: Seq<Link>, demands: Seq<TrafficDemand>, l: int, k: int) -> Seq<(usize, usize)>
    decreases k,
{
    if k <= 0 {
        Seq::empty()
    } else if touches(links[l], demands[k - 1]) {
        link_failures(links, demands, l, k - 1).push((l as usize, (k - 1) as usize))
    } else {
        link_failures(links, demands, l, k - 1)
    }
}

/// The failure report over the first `n` links: links outer, demands inner, in input order.
pub open spec fn failure_pairs(links: Seq<Link>, demands: Seq<TrafficDemand>, n: int) -> Seq<(usize, usize)>
    decreases n,
{
    if n <= 0 {
        Seq::empty()
    } else {
        failure_pairs(links, demands, n - 1) + link_failures(links, demands, n - 1, demands.len() as int)
    }
}

/// For each link, in order, the indices of the demands whose source or
/// destination is one of the link's endpoints: the demands that the failure
/// of that link may affect. Each entry is `(link id, demand index)`.
pub fn worst_case_failure(network: &Network, traffic_demands: &[TrafficDemand]) -> (r: Vec<(usize, usize)>)
    ensures
        r@ == failure_pairs(network.links@, traffic_demands@, network.links@.len() as int),
{
    let links = &network.links;
    let mut report: Vec<(usize, usize)> = Vec::new();
    let mut l: usize = 0;
    while l < links.len()
        invariant
            l <= links@.len(),
            report@ == failure_pairs(links@, traffic_demands@, l as int),
        decreases links@.len() - l,
    {
        let link = &links[l];
        let ghost before = report@;
        let mut k: usize = 0;
        while k < traffic_demands.len()
            invariant
                l < links@.len(),
                link == links@[l as int],
                k <= traffic_demands@.len(),
                report@ == before + link_failures(links@, traffic_demands@, l as int, k as int),
            decreases traffic_demands@.len() - k,
        {
            let d = &traffic_demands[k];
            if d.source == link.start || d.source == link.end || d.destination == link.start
                || d.destination == link.end {
                report.push((l, k));
                assert(report@ =~= before + link_failures(links@, traffic_demands@, l as int, k + 1));
            }
            k = k + 1;
        }
        l = l + 1;
    }
    report
}

proof fn lemma_link_failures_member(links: Seq<Link>, demands: Seq<TrafficDemand>, l: int, k: int, a: int, b: int)
    requires
        0 <= l < links.len(),
        0 <= l <= usize::MAX,
        0 <= k <= demands.len(),
        demands.len() <= usize::MAX,
        0 <= a <= usize::MAX,
        0 <= b <= usize::MAX,
    ensures
        link_failures(links, demands, l, k).contains((a as usize, b as usize))
            <==> a == l && 0 <= b < k && touches(links[l], demands[b]),
    decreases k,
{
    if k > 0 {
        lemma_link_failures_member(links, demands, l, k - 1, a, b);
        let prev = link_failures(links, demands, l, k - 1);
        if touches(links[l], demands[k - 1]) {
            let cur = prev.push((l as usize, (k - 1) as usize));
            if cur.contains((a as usize, b as usize)) {
                let i = choose|i: int| 0 <= i < cur.len() && cur[i] == (a as usize, b as usize);
                if i < prev.len() {
                    assert(prev.contains((a as usize, b as usize)));
                }
            }
            if a == l && b == k - 1 {
                assert(cur[prev.len() as int] == (a as usize, b as usize));
            }
            if prev.contains((a as usize, b as usize)) {
                let i = choose|i: int| 0 <= i < prev.len() && prev[i] == (a as usize, b as usize);
                assert(cur[i] == prev[i]);
            }
        }
    }
}

/// A link and a demand appear together in the failure report exactly when the
/// demand's source or destination is one of the link's endpoints.
pub proof fn lemma_failure_report_complete(links: Seq<Link>, demands: Seq<TrafficDemand>, l: int, d: int)
    requires
        links.len() <= usize::MAX,
        demands.len() <= usize::MAX,
        0 <= l < links.len(),
        0 <= d < demands.len(),
    ensures
        failure_pairs(links, demands, links.len() as int).contains((l as usize, d as usize))
            <==> touches(links[l], demands[d]),
{
    lemma_failure_pairs_member(links, demands, links.len() as int, l, d);
}

proof fn lemma_failure_pairs_member(links: Seq<Link>, demands: Seq<TrafficDemand>, n: int, a: int, b: int)
    requires
        0 <= n <= links.len(),
        links.len() <= usize::MAX,
        demands.len() <= usize::MAX,
        0 <= a <= usize::MAX,
        0 <= b <= usize::MAX,
    ensures
        failure_pairs(links, demands, n).contains((a as usize, b as usize))
            <==> 0 <= a < n && 0 <= b < demands.len() && touches(links[a], demands[b]),
    decreases n,
{
    if n > 0 {
        lemma_failure_pairs_member(links, demands, n - 1, a, b);
        lemma_link_failures_member(links, demands, n - 1, demands.len() as int, a, b);
        let x = failure_pairs(links, demands, n - 1);
        let y = link_failures(links, demands, n - 1, demands.len() as int);
        let p = (a as usize, b as usize);
        if (x + y).contains(p) {
            let i = choose|i: int| 0 <= i < (x + y).len() && (x + y)[i] == p;
            if i < x.len() {
                assert(x.contains(p));
            } else {
                assert(y[i - x.len()] == p);
                assert(y.contains(p));
            }
        }
        if x.contains(p) {
            let i = choose|i: int| 0 <= i < x.len() && x[i] == p;
            assert((x + y)[i] == p);
        }
        if y.contains(p) {
            let i = choose|i: int| 0 <= i < y.len() && y[i] == p;
            assert((x + y)[x.len() + i] == p);
        }
    }
}

/// With no demands, the failure report is empty.
pub proof fn lemma_no_demands_no_failures(links: Seq<Link>, demands: Seq<TrafficDemand>, n: int)
    requires
        demands.len() == 0,
    ensures
        failure_pairs(links, demands, n) == Seq::<(usize, usize)>::empty(),
    decreases n,
{
    if n > 0 {
        lemma_no_demands_no_failures(links, demands, n - 1);
        assert(failure_pairs(links, demands, n) =~= Seq::<(usize, usize)>::empty());
    }
}

/// With no links, the failure report is empty.
pub proof fn lemma_no_links_no_failures(demands: Seq<TrafficDemand>)
    ensures
        failure_pairs(Seq::<Link>::empty(), demands, 0) == Seq::<(usize, usize)>::empty(),
{
}

} // verus!
