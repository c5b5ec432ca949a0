use vstd::prelude::*;

use crate::network::{Link, Network, NetworkError, TrafficDemand};
use crate::routing::{dijkstra, is_shortest_route};

verus! {

/// Volume that one route carrying `vol` puts on link `l` (once per traversal).
pub open spec fn route_load(p: Seq<usize>, vol: nat, l: int) -> nat
    decreases p.len(),
{
    if p.len() == 0 {
        0
    } else {
        route_load(p.drop_last(), vol, l) + if p.last() == l { vol } else { 0nat }
    }
}

/// Volume on link `l` from the first `k` demands; unrouted demands add nothing.
pub open spec fn routed_load(routes: Seq<Option<Vec<usize>>>, demands: Seq<TrafficDemand>, k: int, l: int) -> nat
    decreases k,
{
    if k <= 0 {
        0
    } else {
        routed_load(routes, demands, k - 1, l) + match routes[k - 1] {
            Some(p) => route_load(p@, demands[k - 1].demand as nat, l),
            None => 0nat,
        }
    }
}

/// Total volume routed over link `l` by all demands.
pub open spec fn utilization_of(routes: Seq<Option<Vec<usize>>>, demands: Seq<TrafficDemand>, l: int) -> nat {
    routed_load(routes, demands, demands.len() as int, l)
}

/// Every link id on every route is below `n`.
pub open spec fn routes_within(routes: Seq<Option<Vec<usize>>>, n: nat) -> bool {
    forall|i: int, m: int|
        0 <= i < routes.len() && routes[i] is Some && 0 <= m < routes[i].unwrap()@.len()
            ==> #[trigger] routes[i].unwrap()@[m] < n
}

/// `routes[i]` is a shortest route for demand `i`, for every demand.
pub open spec fn are_shortest_routes(links: Seq<Link>, demands: Seq<TrafficDemand>, routes: Seq<Option<Vec<usize>>>) -> bool {
    &&& routes.len() == demands.len()
    &&& forall|i: int| 0 <= i < demands.len() ==> is_shortest_route(
        links, #[trigger] demands[i].source@, demands[i].destination@, routes[i])
}

/// The routes of the demands and the per-link utilization they produce.
#[derive(Debug)]
pub struct TrafficModel {
    pub routes: Vec<Option<Vec<usize>>>,
    pub utilization: Vec<usize>,
}

proof fn lemma_route_load_prefix(p: Seq<usize>, vol: nat, l: int, m: int)
    requires
        0 <= m <= p.len(),
    ensures
        route_load(p.take(m), vol, l) <= route_load(p, vol, l),
    decreases p.len() - m,
{
    if m < p.len() {
        assert(p.take(m + 1).drop_last() =~= p.take(m));
        lemma_route_load_prefix(p, vol, l, m + 1);
    } else {
        assert(p.take(m) =~= p);
    }
}

proof fn lemma_routed_load_monotone(
    routes: Seq<Option<Vec<usize>>>,
    demands: Seq<TrafficDemand>,
    k: int,
    n: int,
    l: int,
)
    requires
        0 <= k <= n,
    ensures
        routed_load(routes, demands, k, l) <= routed_load(routes, demands, n, l),
    decreases n - k,
{
    if k < n {
        lemma_routed_load_monotone(routes, demands, k, n - 1, l);
    }
}

/// Per-link sum of the volumes of the routed demands, over `n_links` links;
/// `None` when some link's total does not fit in a `usize`.
pub fn aggregate_utilization(
    n_links: usize,
    demands: &[TrafficDemand],
    routes: &Vec<Option<Vec<usize>>>,
) -> (r: Option<Vec<usize>>)
    requires
        routes@.len() == demands@.len(),
        routes_within(routes@, n_links as nat),
    ensures
        r is Some <==> forall|l: int| 0 <= l < n_links ==> #[trigger] utilization_of(routes@, demands@, l) <= usize::MAX,
        r matches Some(u) ==> u@.len() == n_links
            && forall|l: int| 0 <= l < n_links ==> #[trigger] u@[l] == utilization_of(routes@, demands@, l),
{
    let mut util: Vec<usize> = Vec::new();
    let mut l: usize = 0;
    while l < n_links
        invariant
            l <= n_links,
            util@.len() == l,
            forall|x: int| 0 <= x < l ==> #[trigger] util@[x] == 0,
        decreases n_links - l,
    {
        util.push(0);
        l = l + 1;
    }
    let mut i: usize = 0;
    while i < demands.len()
        invariant
            routes@.len() == demands@.len(),
            routes_within(routes@, n_links as nat),
            i <= demands@.len(),
            util@.len() == n_links,
            forall|x: int| 0 <= x < n_links ==> #[trigger] util@[x] == routed_load(routes@, demands@, i as int, x),
        decreases demands@.len() - i,
    {
        let vol = demands[i].demand;
        match &routes[i] {
            None => {},
            Some(p) => {
                let mut m: usize = 0;
                while m < p.len()
                    invariant
                        routes@.len() == demands@.len(),
                        routes_within(routes@, n_links as nat),
                        i < demands@.len(),
                        routes@[i as int] == Some(*p),
                        vol == demands@[i as int].demand,
                        m <= p@.len(),
                        util@.len() == n_links,
                        forall|x: int| 0 <= x < n_links ==> #[trigger] util@[x]
                            == routed_load(routes@, demands@, i as int, x) + route_load(p@.take(m as int), vol as nat, x),
                    decreases p@.len() - m,
                {
                    let x = p[m];
                    assert(routes@[i as int].unwrap()@[m as int] < n_links);
                    assert(p@.take(m + 1).drop_last() =~= p@.take(m as int));
                    match util[x].checked_add(vol) {
                        Some(t) => {
                            util.set(x, t);
                        },
                        None => {
                            proof {
                                lemma_route_load_prefix(p@, vol as nat, x as int, m + 1);
                                lemma_routed_load_monotone(routes@, demands@, i + 1, demands@.len() as int, x as int);
                                assert(utilization_of(routes@, demands@, x as int) > usize::MAX);
                            }
                            return None;
                        },
                    }
                    m = m + 1;
                }
                assert(p@.take(m as int) =~= p@);
            },
        }
        i = i + 1;
    }
    assert forall|l: int| 0 <= l < n_links implies #[trigger] utilization_of(routes@, demands@, l) <= usize::MAX by {
        assert(util@[l] == utilization_of(routes@, demands@, l));
    }
    Some(util)
}

/// Routes every demand along a shortest path, in input order.
pub fn route_demands(network: &Network, demands: &[TrafficDemand]) -> (r: Vec<Option<Vec<usize>>>)
    ensures
        are_shortest_routes(network.links@, demands@, r@),
{
    let mut routes: Vec<Option<Vec<usize>>> = Vec::new();
    let mut i: usize = 0;
    while i < demands.len()
        invariant
            i <= demands@.len(),
            routes@.len() == i,
            forall|k: int| 0 <= k < i ==> is_shortest_route(
                network.links@, #[trigger] demands@[k].source@, demands@[k].destination@, routes@[k]),
        decreases demands@.len() - i,
    {
        let d = &demands[i];
        let r = dijkstra(network, d.source.as_str(), d.destination.as_str());
        routes.push(r);
        i = i + 1;
    }
    routes
}

/// The rows of the utilization report: `(link id, volume)` for each link with
/// non-zero volume, in ascending link id.
pub open spec fn nonzero_rows(u: Seq<usize>) -> Seq<(usize, usize)>
    decreases u.len(),
{
    if u.len() == 0 {
        Seq::empty()
    } else if u.last() == 0 {
        nonzero_rows(u.drop_last())
    } else {
        nonzero_rows(u.drop_last()).push(((u.len() - 1) as usize, u.last()))
    }
}

/// Routes every demand and sums the routed volume per link.
pub fn model_traffic(network: &Network, traffic_demands: &[TrafficDemand]) -> (r: Result<TrafficModel, NetworkError>)
    ensures
        match r {
            Ok(m) => {
                &&& are_shortest_routes(network.links@, traffic_demands@, m.routes@)
                &&& m.utilization@.len() == network.links@.len()
                &&& forall|l: int| 0 <= l < network.links@.len() ==>
                    #[trigger] m.utilization@[l] == utilization_of(m.routes@, traffic_demands@, l)
            },
            Err(e) => {
                &&& e is UtilizationOverflow
                &&& exists|routes: Seq<Option<Vec<usize>>>|
                    #[trigger] are_shortest_routes(network.links@, traffic_demands@, routes)
                    && exists|l: int| 0 <= l < network.links@.len() && #[trigger] utilization_of(routes, traffic_demands@, l) > usize::MAX
            },
        },
{
    let routes = route_demands(network, traffic_demands);
    assert(routes_within(routes@, network.links@.len())) by {
        assert forall|i: int, m: int|
            0 <= i < routes@.len() && routes@[i] is Some && 0 <= m < routes@[i].unwrap()@.len()
                implies #[trigger] routes@[i].unwrap()@[m] < network.links@.len() by {
            assert(is_shortest_route(network.links@, traffic_demands@[i].source@, traffic_demands@[i].destination@, routes@[i]));
        }
    }
    match aggregate_utilization(network.links.len(), traffic_demands, &routes) {
        Some(utilization) => Ok(TrafficModel { routes, utilization }),
        None => Err(NetworkError::UtilizationOverflow),
    }
}

/// The rows of the utilization report for per-link volumes `u`.
pub fn utilization_rows(u: &Vec<usize>) -> (r: Vec<(usize, usize)>)
    ensures
        r@ == nonzero_rows(u@),
{
    let mut rows: Vec<(usize, usize)> = Vec::new();
    let mut l: usize = 0;
    while l < u.len()
        invariant
            l <= u@.len(),
            rows@ == nonzero_rows(u@.take(l as int)),
        decreases u@.len() - l,
    {
        assert(u@.take(l + 1).drop_last() =~= u@.take(l as int));
        if u[l] != 0 {
            rows.push((l, u[l]));
        }
        l = l + 1;
    }
    assert(u@.take(l as int) =~= u@);
    rows
}

/// `f(0) + f(1) + ... + f(n - 1)`.
pub open spec fn sum_below(f: spec_fn(int) -> nat, n: int) -> nat
    decreases n,
{
    if n <= 0 {
        0
    } else {
        sum_below(f, n - 1) + f(n - 1)
    }
}

/// Sum, over the demands that were routed, of route length times volume.
pub open spec fn routed_volume(routes: Seq<Option<Vec<usize>>>, demands: Seq<TrafficDemand>, k: int) -> nat
    decreases k,
{
    if k <= 0 {
        0
    } else {
        routed_volume(routes, demands, k - 1) + match routes[k - 1] {
            Some(p) => p@.len() * demands[k - 1].demand as nat,
            None => 0nat,
        }
    }
}

proof fn lemma_sum_congruent(f: spec_fn(int) -> nat, g: spec_fn(int) -> nat, n: int)
    requires
        forall|l: int| 0 <= l < n ==> #[trigger] f(l) == g(l),
    ensures
        sum_below(f, n) == sum_below(g, n),
    decreases n,
{
    if n > 0 {
        lemma_sum_congruent(f, g, n - 1);
    }
}

proof fn lemma_sum_split(f: spec_fn(int) -> nat, g: spec_fn(int) -> nat, h: spec_fn(int) -> nat, n: int)
    requires
        forall|l: int| 0 <= l < n ==> #[trigger] h(l) == f(l) + g(l),
    ensures
        sum_below(h, n) == sum_below(f, n) + sum_below(g, n),
    decreases n,
{
    if n > 0 {
        lemma_sum_split(f, g, h, n - 1);
    }
}

proof fn lemma_sum_point(x: int, vol: nat, n: int)
    requires
        0 <= n,
    ensures
        sum_below(|l: int| if l == x { vol } else { 0nat }, n) == if 0 <= x < n { vol } else { 0nat },
    decreases n,
{
    if n > 0 {
        lemma_sum_point(x, vol, n - 1);
    }
}

proof fn lemma_route_load_sum(p: Seq<usize>, vol: nat, n: int)
    requires
        0 <= n,
        forall|m: int| 0 <= m < p.len() ==> #[trigger] p[m] < n,
    ensures
        sum_below(|l: int| route_load(p, vol, l), n) == p.len() * vol,
    decreases p.len(),
{
    if p.len() == 0 {
        lemma_sum_congruent(|l: int| route_load(p, vol, l), |l: int| 0nat, n);
        lemma_sum_point(-1, 0, n);
        assert(sum_below(|l: int| 0nat, n) == 0) by {
            lemma_sum_congruent(|l: int| 0nat, |l: int| if l == -1 { 0nat } else { 0nat }, n);
        }
    } else {
        let q = p.drop_last();
        let x = p.last() as int;
        assert forall|m: int| 0 <= m < q.len() implies #[trigger] q[m] < n by {
            assert(q[m] == p[m]);
        }
        lemma_route_load_sum(q, vol, n);
        lemma_sum_split(
            |l: int| route_load(q, vol, l),
            |l: int| if l == x { vol } else { 0nat },
            |l: int| route_load(p, vol, l),
            n,
        );
        lemma_sum_point(x, vol, n);
        assert(p.len() * vol == q.len() * vol + vol) by (nonlinear_arith)
            requires p.len() == q.len() + 1;
    }
}

/// The utilization of all links together equals, summed over the routed
/// demands, the length of the demand's route times its volume.
pub proof fn lemma_utilization_conservation(routes: Seq<Option<Vec<usize>>>, demands: Seq<TrafficDemand>, n: nat)
    requires
        routes.len() == demands.len(),
        routes_within(routes, n),
    ensures
        sum_below(|l: int| utilization_of(routes, demands, l), n as int) == routed_volume(routes, demands, demands.len() as int),
{
    lemma_load_sum(routes, demands, demands.len() as int, n);
    lemma_sum_congruent(
        |l: int| utilization_of(routes, demands, l),
        |l: int| routed_load(routes, demands, demands.len() as int, l),
        n as int,
    );
}

proof fn lemma_load_sum(routes: Seq<Option<Vec<usize>>>, demands: Seq<TrafficDemand>, k: int, n: nat)
    requires
        routes.len() == demands.len(),
        0 <= k <= demands.len(),
        routes_within(routes, n),
    ensures
        sum_below(|l: int| routed_load(routes, demands, k, l), n as int) == routed_volume(routes, demands, k),
    decreases k,
{
    if k == 0 {
        lemma_sum_congruent(|l: int| routed_load(routes, demands, 0, l), |l: int| if l == -1 { 0nat } else { 0nat }, n as int);
        lemma_sum_point(-1, 0, n as int);
    } else {
        lemma_load_sum(routes, demands, k - 1, n);
        match routes[k - 1] {
            Some(p) => {
                let vol = demands[k - 1].demand as nat;
                assert forall|m: int| 0 <= m < p@.len() implies #[trigger] p@[m] < n by {
                    assert(routes[k - 1].unwrap()@[m] < n);
                }
                lemma_route_load_sum(p@, vol, n as int);
                lemma_sum_split(
                    |l: int| routed_load(routes, demands, k - 1, l),
                    |l: int| route_load(p@, vol, l),
                    |l: int| routed_load(routes, demands, k, l),
                    n as int,
                );
            },
            None => {
                lemma_sum_congruent(
                    |l: int| routed_load(routes, demands, k, l),
                    |l: int| routed_load(routes, demands, k - 1, l),
                    n as int,
                );
            },
        }
    }
}

/// Links that carry no volume give no report rows.
pub proof fn lemma_zero_volumes_no_rows(u: Seq<usize>)
    requires
        forall|l: int| 0 <= l < u.len() ==> #[trigger] u[l] == 0,
    ensures
        nonzero_rows(u) == Seq::<(usize, usize)>::empty(),
    decreases u.len(),
{
    if u.len() > 0 {
        lemma_zero_volumes_no_rows(u.drop_last());
    }
}

/// With no demands, no link carries volume.
pub proof fn lemma_no_demands_no_volume(routes: Seq<Option<Vec<usize>>>, demands: Seq<TrafficDemand>, l: int)
    requires
        demands.len() == 0,
    ensures
        utilization_of(routes, demands, l) == 0,
{
}

/// A demand that is not routed adds nothing to any link.
pub proof fn lemma_unrouted_adds_nothing(routes: Seq<Option<Vec<usize>>>, demands: Seq<TrafficDemand>, k: int, l: int)
    requires
        1 <= k <= routes.len(),
        routes[k - 1] is None,
    ensures
        routed_load(routes, demands, k, l) == routed_load(routes, demands, k - 1, l),
{
}

/// An empty route adds nothing to any link.
pub proof fn lemma_empty_route_adds_nothing(routes: Seq<Option<Vec<usize>>>, demands: Seq<TrafficDemand>, k: int, l: int)
    requires
        1 <= k <= routes.len(),
        routes[k - 1] matches Some(p) && p@.len() == 0,
    ensures
        routed_load(routes, demands, k, l) == routed_load(routes, demands, k - 1, l),
{
}

/// The route carries nothing: the demand was not routed, or its route is empty.
pub open spec fn carries_nothing(r: Option<Vec<usize>>) -> bool {
    match r {
        Some(p) => p@.len() == 0,
        None => true,
    }
}

proof fn lemma_remove_silent_prefix(
    routes: Seq<Option<Vec<usize>>>,
    demands: Seq<TrafficDemand>,
    i: int,
    k: int,
    l: int,
)
    requires
        routes.len() == demands.len(),
        0 <= i < routes.len(),
        carries_nothing(routes[i]),
        0 <= k <= routes.len(),
    ensures
        k <= i ==> routed_load(routes, demands, k, l) == routed_load(routes.remove(i), demands.remove(i), k, l),
        k > i ==> routed_load(routes, demands, k, l) == routed_load(routes.remove(i), demands.remove(i), k - 1, l),
    decreases k,
{
    if k > 0 {
        lemma_remove_silent_prefix(routes, demands, i, k - 1, l);
        if k - 1 < i {
            assert(routes.remove(i)[k - 1] == routes[k - 1]);
            assert(demands.remove(i)[k - 1] == demands[k - 1]);
        } else if k - 1 > i {
            assert(routes.remove(i)[k - 2] == routes[k - 1]);
            assert(demands.remove(i)[k - 2] == demands[k - 1]);
        }
    }
}

/// A demand whose route carries nothing (unreachable, or from a node to
/// itself) can be removed: the remaining routes still serve the remaining
/// demands, and every link keeps its utilization.
pub proof fn lemma_silent_demand_removable(
    links: Seq<Link>,
    routes: Seq<Option<Vec<usize>>>,
    demands: Seq<TrafficDemand>,
    i: int,
    l: int,
)
    requires
        are_shortest_routes(links, demands, routes),
        0 <= i < demands.len(),
        carries_nothing(routes[i]),
    ensures
        are_shortest_routes(links, demands.remove(i), routes.remove(i)),
        utilization_of(routes, demands, l) == utilization_of(routes.remove(i), demands.remove(i), l),
{
    lemma_remove_silent_prefix(routes, demands, i, demands.len() as int, l);
    let ds = demands.remove(i);
    let rs = routes.remove(i);
    assert forall|k: int| 0 <= k < ds.len() implies is_shortest_route(
        links, #[trigger] ds[k].source@, ds[k].destination@, rs[k]) by {
        if k < i {
            assert(ds[k] == demands[k] && rs[k] == routes[k]);
            assert(is_shortest_route(links, demands[k].source@, demands[k].destination@, routes[k]));
        } else {
            assert(ds[k] == demands[k + 1] && rs[k] == routes[k + 1]);
            assert(is_shortest_route(links, demands[k + 1].source@, demands[k + 1].destination@, routes[k + 1]));
        }
    }
}

} // verus!
