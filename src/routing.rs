use vstd::prelude::*;

use crate::network::{is_chain, is_path, path_weight, reachable_within, Link, Network, State};

verus! {

/// `r` is what a shortest-path query from `s` to `d` may answer: a path of least
/// weight that passes no node twice (the empty one when `s == d` and the node
/// is in the graph), or `None` exactly when there is no such path.
pub open spec fn is_shortest_route(
    links: Seq<Link>,
    s: Seq<char>,
    d: Seq<char>,
    r: Option<Vec<usize>>,
) -> bool {
    match r {
        Some(p) => {
            &&& is_path(links, p@, s, d)
            &&& path_weight(links, p@) <= usize::MAX
            &&& s == d ==> p@.len() == 0 && in_graph(links, s)
            &&& visits_once(links, p@, d)
            &&& uses_preferred_links(links, p@)
            &&& forall|q: Seq<usize>|
                is_path(links, q, s, d) && path_weight(links, q) <= usize::MAX
                    ==> path_weight(links, p@) <= #[trigger] path_weight(links, q)
        },
        None => if s == d {
            !in_graph(links, s)
        } else {
            !reachable_within(links, s, d)
        },
    }
}

/// Some link starts or ends at node `n`.
pub open spec fn in_graph(links: Seq<Link>, n: Seq<char>) -> bool {
    exists|i: int| 0 <= i < links.len() && ((#[trigger] links[i]).start@ == n || links[i].end@ == n)
}

/// No two links of `p` leave the same node, and none leaves `d`: the path
/// passes no node twice.
pub open spec fn visits_once(links: Seq<Link>, p: Seq<usize>, d: Seq<char>) -> bool {
    &&& forall|i: int, k: int| 0 <= i < k < p.len() ==>
        links[#[trigger] p[i] as int].start@ != links[#[trigger] p[k] as int].start@
    &&& forall|i: int| 0 <= i < p.len() ==> links[#[trigger] p[i] as int].start@ != d
}

/// In index form: the links of `p` leave distinct nodes, none of them `m`.
spec fn simple_to(st: Seq<usize>, p: Seq<usize>, m: int) -> bool {
    &&& forall|i: int, k: int| 0 <= i < k < p.len() ==> st[#[trigger] p[i] as int] != st[#[trigger] p[k] as int]
    &&& forall|i: int| 0 <= i < p.len() ==> st[#[trigger] p[i] as int] != m
}

/// Whether some link starts or ends at `name`.
fn occurs(links: &Vec<Link>, name: &String) -> (r: bool)
    ensures
        r == in_graph(links@, name@),
{
    let mut i: usize = 0;
    while i < links.len()
        invariant
            i <= links@.len(),
            forall|k: int| 0 <= k < i ==> !((#[trigger] links@[k]).start@ == name@ || links@[k].end@ == name@),
        decreases links@.len() - i,
    {
        if links[i].start == *name || links[i].end == *name {
            assert(links@[i as int].start@ == name@ || links@[i as int].end@ == name@);
            return true;
        }
        i = i + 1;
    }
    false
}

/// No two entries of the node table carry the same name.
spec fn distinct_names(nodes: Seq<String>) -> bool {
    forall|i: int, j: int|
        0 <= i < nodes.len() && 0 <= j < nodes.len() && i != j ==> nodes[i]@ != nodes[j]@
}

/// `st[j]` and `en[j]` are the node-table indices of the start and end of link `j`.
spec fn indexes_ends(links: Seq<Link>, nodes: Seq<String>, st: Seq<usize>, en: Seq<usize>) -> bool {
    &&& st.len() == links.len()
    &&& en.len() == links.len()
    &&& forall|j: int| 0 <= j < links.len() ==> #[trigger] st[j] < nodes.len() && nodes[st[j] as int]@ == links[j].start@
    &&& forall|j: int| 0 <= j < links.len() ==> #[trigger] en[j] < nodes.len() && nodes[en[j] as int]@ == links[j].end@
}

/// Link `j` cannot shorten the distance recorded for its end any further.
spec fn relaxed(links: Seq<Link>, st: Seq<usize>, en: Seq<usize>, dist: Seq<Option<usize>>, j: int) -> bool {
    dist[st[j] as int] is Some ==> (
        dist[st[j] as int].unwrap() + links[j].weight > usize::MAX
        || (dist[en[j] as int] is Some
            && dist[en[j] as int].unwrap() <= dist[st[j] as int].unwrap() + links[j].weight))
}

/// Links `a` and `b` join the same two nodes in the same direction.
pub open spec fn parallel(links: Seq<Link>, a: int, b: int) -> bool {
    links[a].start@ == links[b].start@ && links[a].end@ == links[b].end@
}

/// Of two parallel links, `a` is chosen over `b`: it is lighter, or as light and not later.
pub open spec fn preferred(links: Seq<Link>, a: int, b: int) -> bool {
    links[a].weight < links[b].weight || (links[a].weight == links[b].weight && a <= b)
}

/// Each link of `p` is preferred over every link parallel to it.
pub open spec fn uses_preferred_links(links: Seq<Link>, p: Seq<usize>) -> bool {
    forall|i: int, alt: int|
        0 <= i < p.len() && 0 <= alt < links.len() && #[trigger] parallel(links, p[i] as int, alt)
            ==> preferred(links, p[i] as int, alt)
}

/// As `uses_preferred_links`, except that a link leaving node `u` need only
/// be preferred over the parallel links below `j`.
spec fn preferred_below(links: Seq<Link>, st: Seq<usize>, p: Seq<usize>, u: int, j: int) -> bool {
    forall|i: int, alt: int|
        0 <= i < p.len() && 0 <= alt < links.len() && #[trigger] parallel(links, p[i] as int, alt)
            && (st[p[i] as int] != u || alt < j) ==> preferred(links, p[i] as int, alt)
}

/// Every link of `p` leaves a settled node.
spec fn starts_settled(st: Seq<usize>, settled: Seq<bool>, p: Seq<usize>) -> bool {
    forall|i: int| 0 <= i < p.len() ==> settled[st[#[trigger] p[i] as int] as int]
}

/// A link of `p` that leaves `u` is its last, comes before `j`, ends at `m`,
/// and `dm` is `du` plus its weight.
spec fn leaves_current_last(
    links: Seq<Link>,
    st: Seq<usize>,
    en: Seq<usize>,
    p: Seq<usize>,
    m: int,
    u: int,
    j: int,
    du: int,
    dm: int,
) -> bool {
    forall|i: int| 0 <= i < p.len() && st[#[trigger] p[i] as int] == u ==> {
        &&& i == p.len() - 1
        &&& p[i] < j
        &&& en[p[i] as int] == m
        &&& dm == du + links[p[i] as int].weight
    }
}

proof fn lemma_parallel_indexes(
    links: Seq<Link>,
    nodes: Seq<String>,
    st: Seq<usize>,
    en: Seq<usize>,
    a: int,
    b: int,
)
    requires
        indexes_ends(links, nodes, st, en),
        distinct_names(nodes),
        0 <= a < links.len(),
        0 <= b < links.len(),
        parallel(links, a, b),
    ensures
        st[a] == st[b],
        en[a] == en[b],
{
    assert(nodes[st[a] as int]@ == nodes[st[b] as int]@);
    assert(nodes[en[a] as int]@ == nodes[en[b] as int]@);
}

/// Number of nodes not yet settled.
spec fn count_unsettled(s: Seq<bool>) -> nat
    decreases s.len(),
{
    if s.len() == 0 {
        0
    } else {
        count_unsettled(s.drop_last()) + if s.last() { 0nat } else { 1nat }
    }
}

proof fn lemma_settle_one(s: Seq<bool>, i: int)
    requires
        0 <= i < s.len(),
        !s[i],
    ensures
        count_unsettled(s.update(i, true)) + 1 == count_unsettled(s),
    decreases s.len(),
{
    let t = s.update(i, true);
    if i == s.len() - 1 {
        assert(t.drop_last() =~= s.drop_last());
    } else {
        assert(t.drop_last() =~= s.drop_last().update(i, true));
        lemma_settle_one(s.drop_last(), i);
    }
}

proof fn lemma_path_push(links: Seq<Link>, p: Seq<usize>, j: usize, s: Seq<char>)
    requires
        j < links.len(),
        is_path(links, p, s, links[j as int].start@),
    ensures
        is_path(links, p.push(j), s, links[j as int].end@),
        path_weight(links, p.push(j)) == path_weight(links, p) + links[j as int].weight,
{
    assert(p.push(j).drop_last() =~= p);
    let q = p.push(j);
    assert forall|i: int| 0 <= i < q.len() - 1 implies links[q[i] as int].end@ == #[trigger] links[q[i + 1] as int].start@ by {
        if i < p.len() - 1 {
            assert(links[p[i] as int].end@ == links[p[i + 1] as int].start@);
        }
    }
}

/// Once every reached node has relaxed its outgoing links, the recorded
/// distance of a node is at most the weight of any path to it.
proof fn lemma_fixed_point_bound(
    links: Seq<Link>,
    nodes: Seq<String>,
    st: Seq<usize>,
    en: Seq<usize>,
    dist: Seq<Option<usize>>,
    si: int,
    q: Seq<usize>,
    s: Seq<char>,
    t: Seq<char>,
)
    requires
        indexes_ends(links, nodes, st, en),
        distinct_names(nodes),
        dist.len() == nodes.len(),
        0 <= si < nodes.len(),
        nodes[si]@ == s,
        dist[si] == Some(0usize),
        forall|j: int| 0 <= j < links.len() ==> #[trigger] relaxed(links, st, en, dist, j),
        is_path(links, q, s, t),
        path_weight(links, q) <= usize::MAX,
    ensures
        forall|k: int| 0 <= k < nodes.len() && nodes[k]@ == t ==>
            dist[k] is Some && dist[k].unwrap() <= path_weight(links, q),
    decreases q.len(),
{
    if q.len() > 0 {
        let j = q.last() as int;
        let q0 = q.drop_last();
        let u = links[j].start@;
        assert(is_chain(links, q0)) by {
            assert forall|i: int| 0 <= i < q0.len() - 1 implies links[q0[i] as int].end@ == #[trigger] links[q0[i + 1] as int].start@ by {
                assert(links[q[i] as int].end@ == links[q[i + 1] as int].start@);
            }
        }
        if q0.len() > 0 {
            let i = q0.len() - 1;
            assert(links[q[i] as int].end@ == links[q[i + 1] as int].start@);
        }
        lemma_fixed_point_bound(links, nodes, st, en, dist, si, q0, s, u);
        assert(relaxed(links, st, en, dist, j));
        assert(nodes[st[j] as int]@ == u);
        assert forall|k: int| 0 <= k < nodes.len() && nodes[k]@ == t implies
            dist[k] is Some && dist[k].unwrap() <= path_weight(links, q) by {
            assert(nodes[en[j] as int]@ == t);
            assert(k == en[j] as int);
        }
    } else {
        assert forall|k: int| 0 <= k < nodes.len() && nodes[k]@ == t implies
            dist[k] is Some && dist[k].unwrap() <= path_weight(links, q) by {
            assert(k == si);
        }
    }
}

/// Index of `name` in the node table, appending it when it is new.
fn intern(nodes: &mut Vec<String>, name: &String) -> (k: usize)
    requires
        distinct_names(old(nodes)@),
    ensures
        distinct_names(final(nodes)@),
        k < final(nodes)@.len(),
        final(nodes)@[k as int]@ == name@,
        final(nodes)@.len() >= old(nodes)@.len(),
        forall|i: int| 0 <= i < old(nodes)@.len() ==> #[trigger] final(nodes)@[i] == old(nodes)@[i],
{
    let mut i: usize = 0;
    while i < nodes.len()
        invariant
            nodes@ == old(nodes)@,
            distinct_names(nodes@),
            i <= nodes@.len(),
            forall|m: int| 0 <= m < i ==> #[trigger] nodes@[m]@ != name@,
        decreases nodes@.len() - i,
    {
        if nodes[i] == *name {
            return i;
        }
        i = i + 1;
    }
    nodes.push(name.clone());
    i
}

/// The unsettled node of least recorded distance, if any unsettled node is reached.
fn select_min(dist: &Vec<Option<usize>>, settled: &Vec<bool>) -> (r: Option<State>)
    requires
        dist@.len() == settled@.len(),
    ensures
        match r {
            None => forall|k: int| 0 <= k < dist@.len() && !settled@[k] ==> #[trigger] dist@[k] is None,
            Some(m) => {
                &&& m.node < dist@.len()
                &&& !settled@[m.node as int]
                &&& dist@[m.node as int] == Some(m.cost)
                &&& forall|k: int| 0 <= k < dist@.len() && !settled@[k] && (#[trigger] dist@[k]) is Some
                    ==> m.cost <= dist@[k].unwrap()
            },
        },
{
    let mut best: Option<State> = None;
    let mut k: usize = 0;
    while k < dist.len()
        invariant
            k <= dist@.len(),
            dist@.len() == settled@.len(),
            match best {
                None => forall|i: int| 0 <= i < k && !settled@[i] ==> #[trigger] dist@[i] is None,
                Some(m) => {
                    &&& m.node < k
                    &&& !settled@[m.node as int]
                    &&& dist@[m.node as int] == Some(m.cost)
                    &&& forall|i: int| 0 <= i < k && !settled@[i] && (#[trigger] dist@[i]) is Some
                        ==> m.cost <= dist@[i].unwrap()
                },
            },
        decreases dist@.len() - k,
    {
        if !settled[k] {
            if let Some(c) = dist[k] {
                let better = match best {
                    None => true,
                    Some(m) => c < m.cost,
                };
                if better {
                    best = Some(State { node: k, cost: c });
                }
            }
        }
        k = k + 1;
    }
    best
}

/// Least-weight directed path from `source` to `destination`, as link ids in
/// path order; `None` when the destination cannot be reached.
///
/// Node names are interned to dense indices; the reached nodes are then
/// settled one at a time in order of recorded distance, each relaxing its
/// outgoing links in input order, until no reached node is left unsettled.
pub fn dijkstra(network: &Network, source: &str, destination: &str) -> (r: Option<Vec<usize>>)
    ensures
        is_shortest_route(network.links@, source@, destination@, r),
{
    let links = &network.links;
    let source_name = source.to_owned();
    let destination_name = destination.to_owned();
    if source_name == destination_name {
        if occurs(links, &source_name) {
            let empty: Vec<usize> = Vec::new();
            assert(path_weight(links@, empty@) == 0);
            return Some(empty);
        }
        return None;
    }
    let n_links = links.len();
    let mut nodes: Vec<String> = Vec::new();
    let mut st: Vec<usize> = Vec::new();
    let mut en: Vec<usize> = Vec::new();
    let mut i: usize = 0;
    while i < n_links
        invariant
            n_links == links@.len(),
            i <= n_links,
            distinct_names(nodes@),
            indexes_ends(links@.take(i as int), nodes@, st@, en@),
        decreases n_links - i,
    {
        let a = intern(&mut nodes, &links[i].start);
        let b = intern(&mut nodes, &links[i].end);
        st.push(a);
        en.push(b);
        i = i + 1;
        assert forall|j: int| 0 <= j < i - 1 implies #[trigger] st@[j] < nodes@.len()
            && nodes@[st@[j] as int]@ == links@.take(i as int)[j].start@ by {
            assert(links@.take(i as int)[j] == links@.take(i - 1)[j]);
        }
        assert forall|j: int| 0 <= j < i - 1 implies #[trigger] en@[j] < nodes@.len()
            && nodes@[en@[j] as int]@ == links@.take(i as int)[j].end@ by {
            assert(links@.take(i as int)[j] == links@.take(i - 1)[j]);
        }
    }
    assert(links@.take(n_links as int) =~= links@);
    let si = intern(&mut nodes, &source_name);
    let di = intern(&mut nodes, &destination_name);
    let nn = nodes.len();
    let mut dist: Vec<Option<usize>> = Vec::new();
    let mut paths: Vec<Vec<usize>> = Vec::new();
    let mut settled: Vec<bool> = Vec::new();
    let mut k: usize = 0;
    while k < nn
        invariant
            k <= nn,
            dist@.len() == k,
            paths@.len() == k,
            settled@.len() == k,
            forall|m: int| 0 <= m < k ==> #[trigger] dist@[m] is None && !settled@[m] && paths@[m]@.len() == 0,
        decreases nn - k,
    {
        dist.push(None);
        paths.push(Vec::new());
        settled.push(false);
        k = k + 1;
    }
    assert(dist@[si as int] is None);
    dist.set(si, Some(0));
    assert(path_weight(links@, paths@[si as int]@) == 0);
    loop
        invariant
            n_links == links@.len(),
            nn == nodes@.len(),
            si < nn,
            di < nn,
            nodes@[si as int]@ == source@,
            nodes@[di as int]@ == destination@,
            distinct_names(nodes@),
            indexes_ends(links@, nodes@, st@, en@),
            dist@.len() == nn,
            paths@.len() == nn,
            settled@.len() == nn,
            dist@[si as int] == Some(0usize),
            forall|m: int| 0 <= m < nn && (#[trigger] dist@[m]) is Some ==>
                is_path(links@, paths@[m]@, source@, nodes@[m]@)
                && path_weight(links@, paths@[m]@) == dist@[m].unwrap(),
            forall|m: int| 0 <= m < nn && #[trigger] settled@[m] ==> dist@[m] is Some,
            forall|x: int, y: int| 0 <= x < nn && 0 <= y < nn && #[trigger] settled@[x] && !#[trigger] settled@[y]
                && dist@[y] is Some ==> dist@[x].unwrap() <= dist@[y].unwrap(),
            forall|j: int| 0 <= j < n_links && #[trigger] settled@[st@[j] as int] ==> relaxed(links@, st@, en@, dist@, j),
            forall|m: int| 0 <= m < nn && (#[trigger] dist@[m]) is Some ==>
                starts_settled(st@, settled@, paths@[m]@) && uses_preferred_links(links@, paths@[m]@)
                && simple_to(st@, paths@[m]@, m),
        ensures
            forall|m: int| 0 <= m < nn && !settled@[m] ==> #[trigger] dist@[m] is None,
        decreases count_unsettled(settled@),
    {
        let sel = select_min(&dist, &settled);
        let (u, du) = match sel {
            None => break,
            Some(m) => (m.node, m.cost),
        };
        proof {
            lemma_settle_one(settled@, u as int);
        }
        let ghost s0 = settled@;
        let ghost pu = paths@[u as int]@;
        settled.set(u, true);
        assert forall|m: int| 0 <= m < nn && (#[trigger] dist@[m]) is Some implies
            starts_settled(st@, settled@, paths@[m]@)
            && preferred_below(links@, st@, paths@[m]@, u as int, 0)
            && leaves_current_last(links@, st@, en@, paths@[m]@, m, u as int, 0, du as int, dist@[m].unwrap() as int) by {
            let p = paths@[m]@;
            assert(starts_settled(st@, s0, p));
            assert forall|i: int| 0 <= i < p.len() implies settled@[st@[#[trigger] p[i] as int] as int] by {
                assert(s0[st@[p[i] as int] as int]);
            }
            assert forall|i: int| 0 <= i < p.len() implies st@[#[trigger] p[i] as int] != u by {
                assert(s0[st@[p[i] as int] as int]);
            }
        }
        let mut j: usize = 0;
        while j < n_links
            invariant
                n_links == links@.len(),
                nn == nodes@.len(),
                si < nn,
                u < nn,
                j <= n_links,
                indexes_ends(links@, nodes@, st@, en@),
                distinct_names(nodes@),
                dist@.len() == nn,
                paths@.len() == nn,
                settled@.len() == nn,
                settled@[u as int],
                dist@[u as int] == Some(du),
                dist@[si as int] == Some(0usize),
                forall|m: int| 0 <= m < nn && (#[trigger] dist@[m]) is Some ==>
                    is_path(links@, paths@[m]@, source@, nodes@[m]@)
                    && path_weight(links@, paths@[m]@) == dist@[m].unwrap(),
                forall|m: int| 0 <= m < nn && #[trigger] settled@[m] ==> dist@[m] is Some,
                forall|m: int| 0 <= m < nn && #[trigger] settled@[m] ==> dist@[m].unwrap() <= du,
                forall|y: int| 0 <= y < nn && !#[trigger] settled@[y] && dist@[y] is Some ==> du <= dist@[y].unwrap(),
                forall|j0: int| 0 <= j0 < n_links && #[trigger] settled@[st@[j0] as int]
                    && (st@[j0] != u || j0 < j) ==> relaxed(links@, st@, en@, dist@, j0),
                pu == paths@[u as int]@,
                forall|i: int| 0 <= i < pu.len() ==> st@[#[trigger] pu[i] as int] != u,
                forall|m: int| 0 <= m < nn && (#[trigger] dist@[m]) is Some ==>
                    starts_settled(st@, settled@, paths@[m]@)
                    && preferred_below(links@, st@, paths@[m]@, u as int, j as int)
                    && leaves_current_last(links@, st@, en@, paths@[m]@, m, u as int, j as int, du as int, dist@[m].unwrap() as int)
                    && simple_to(st@, paths@[m]@, m),
            decreases n_links - j,
        {
            if st[j] == u {
                let v = en[j];
                let ghost d0 = dist@;
                let ghost p0 = paths@;
                let cand = du.checked_add(links[j].weight);
                let better = match cand {
                    None => false,
                    Some(c) => match dist[v] {
                        None => true,
                        Some(dv) => c < dv,
                    },
                };
                if better {
                    let c = cand.unwrap();
                    let mut p = paths[u].clone();
                    assert(p@ =~= paths@[u as int]@);
                    proof {
                        lemma_path_push(links@, p@, j, source@);
                    }
                    p.push(j);
                    dist.set(v, Some(c));
                    paths.set(v, p);
                    assert forall|j0: int| 0 <= j0 < n_links && #[trigger] settled@[st@[j0] as int]
                        && (st@[j0] != u || j0 < j) implies relaxed(links@, st@, en@, dist@, j0) by {
                        assert(relaxed(links@, st@, en@, d0, j0));
                    }
                    assert forall|m: int| 0 <= m < nn && (#[trigger] dist@[m]) is Some implies
                        starts_settled(st@, settled@, paths@[m]@)
                        && preferred_below(links@, st@, paths@[m]@, u as int, j + 1)
                        && leaves_current_last(links@, st@, en@, paths@[m]@, m, u as int, j + 1, du as int, dist@[m].unwrap() as int) by {
                        let q = paths@[m]@;
                        if m == v {
                            assert(d0[u as int] is Some);
                            assert(q == pu.push(j));
                            assert(simple_to(st@, pu, u as int));
                            assert(starts_settled(st@, settled@, pu));
                            assert(!settled@[v as int]);
                            assert forall|i: int, k: int| 0 <= i < k < q.len() implies
                                st@[#[trigger] q[i] as int] != st@[#[trigger] q[k] as int] by {
                                assert(q[i] == pu[i]);
                                if k < pu.len() {
                                    assert(q[k] == pu[k]);
                                }
                            }
                            assert forall|i: int| 0 <= i < q.len() implies st@[#[trigger] q[i] as int] != m by {
                                if i < pu.len() {
                                    assert(q[i] == pu[i]);
                                    assert(settled@[st@[pu[i] as int] as int]);
                                }
                            }
                            assert forall|i: int| 0 <= i < q.len() implies settled@[st@[#[trigger] q[i] as int] as int] by {
                                if i < pu.len() {
                                    assert(pu[i] == q[i]);
                                }
                            }
                            assert forall|i: int, alt: int|
                                0 <= i < q.len() && 0 <= alt < links@.len() && #[trigger] parallel(links@, q[i] as int, alt)
                                    && (st@[q[i] as int] != u || alt < j + 1) implies preferred(links@, q[i] as int, alt) by {
                                if i < pu.len() {
                                    assert(pu[i] == q[i]);
                                    assert(st@[pu[i] as int] != u);
                                    assert(parallel(links@, pu[i] as int, alt));
                                } else if alt < j {
                                    lemma_parallel_indexes(links@, nodes@, st@, en@, j as int, alt);
                                    assert(relaxed(links@, st@, en@, d0, alt));
                                }
                            }
                            assert forall|i: int| 0 <= i < q.len() && st@[#[trigger] q[i] as int] == u implies {
                                &&& i == q.len() - 1
                                &&& q[i] < j + 1
                                &&& en@[q[i] as int] == m
                                &&& dist@[m].unwrap() as int == du as int + links@[q[i] as int].weight
                            } by {
                                if i < pu.len() {
                                    assert(pu[i] == q[i]);
                                }
                            }
                        } else {
                            assert(q == p0[m]@);
                            assert(d0[m] is Some);
                            assert forall|i: int, alt: int|
                                0 <= i < q.len() && 0 <= alt < links@.len() && #[trigger] parallel(links@, q[i] as int, alt)
                                    && (st@[q[i] as int] != u || alt < j + 1) implies preferred(links@, q[i] as int, alt) by {
                                if alt == j && st@[q[i] as int] == u {
                                    assert(is_chain(links@, q));
                                    lemma_parallel_indexes(links@, nodes@, st@, en@, q[i] as int, alt);
                                }
                            }
                        }
                    }
                } else {
                    assert forall|m: int| 0 <= m < nn && (#[trigger] dist@[m]) is Some implies
                        preferred_below(links@, st@, paths@[m]@, u as int, j + 1) by {
                        let q = paths@[m]@;
                        assert forall|i: int, alt: int|
                            0 <= i < q.len() && 0 <= alt < links@.len() && #[trigger] parallel(links@, q[i] as int, alt)
                                && (st@[q[i] as int] != u || alt < j + 1) implies preferred(links@, q[i] as int, alt) by {
                            if alt == j && st@[q[i] as int] == u {
                                assert(is_chain(links@, q));
                                lemma_parallel_indexes(links@, nodes@, st@, en@, q[i] as int, alt);
                            }
                        }
                    }
                }
            } else {
                assert forall|m: int| 0 <= m < nn && (#[trigger] dist@[m]) is Some implies
                    preferred_below(links@, st@, paths@[m]@, u as int, j + 1) by {
                    let q = paths@[m]@;
                    assert forall|i: int, alt: int|
                        0 <= i < q.len() && 0 <= alt < links@.len() && #[trigger] parallel(links@, q[i] as int, alt)
                            && (st@[q[i] as int] != u || alt < j + 1) implies preferred(links@, q[i] as int, alt) by {
                        if alt == j && st@[q[i] as int] == u {
                            assert(is_chain(links@, q));
                            lemma_parallel_indexes(links@, nodes@, st@, en@, q[i] as int, alt);
                        }
                    }
                }
            }
            j = j + 1;
        }
        assert forall|m: int| 0 <= m < nn && (#[trigger] dist@[m]) is Some implies
            uses_preferred_links(links@, paths@[m]@) by {
            let q = paths@[m]@;
            assert forall|i: int, alt: int|
                0 <= i < q.len() && 0 <= alt < links@.len() && #[trigger] parallel(links@, q[i] as int, alt)
                    implies preferred(links@, q[i] as int, alt) by {
                assert(preferred_below(links@, st@, q, u as int, j as int));
            }
        }
    }
    assert forall|j: int| 0 <= j < n_links implies #[trigger] relaxed(links@, st@, en@, dist@, j) by {
        if dist@[st@[j] as int] is Some {
            assert(settled@[st@[j] as int]);
        }
    }
    match dist[di] {
        None => {
            assert forall|q: Seq<usize>| !(is_path(links@, q, source@, destination@) && path_weight(links@, q) <= usize::MAX) by {
                if is_path(links@, q, source@, destination@) && path_weight(links@, q) <= usize::MAX {
                    lemma_fixed_point_bound(links@, nodes@, st@, en@, dist@, si as int, q, source@, destination@);
                }
            }
            None
        },
        Some(_) => {
            let p = paths[di].clone();
            assert(p@ =~= paths@[di as int]@);
            assert forall|q: Seq<usize>| is_path(links@, q, source@, destination@) && path_weight(links@, q) <= usize::MAX
                implies path_weight(links@, p@) <= #[trigger] path_weight(links@, q) by {
                lemma_fixed_point_bound(links@, nodes@, st@, en@, dist@, si as int, q, source@, destination@);
            }
            Some(p)
        },
    }
}

/// With no links, every query is unreachable, a node to itself included.
pub proof fn lemma_no_links_unreachable(s: Seq<char>, d: Seq<char>, r: Option<Vec<usize>>)
    requires
        is_shortest_route(Seq::<Link>::empty(), s, d, r),
    ensures
        r is None,
{
    if let Some(p) = r {
        if s != d {
            assert(p@[0] < 0);
        }
    }
}

/// A route from a node of the graph to itself is the empty path.
pub proof fn lemma_same_endpoints_empty(links: Seq<Link>, s: Seq<char>, r: Option<Vec<usize>>)
    requires
        is_shortest_route(links, s, s, r),
        in_graph(links, s),
    ensures
        r matches Some(p) && p@.len() == 0,
{
    let e = Seq::<usize>::empty();
    assert(is_path(links, e, s, s) && path_weight(links, e) == 0);
    assert(reachable_within(links, s, s));
}

} // verus!
