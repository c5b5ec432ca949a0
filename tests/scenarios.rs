use traffic_model::{
    dijkstra, load_network, load_traffic, model_traffic, utilization_rows, worst_case_failure, Link, Network,
    NetworkError, TrafficDemand,
};

fn net(text: &str) -> Network {
    match load_network(text) {
        Ok(n) => n,
        Err(_) => panic!("network should load"),
    }
}

fn demands(text: &str) -> Vec<TrafficDemand> {
    match load_traffic(text) {
        Ok(d) => d,
        Err(_) => panic!("demands should load"),
    }
}

fn rows(n: &Network, d: &[TrafficDemand]) -> Vec<(usize, usize)> {
    match model_traffic(n, d) {
        Ok(m) => utilization_rows(&m.utilization),
        Err(_) => panic!("no overflow expected"),
    }
}

fn wcf_strings(n: &Network, d: &[TrafficDemand]) -> Vec<(String, String, String, String)> {
    worst_case_failure(n, d)
        .into_iter()
        .map(|(l, k)| {
            (
                n.links[l].start.clone(),
                n.links[l].end.clone(),
                d[k].source.clone(),
                d[k].destination.clone(),
            )
        })
        .collect()
}

fn row(a: &str, b: &str, c: &str, d: &str) -> (String, String, String, String) {
    (a.to_string(), b.to_string(), c.to_string(), d.to_string())
}

#[test]
fn linear_chain() {
    let n = net("A,B,10,1\nB,C,10,1\nC,D,10,1\n");
    let d = demands("A,D,5\n");
    assert_eq!(dijkstra(&n, "A", "D"), Some(vec![0, 1, 2]));
    assert_eq!(rows(&n, &d), vec![(0, 5), (1, 5), (2, 5)]);
    assert_eq!(wcf_strings(&n, &d), vec![row("A", "B", "A", "D"), row("C", "D", "A", "D")]);
}

#[test]
fn two_paths_prefer_cheaper() {
    let n = net("A,B,10,1\nA,C,10,5\nB,D,10,1\nC,D,10,1\n");
    let d = demands("A,D,7\n");
    assert_eq!(dijkstra(&n, "A", "D"), Some(vec![0, 2]));
    assert_eq!(rows(&n, &d), vec![(0, 7), (2, 7)]);
}

#[test]
fn unreachable_demand() {
    let n = net("A,B,10,1\n");
    let d = demands("C,D,3\n");
    assert_eq!(dijkstra(&n, "C", "D"), None);
    let m = model_traffic(&n, &d).ok().unwrap();
    assert!(m.routes[0].is_none());
    assert!(utilization_rows(&m.utilization).is_empty());
    assert!(worst_case_failure(&n, &d).is_empty());
}

#[test]
fn tie_break_earlier_link() {
    let n = net("A,B,10,1\nA,B,10,1\n");
    let d = demands("A,B,4\n");
    assert_eq!(dijkstra(&n, "A", "B"), Some(vec![0]));
    assert_eq!(rows(&n, &d), vec![(0, 4)]);
}

#[test]
fn aggregation_of_demands() {
    let n = net("A,B,10,1\nB,C,10,1\n");
    let d = demands("A,C,3\nA,C,2\nA,B,5\n");
    assert_eq!(rows(&n, &d), vec![(0, 10), (1, 5)]);
}

#[test]
fn repeated_runs_are_identical() {
    let n = net("A,B,1,2\nA,C,1,1\nC,B,1,1\nB,D,1,3\nC,D,1,4\n");
    let d = demands("A,D,2\nC,B,1\nD,A,9\n");
    let first = (rows(&n, &d), wcf_strings(&n, &d), model_traffic(&n, &d).ok().unwrap().routes);
    let second = (rows(&n, &d), wcf_strings(&n, &d), model_traffic(&n, &d).ok().unwrap().routes);
    assert_eq!(first, second);
}

#[test]
fn utilization_sums_to_length_times_volume() {
    let n = net("A,B,1,1\nB,C,1,1\nC,D,1,1\nA,D,1,5\n");
    let d = demands("A,D,4\nB,D,3\nD,A,8\n");
    let m = model_traffic(&n, &d).ok().unwrap();
    let total: usize = m.utilization.iter().sum();
    let expected: usize = m
        .routes
        .iter()
        .zip(d.iter())
        .map(|(r, dm)| r.as_ref().map_or(0, |p| p.len() * dm.demand))
        .sum();
    assert_eq!(total, expected);
    assert_eq!(total, 3 * 4 + 2 * 3);
}

#[test]
fn route_chains_from_source_to_destination() {
    let n = net("X,Y,1,2\nY,Z,1,2\nX,Z,1,7\nZ,W,1,1\n");
    let p = dijkstra(&n, "X", "W").unwrap();
    assert_eq!(p, vec![0, 1, 3]);
    assert_eq!(n.links[p[0]].start, "X");
    for w in p.windows(2) {
        assert_eq!(n.links[w[0]].end, n.links[w[1]].start);
    }
    assert_eq!(n.links[*p.last().unwrap()].end, "W");
}

#[test]
fn route_is_never_heavier_than_brute_force() {
    let n = net("A,B,1,4\nA,C,1,1\nC,B,1,1\nB,D,1,1\nC,D,1,5\nD,A,1,1\nB,B,1,0\n");
    let weights: Vec<usize> = n.links.iter().map(|l| l.weight).collect();
    let names = ["A", "B", "C", "D"];
    for s in names {
        for t in names {
            let best = brute_force(&n, s, t, 5);
            match dijkstra(&n, s, t) {
                Some(p) => {
                    let w: usize = p.iter().map(|&l| weights[l]).sum();
                    assert_eq!(Some(w), best);
                }
                None => assert_eq!(best, None),
            }
        }
    }
}

fn brute_force(n: &Network, s: &str, t: &str, depth: usize) -> Option<usize> {
    let mut best: Option<usize> = if s == t { Some(0) } else { None };
    if depth == 0 {
        return best;
    }
    for l in &n.links {
        if l.start == s {
            if let Some(rest) = brute_force(n, &l.end, t, depth - 1) {
                let w = rest + l.weight;
                best = Some(best.map_or(w, |b| b.min(w)));
            }
        }
    }
    best
}

#[test]
fn no_path_to_missing_node() {
    let n = net("A,B,1,1\nB,A,1,1\n");
    assert_eq!(dijkstra(&n, "A", "Q"), None);
    assert_eq!(dijkstra(&n, "Q", "A"), None);
    assert_eq!(dijkstra(&n, "B", "A"), Some(vec![1]));
}

#[test]
fn direction_matters() {
    let n = net("A,B,1,1\n");
    assert_eq!(dijkstra(&n, "B", "A"), None);
}

#[test]
fn empty_network() {
    let n = net("");
    assert!(n.links.is_empty());
    let d = demands("A,B,3\nC,D,1\n");
    let m = model_traffic(&n, &d).ok().unwrap();
    assert!(m.routes.iter().all(|r| r.is_none()));
    assert!(utilization_rows(&m.utilization).is_empty());
    assert!(worst_case_failure(&n, &d).is_empty());
}

#[test]
fn empty_demand_list() {
    let n = net("A,B,1,1\nB,C,1,1\n");
    let d = demands("");
    let m = model_traffic(&n, &d).ok().unwrap();
    assert_eq!(m.utilization, vec![0, 0]);
    assert!(utilization_rows(&m.utilization).is_empty());
    assert!(worst_case_failure(&n, &d).is_empty());
}

#[test]
fn same_source_and_destination() {
    let n = net("A,B,1,1\nB,A,1,1\n");
    assert_eq!(dijkstra(&n, "A", "A"), Some(vec![]));
    let d = demands("A,A,6\n");
    let m = model_traffic(&n, &d).ok().unwrap();
    assert_eq!(m.utilization, vec![0, 0]);
}

#[test]
fn parallel_lighter_link_wins() {
    let n = net("A,B,10,3\nA,B,10,2\nA,B,10,2\n");
    assert_eq!(dijkstra(&n, "A", "B"), Some(vec![1]));
}

#[test]
fn zero_weight_links() {
    let n = net("A,B,1,0\nB,C,1,0\nA,C,1,1\n");
    assert_eq!(dijkstra(&n, "A", "C"), Some(vec![0, 1]));
}

#[test]
fn wcf_matches_any_endpoint() {
    let n = net("A,B,1,1\nC,D,1,1\n");
    let d = demands("B,X,1\nY,C,1\nZ,W,1\nA,D,1\n");
    assert_eq!(worst_case_failure(&n, &d), vec![(0, 0), (0, 3), (1, 1), (1, 3)]);
}

#[test]
fn link_ids_are_positions() {
    let n = net("A,B,7,1\nB,C,8,2\nC,A,9,3\n");
    let ids: Vec<usize> = n.links.iter().map(|l: &Link| l.link_id).collect();
    assert_eq!(ids, vec![0, 1, 2]);
    assert_eq!(n.links[1].capacity, 8);
    assert_eq!(n.links[2].weight, 3);
}

#[test]
fn number_with_plus_sign() {
    let n = net("A,B,+7,+1\n");
    assert_eq!(n.links[0].capacity, 7);
    assert_eq!(n.links[0].weight, 1);
}

#[test]
fn demand_fields_are_trimmed() {
    let d = demands(" A , B , 12 \n");
    assert_eq!(d[0].source, "A");
    assert_eq!(d[0].destination, "B");
    assert_eq!(d[0].demand, 12);
}

#[test]
fn network_fields_keep_spaces() {
    let n = net(" A,B ,1,1\n");
    assert_eq!(n.links[0].start, " A");
    assert_eq!(n.links[0].end, "B ");
}

#[test]
fn first_row_is_not_a_header() {
    let d = demands("source,destination,5\nA,B,2\n");
    assert_eq!(d.len(), 2);
    assert_eq!(d[0].source, "source");
}

#[test]
fn invalid_capacity_is_an_error() {
    assert!(matches!(load_network("A,B,x,1\n"), Err(NetworkError::InvalidNumber { row: 0, column: 2 })));
}

#[test]
fn invalid_weight_is_an_error() {
    assert!(matches!(
        load_network("A,B,1,1\nB,C,1,-4\n"),
        Err(NetworkError::InvalidNumber { row: 1, column: 3 })
    ));
}

#[test]
fn short_network_row_is_an_error() {
    assert!(matches!(load_network("A,B,1\n"), Err(NetworkError::MissingField { row: 0, column: 3 })));
}

#[test]
fn short_demand_row_is_an_error() {
    assert!(matches!(load_traffic("A,B\n"), Err(NetworkError::MissingField { row: 0, column: 2 })));
}

#[test]
fn invalid_demand_is_an_error() {
    assert!(matches!(load_traffic("A,B,1.5\n"), Err(NetworkError::InvalidNumber { row: 0, column: 2 })));
}

#[test]
fn ragged_table_is_a_csv_error() {
    assert!(matches!(load_network("A,B,1,1\nB,C,1,1,5\n"), Err(NetworkError::Csv(_))));
}

#[test]
fn utilization_overflow_is_an_error() {
    let big = usize::MAX.to_string();
    let n = net("A,B,1,1\n");
    let d = demands(&format!("A,B,{}\nA,B,1\n", big));
    assert!(matches!(model_traffic(&n, &d), Err(NetworkError::UtilizationOverflow)));
}

#[test]
fn number_too_large_is_an_error() {
    let text = format!("A,B,1,{}0\n", usize::MAX);
    assert!(matches!(load_network(&text), Err(NetworkError::InvalidNumber { row: 0, column: 3 })));
}

#[test]
fn rows_skip_unused_links() {
    assert_eq!(utilization_rows(&vec![0, 3, 0, 5]), vec![(1, 3), (3, 5)]);
}

#[test]
fn absent_node_to_itself_is_unreachable() {
    let n = net("A,B,1,1\n");
    assert_eq!(dijkstra(&n, "Q", "Q"), None);
    assert_eq!(dijkstra(&n, "B", "B"), Some(vec![]));
}

#[test]
fn empty_network_same_node_is_unreachable() {
    let n = net("");
    assert_eq!(dijkstra(&n, "A", "A"), None);
}

#[test]
fn zero_weight_self_loop_is_not_taken() {
    let n = net("A,A,1,0\nA,B,1,2\n");
    assert_eq!(dijkstra(&n, "A", "B"), Some(vec![1]));
    assert_eq!(dijkstra(&n, "A", "A"), Some(vec![]));
}
