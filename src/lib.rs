//! Shortest-path traffic modelling over a directed, weighted network:
//! routing of point-to-point demands, per-link utilization and the
//! endpoint-overlap failure report.

mod failure;
mod loading;
mod network;
mod paths;
mod routing;
mod utilization;

pub use network::{Link, Network, NetworkError, State, TrafficDemand};
pub use network::{is_chain, is_path, path_weight, reachable_within};
pub use routing::{dijkstra, is_shortest_route};
pub use routing::{lemma_no_links_unreachable, lemma_same_endpoints_empty, parallel, in_graph, visits_once, preferred, uses_preferred_links};
pub use utilization::{aggregate_utilization, model_traffic, route_demands, utilization_rows, TrafficModel};
pub use utilization::{are_shortest_routes, nonzero_rows, route_load, routed_load, routes_within, utilization_of};
pub use failure::{failure_pairs, lemma_failure_report_complete, lemma_no_demands_no_failures, lemma_no_links_no_failures, link_failures, touches, worst_case_failure};
pub use loading::{load_network, load_traffic, network_from_rows, traffic_from_rows};
pub use loading::{csv_table, demand_row_error, demands_of_table, digits_value, is_digits, link_row_error, network_of_table, trimmed, usize_value};
pub use utilization::{lemma_utilization_conservation, routed_volume, sum_below};
pub use utilization::{lemma_empty_route_adds_nothing, lemma_no_demands_no_volume, lemma_unrouted_adds_nothing, lemma_zero_volumes_no_rows};
pub use utilization::{carries_nothing, lemma_silent_demand_removable};
pub use paths::{lemma_path_within_bound, lemma_unreachable_means_no_path, total_weight};
