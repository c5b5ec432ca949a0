use vstd::prelude::*;

verus! {

/// A directed edge. `link_id` is the link's position in the network.
#[derive(Debug)]
pub struct Link {
    pub link_id: usize,
    pub start: String,
    pub end: String,
    pub capacity: usize,
    pub weight: usize,
}

/// The links of a network, in input order.
#[derive(Debug)]
pub struct Network {
    pub links: Vec<Link>,
}

/// A request to carry `demand` units of traffic from `source` to `destination`.
#[derive(Debug)]
pub struct TrafficDemand {
    pub source: String,
    pub destination: String,
    pub demand: usize,
}

/// A node (by its dense index) together with a cost at which it is reached.
#[derive(Clone, Copy, Debug, PartialEq, Eq, Structural)]
pub struct State {
    pub node: usize,
    pub cost: usize,
}

/// Why loading or modelling failed.
#[derive(Debug)]
pub enum NetworkError {
    /// The text is not a well-formed comma-separated table.
    Csv(String),
    /// Row `row` has no field at position `column`.
    MissingField { row: usize, column: usize },
    /// Field `column` of row `row` is not a non-negative integer.
    InvalidNumber { row: usize, column: usize },
    /// The volume routed over some link does not fit in a `usize`.
    UtilizationOverflow,
}

/// Every link id of `p` names a link, and consecutive links chain end to start.
pub open spec fn is_chain(links: Seq<Link>, p: Seq<usize>) -> bool {
    &&& forall|i: int| 0 <= i < p.len() ==> #[trigger] p[i] < links.len()
    &&& forall|i: int|
        0 <= i < p.len() - 1 ==> links[p[i] as int].end@ == #[trigger] links[p[i + 1] as int].start@
}

/// `p` is a directed path from node `s` to node `d`; the empty path joins a node to itself.
pub open spec fn is_path(links: Seq<Link>, p: Seq<usize>, s: Seq<char>, d: Seq<char>) -> bool {
    &&& is_chain(links, p)
    &&& p.len() == 0 ==> s == d
    &&& p.len() > 0 ==> links[p[0] as int].start@ == s && links[p.last() as int].end@ == d
}

/// Sum of the weights of the links of `p`.
pub open spec fn path_weight(links: Seq<Link>, p: Seq<usize>) -> nat
    decreases p.len(),
{
    if p.len() == 0 {
        0
    } else {
        path_weight(links, p.drop_last()) + links[p.last() as int].weight as nat
    }
}

/// Some path from `s` to `d` has a total weight that fits in a `usize`.
pub open spec fn reachable_within(links: Seq<Link>, s: Seq<char>, d: Seq<char>) -> bool {
    exists|p: Seq<usize>| is_path(links, p, s, d) && path_weight(links, p) <= usize::MAX
}

} // verus!
