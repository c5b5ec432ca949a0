use vstd::prelude::*;

use crate::network::{Link, Network, NetworkError, TrafficDemand};

verus! {

/// The fields of each record of a headerless comma-separated text, when it parses.
pub uninterp spec fn csv_table(text: Seq<char>) -> Option<Seq<Seq<Seq<char>>>>;

/// The text with leading and trailing Unicode white space removed.
pub uninterp spec fn trimmed(s: Seq<char>) -> Seq<char>;

/// Relies on csv::ReaderBuilder with `has_headers(false)` and csv::Reader::records:
/// the records read from a text, or the first error, depend on the text alone.
#[verifier::external_body]
fn csv_rows(text: &str) -> (r: Result<Vec<Vec<String>>, String>)
    ensures
        r is Ok <==> csv_table(text@) is Some,
        r matches Ok(rows) ==> csv_table(text@) == Some(rows.deep_view()),
{
    let mut reader = csv::ReaderBuilder::new().has_headers(false).from_reader(text.as_bytes());
    reader
        .records()
        .map(|rec| rec.map(|fields| fields.iter().map(String::from).collect()))
        .collect::<Result<Vec<Vec<String>>, csv::Error>>()
        .map_err(|e| e.to_string())
}

/// Relies on str::trim: the result depends on the text alone.
#[verifier::external_body]
fn trim(s: &str) -> (r: &str)
    ensures
        r@ == trimmed(s@),
{
    s.trim()
}

/// A non-empty run of ASCII decimal digits.
pub open spec fn is_digits(s: Seq<char>) -> bool {
    s.len() > 0 && forall|i: int| 0 <= i < s.len() ==> '0' <= #[trigger] s[i] <= '9'
}

/// The number that a run of decimal digits denotes.
pub open spec fn digits_value(s: Seq<char>) -> nat
    decreases s.len(),
{
    if s.len() == 0 {
        0
    } else {
        digits_value(s.drop_last()) * 10 + (s.last() as int - '0' as int) as nat
    }
}

/// The value of a `usize` written in decimal with an optional leading `+`.
pub open spec fn usize_value(s: Seq<char>) -> Option<usize> {
    let digits = if s.len() > 0 && s[0] == '+' { s.drop_first() } else { s };
    if is_digits(digits) && digits_value(digits) <= usize::MAX {
        Some(digits_value(digits) as usize)
    } else {
        None
    }
}

/// Relies on `<usize as FromStr>::from_str`: an optional `+` and decimal digits,
/// nothing else, whose value fits in a `usize`.
#[verifier::external_body]
fn parse_usize(s: &str) -> (r: Option<usize>)
    ensures
        r == usize_value(s@),
{
    s.parse::<usize>().ok()
}

/// Why row `i` of the network table cannot be a link, if it cannot.
pub open spec fn link_row_error(row: Seq<Seq<char>>, i: int) -> Option<NetworkError> {
    if row.len() < 4 {
        Some(NetworkError::MissingField { row: i as usize, column: row.len() as usize })
    } else if usize_value(row[2]) is None {
        Some(NetworkError::InvalidNumber { row: i as usize, column: 2 })
    } else if usize_value(row[3]) is None {
        Some(NetworkError::InvalidNumber { row: i as usize, column: 3 })
    } else {
        None
    }
}

/// `r` is the network that table `t` describes, or the error of its first bad row.
pub open spec fn network_of_table(t: Seq<Seq<Seq<char>>>, r: Result<Network, NetworkError>) -> bool {
    match r {
        Ok(n) => {
            &&& forall|i: int| 0 <= i < t.len() ==> #[trigger] link_row_error(t[i], i) is None
            &&& n.links@.len() == t.len()
            &&& forall|i: int| 0 <= i < t.len() ==> {
                let l = #[trigger] n.links@[i];
                &&& l.link_id == i
                &&& l.start@ == t[i][0]
                &&& l.end@ == t[i][1]
                &&& Some(l.capacity) == usize_value(t[i][2])
                &&& Some(l.weight) == usize_value(t[i][3])
            }
        },
        Err(e) => exists|i: int| {
            &&& 0 <= i < t.len()
            &&& forall|j: int| 0 <= j < i ==> #[trigger] link_row_error(t[j], j) is None
            &&& #[trigger] link_row_error(t[i], i) == Some(e)
        },
    }
}

/// Why row `i` of the demand table cannot be a demand, if it cannot.
pub open spec fn demand_row_error(row: Seq<Seq<char>>, i: int) -> Option<NetworkError> {
    if row.len() < 3 {
        Some(NetworkError::MissingField { row: i as usize, column: row.len() as usize })
    } else if usize_value(trimmed(row[2])) is None {
        Some(NetworkError::InvalidNumber { row: i as usize, column: 2 })
    } else {
        None
    }
}

/// `r` is the demand list that table `t` describes, or the error of its first bad row.
pub open spec fn demands_of_table(t: Seq<Seq<Seq<char>>>, r: Result<Vec<TrafficDemand>, NetworkError>) -> bool {
    match r {
        Ok(ds) => {
            &&& forall|i: int| 0 <= i < t.len() ==> #[trigger] demand_row_error(t[i], i) is None
            &&& ds@.len() == t.len()
            &&& forall|i: int| 0 <= i < t.len() ==> {
                let d = #[trigger] ds@[i];
                &&& d.source@ == trimmed(t[i][0])
                &&& d.destination@ == trimmed(t[i][1])
                &&& Some(d.demand) == usize_value(trimmed(t[i][2]))
            }
        },
        Err(e) => exists|i: int| {
            &&& 0 <= i < t.len()
            &&& forall|j: int| 0 <= j < i ==> #[trigger] demand_row_error(t[j], j) is None
            &&& #[trigger] demand_row_error(t[i], i) == Some(e)
        },
    }
}

/// Builds the network from the fields of each row: start, end, capacity,
/// weight; a link's id is its row index.
pub fn network_from_rows(rows: &Vec<Vec<String>>) -> (r: Result<Network, NetworkError>)
    ensures
        network_of_table(rows.deep_view(), r),
{
    let ghost t = rows.deep_view();
    let mut links: Vec<Link> = Vec::new();
    let mut i: usize = 0;
    while i < rows.len()
        invariant
            t == rows.deep_view(),
            i <= rows@.len(),
            links@.len() == i,
            forall|j: int| 0 <= j < i ==> #[trigger] link_row_error(t[j], j) is None,
            forall|j: int| 0 <= j < i ==> {
                let l = #[trigger] links@[j];
                &&& l.link_id == j
                &&& l.start@ == t[j][0]
                &&& l.end@ == t[j][1]
                &&& Some(l.capacity) == usize_value(t[j][2])
                &&& Some(l.weight) == usize_value(t[j][3])
            },
        decreases rows@.len() - i,
    {
        let row = &rows[i];
        assert(t[i as int] == row.deep_view());
        if row.len() < 4 {
            let e = NetworkError::MissingField { row: i, column: row.len() };
            assert(link_row_error(t[i as int], i as int) == Some(e));
            return Err(e);
        }
        let capacity = match parse_usize(row[2].as_str()) {
            Some(c) => c,
            None => {
                let e = NetworkError::InvalidNumber { row: i, column: 2 };
                assert(link_row_error(t[i as int], i as int) == Some(e));
                return Err(e);
            },
        };
        let weight = match parse_usize(row[3].as_str()) {
            Some(w) => w,
            None => {
                let e = NetworkError::InvalidNumber { row: i, column: 3 };
                assert(link_row_error(t[i as int], i as int) == Some(e));
                return Err(e);
            },
        };
        links.push(Link { link_id: i, start: row[0].clone(), end: row[1].clone(), capacity, weight });
        i = i + 1;
    }
    Ok(Network { links })
}

/// Builds the demand list from the trimmed fields of each row: source,
/// destination, volume.
pub fn traffic_from_rows(rows: &Vec<Vec<String>>) -> (r: Result<Vec<TrafficDemand>, NetworkError>)
    ensures
        demands_of_table(rows.deep_view(), r),
{
    let ghost t = rows.deep_view();
    let mut demands: Vec<TrafficDemand> = Vec::new();
    let mut i: usize = 0;
    while i < rows.len()
        invariant
            t == rows.deep_view(),
            i <= rows@.len(),
            demands@.len() == i,
            forall|j: int| 0 <= j < i ==> #[trigger] demand_row_error(t[j], j) is None,
            forall|j: int| 0 <= j < i ==> {
                let d = #[trigger] demands@[j];
                &&& d.source@ == trimmed(t[j][0])
                &&& d.destination@ == trimmed(t[j][1])
                &&& Some(d.demand) == usize_value(trimmed(t[j][2]))
            },
        decreases rows@.len() - i,
    {
        let row = &rows[i];
        assert(t[i as int] == row.deep_view());
        if row.len() < 3 {
            let e = NetworkError::MissingField { row: i, column: row.len() };
            assert(demand_row_error(t[i as int], i as int) == Some(e));
            return Err(e);
        }
        let demand = match parse_usize(trim(row[2].as_str())) {
            Some(v) => v,
            None => {
                let e = NetworkError::InvalidNumber { row: i, column: 2 };
                assert(demand_row_error(t[i as int], i as int) == Some(e));
                return Err(e);
            },
        };
        let source = trim(row[0].as_str()).to_owned();
        let destination = trim(row[1].as_str()).to_owned();
        demands.push(TrafficDemand { source, destination, demand });
        i = i + 1;
    }
    Ok(demands)
}

/// Reads the network table: one headerless comma-separated row per link.
pub fn load_network(text: &str) -> (r: Result<Network, NetworkError>)
    ensures
        match csv_table(text@) {
            None => r matches Err(NetworkError::Csv(_)),
            Some(t) => network_of_table(t, r),
        },
{
    match csv_rows(text) {
        Ok(rows) => network_from_rows(&rows),
        Err(message) => Err(NetworkError::Csv(message)),
    }
}

/// Reads the demand table: one headerless comma-separated row per demand.
pub fn load_traffic(text: &str) -> (r: Result<Vec<TrafficDemand>, NetworkError>)
    ensures
        match csv_table(text@) {
            None => r matches Err(NetworkError::Csv(_)),
            Some(t) => demands_of_table(t, r),
        },
{
    match csv_rows(text) {
        Ok(rows) => traffic_from_rows(&rows),
        Err(message) => Err(NetworkError::Csv(message)),
    }
}

} // verus!
