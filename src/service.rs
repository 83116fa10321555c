use vstd::prelude::*;
use crate::error::{ApiError, ErrorBody, ErrorKind};
use crate::graph::{
    add_edge, add_node, count_from, count_into, graph_edges, graph_node_count, in_degree,
    new_graph, out_degree, FlightGraph,
};
use crate::http::{FlightItineraryRequest, FlightItineraryResponse};
use crate::itinerary::{
    degree_diff, in_degree as arrivals, itinerary, lemma_node_order,
    lemma_scan_err_persists, node_order, out_degree as departures, scan, validate, Path,
};
use crate::text::{lower_of, lowercase, same_code};

verus! {

/// The codes of a list of names.
pub open spec fn codes(names: Seq<String>) -> Seq<Seq<char>> {
    names.map_values(|s: String| s@)
}

/// The code of an optional node number.
pub open spec fn code_at(nodes: Seq<Seq<char>>, i: Option<usize>) -> Option<Seq<char>> {
    match i {
        Some(j) => Some(nodes[j as int]),
        None => None,
    }
}

/// Whether the graph's edges are the flight paths, airport for airport.
pub open spec fn edges_match(edges: Seq<(nat, nat)>, nodes: Seq<Seq<char>>, paths: Seq<Path>) -> bool {
    &&& edges.len() == paths.len()
    &&& forall|j: int|
        0 <= j < edges.len() ==> {
            &&& #[trigger] edges[j].0 < nodes.len()
            &&& edges[j].1 < nodes.len()
            &&& nodes[edges[j].0 as int] == paths[j].0
            &&& nodes[edges[j].1 as int] == paths[j].1
        }
}

proof fn lemma_degrees(edges: Seq<(nat, nat)>, nodes: Seq<Seq<char>>, paths: Seq<Path>, i: nat)
    requires
        edges_match(edges, nodes, paths),
        nodes.no_duplicates(),
        i < nodes.len(),
    ensures
        count_from(edges, i) == departures(paths, nodes[i as int]),
        count_into(edges, i) == arrivals(paths, nodes[i as int]),
    decreases paths.len(),
{
    if paths.len() > 0 {
        let last = (edges.len() - 1) as int;
        assert(edges_match(edges.drop_last(), nodes, paths.drop_last())) by {
            assert forall|j: int| 0 <= j < edges.len() - 1 implies #[trigger] edges.drop_last()[j] == edges[j]
                && paths.drop_last()[j] == paths[j] by {}
        }
        lemma_degrees(edges.drop_last(), nodes, paths.drop_last(), i);
        assert(edges[last].0 < nodes.len());
        assert(edges.last() == edges[last] && paths.last() == paths[last]);
    }
}

/// The position of `code` in `names`, if it is there.
fn find_code(names: &Vec<String>, code: &str) -> (r: Option<usize>)
    ensures
        match r {
            Some(i) => i < names.len() && names@[i as int]@ == code@,
            None => !codes(names@).contains(code@),
        },
{
    let mut i: usize = 0;
    while i < names.len()
        invariant
            i <= names.len(),
            forall|j: int| 0 <= j < i ==> names@[j]@ != code@,
        decreases names.len() - i,
    {
        if same_code(names[i].as_str(), code) {
            return Some(i);
        }
        i = i + 1;
    }
    proof {
        if codes(names@).contains(code@) {
            let k = choose|k: int| 0 <= k < codes(names@).len() && codes(names@)[k] == code@;
            assert(names@[k]@ == code@);
        }
    }
    None
}

/// The node number of `code`, which becomes a new node if it has none yet.
fn node_for(names: &mut Vec<String>, g: &mut FlightGraph, code: &String) -> (r: usize)
    requires
        graph_node_count(*old(g)) == old(names).len(),
    ensures
        codes(final(names)@) == crate::itinerary::add_node(codes(old(names)@), code@),
        graph_node_count(*final(g)) == final(names).len(),
        graph_edges(*final(g)) == graph_edges(*old(g)),
        r < final(names).len(),
        codes(final(names)@)[r as int] == code@,
{
    match find_code(names, code.as_str()) {
        Some(i) => {
            assert(codes(names@).contains(code@)) by {
                assert(codes(names@)[i as int] == code@);
            }
            i
        },
        None => {
            let i = add_node(g);
            names.push(code.clone());
            assert(codes(names@) =~= codes(old(names)@).push(code@));
            i
        },
    }
}

fn error_body(message: &str) -> (r: ErrorBody)
    ensures
        r.error_message@ == message@,
{
    ErrorBody { error_message: message.to_string() }
}

/// Resolves the starting and ending airports of flight paths.
pub struct FlightItineraryService {}

impl FlightItineraryService {
    pub fn new() -> Self {
        FlightItineraryService {  }
    }

    /// Rejects an empty request, then the first flight path whose origin and
    /// destination are the same airport, letter case aside.
    pub fn check_payload(&self, payload: &FlightItineraryRequest) -> (r: Result<(), ApiError>)
        ensures
            match r {
                Ok(()) => validate(payload@) is Ok,
                Err(e) => validate(payload@) == Err::<(), ErrorKind>(e.kind()),
            },
    {
        let paths = &payload.flight_paths;
        if paths.len() == 0 {
            return Err(
                ApiError::EmptyFlightPaths(
                    error_body("Flight paths given is empty, please provide one with valid values."),
                ),
            );
        }
        let mut k: usize = 0;
        while k < paths.len()
            invariant
                k <= paths.len(),
                paths@.len() == payload@.len(),
                payload@ == payload.flight_paths@.map_values(|p: [String; 2]| (p@[0]@, p@[1]@)),
                paths == &payload.flight_paths,
                forall|j: int| 0 <= j < k ==> lower_of(#[trigger] payload@[j].0) != lower_of(payload@[j].1),
            decreases paths.len() - k,
        {
            let p = &paths[k];
            let origin = lowercase(p[0].as_str());
            let desti = lowercase(p[1].as_str());
            if same_code(origin.as_str(), desti.as_str()) {
                assert(payload@[k as int] == (p@[0]@, p@[1]@));
                return Err(
                    ApiError::InvalidFlightPath(
                        error_body(
                            "Some of the flight paths given has the same origin and destination airports, which is not valid.",
                        ),
                    ),
                );
            }
            assert(payload@[k as int] == (p@[0]@, p@[1]@));
            k = k + 1;
        }
        Ok(())
    }

    /// Resolves the starting and ending airport of the itinerary that the
    /// flight paths form: the one airport with one more departure than
    /// arrival, and the one with one more arrival than departure.
    pub fn calculate(&self, payload: FlightItineraryRequest) -> (r: Result<FlightItineraryResponse, ApiError>)
        ensures
            match r {
                Ok(resp) => itinerary(payload@) == Ok::<(Seq<char>, Seq<char>), ErrorKind>(
                    (resp.itinerary@[0]@, resp.itinerary@[1]@),
                ) && resp.itinerary@.len() == 2,
                Err(e) => itinerary(payload@) == Err::<(Seq<char>, Seq<char>), ErrorKind>(e.kind()),
            },
    {
        match self.check_payload(&payload) {
            Err(e) => {
                return Err(e);
            },
            Ok(()) => {},
        }
        let ghost paths = payload@;
        let mut names: Vec<String> = Vec::new();
        let mut g = new_graph();
        let mut k: usize = 0;
        while k < payload.flight_paths.len()
            invariant
                k <= paths.len(),
                paths.len() == payload.flight_paths@.len(),
                validate(paths) is Ok,
                paths == payload.flight_paths@.map_values(|p: [String; 2]| (p@[0]@, p@[1]@)),
                codes(names@) == node_order(paths.take(k as int)),
                graph_node_count(g) == names.len(),
                edges_match(graph_edges(g), codes(names@), paths.take(k as int)),
            decreases paths.len() - k,
        {
            let p = &payload.flight_paths[k];
            assert(paths[k as int] == (p@[0]@, p@[1]@));
            let ghost before = codes(names@);
            let a = node_for(&mut names, &mut g, &p[0]);
            let b = node_for(&mut names, &mut g, &p[1]);
            add_edge(&mut g, a, b);
            proof {
                let prev = paths.take(k as int);
                let next = paths.take(k + 1);
                assert(next.drop_last() =~= prev);
                assert(next.last() == paths[k as int]);
                let e = graph_edges(g);
                assert forall|j: int| 0 <= j < e.len() implies {
                    &&& #[trigger] e[j].0 < codes(names@).len()
                    &&& e[j].1 < codes(names@).len()
                    &&& codes(names@)[e[j].0 as int] == next[j].0
                    &&& codes(names@)[e[j].1 as int] == next[j].1
                } by {
                    if j < k {
                        assert(prev[j] == next[j]);
                        assert(e[j] == e.drop_last()[j]);
                    }
                }
            }
            k = k + 1;
        }
        proof {
            assert(paths.take(k as int) =~= paths);
            lemma_node_order(paths);
        }
        let ghost order = codes(names@);
        let mut origin: Option<usize> = None;
        let mut desti: Option<usize> = None;
        let mut i: usize = 0;
        while i < names.len()
            invariant
                validate(paths) is Ok,
                paths == payload@,
                order == codes(names@),
                order == node_order(paths),
                order.no_duplicates(),
                i <= names.len(),
                graph_node_count(g) == names.len(),
                edges_match(graph_edges(g), order, paths),
                origin matches Some(j) ==> j < names.len(),
                desti matches Some(j) ==> j < names.len(),
                scan(paths, order.take(i as int)) == Ok::<(Option<Seq<char>>, Option<Seq<char>>), ErrorKind>(
                    (code_at(order, origin), code_at(order, desti)),
                ),
            decreases names.len() - i,
        {
            let outgoing = out_degree(&g, i);
            let incoming = in_degree(&g, i);
            proof {
                lemma_degrees(graph_edges(g), order, paths, i as nat);
                assert(order.take(i + 1).drop_last() =~= order.take(i as int));
                assert(order.take(i + 1).last() == order[i as int]);
            }
            assert(degree_diff(paths, order[i as int]) == outgoing - incoming);
            if outgoing > incoming && outgoing - incoming == 1 {
                if origin.is_some() {
                    proof {
                        lemma_scan_err_persists(paths, order, i + 1);
                    }
                    return Err(
                        ApiError::NoStartingAirportDiscovered(
                            error_body(
                                "Failed to calculate the starting airport \u{2014} more than 1 potential starting airport found, possibly because the flight paths don't form a single connected path.",
                            ),
                        ),
                    );
                }
                origin = Some(i);
            } else if incoming > outgoing && incoming - outgoing == 1 {
                if desti.is_some() {
                    proof {
                        lemma_scan_err_persists(paths, order, i + 1);
                    }
                    return Err(
                        ApiError::NoEndingAirportDiscovered(
                            error_body(
                                "Failed to calculate the ending airport \u{2014} more than 1 potential ending airport found, possibly because the flight paths don't form a single connected path.",
                            ),
                        ),
                    );
                }
                desti = Some(i);
            } else if outgoing != incoming {
                proof {
                    lemma_scan_err_persists(paths, order, i + 1);
                }
                return Err(
                    ApiError::InvalidFlightPath(
                        error_body(
                            "Failed to calculate the starting/ending airport \u{2014} some non starting/ending airport has invalid paths from them",
                        ),
                    ),
                );
            }
            i = i + 1;
        }
        proof {
            assert(order.take(i as int) =~= order);
        }
        let starting = match origin {
            Some(j) => j,
            None => {
                return Err(
                    ApiError::NoStartingAirportDiscovered(
                        error_body(
                            "Failed to calculate the starting airport \u{2014} possibly due to the starting and ending airport being the same, or the flight paths don't form a single connected path.",
                        ),
                    ),
                );
            },
        };
        let ending = match desti {
            Some(j) => j,
            None => {
                return Err(
                    ApiError::NoEndingAirportDiscovered(
                        error_body(
                            "Failed to calculate the ending airport \u{2014} possibly due to the starting and ending airport being the same, or the flight paths don't form a single connected path.",
                        ),
                    ),
                );
            },
        };
        let itinerary = vec![names[starting].clone(), names[ending].clone()];
        proof {
            assert(order[starting as int] == names@[starting as int]@);
            assert(order[ending as int] == names@[ending as int]@);
        }
        Ok(FlightItineraryResponse { itinerary })
    }
}

} // verus!
