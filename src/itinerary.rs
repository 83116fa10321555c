use vstd::prelude::*;
use crate::error::ErrorKind;
use crate::text::lower_of;

verus! {

/// A flight path as the pair of its airport codes.
pub type Path = (Seq<char>, Seq<char>);

/// How many flight paths leave airport `c`.
pub open spec fn out_degree(paths: Seq<Path>, c: Seq<char>) -> int
    decreases paths.len(),
{
    if paths.len() == 0 {
        0
    } else {
        out_degree(paths.drop_last(), c) + if paths.last().0 == c { 1int } else { 0int }
    }
}

/// How many flight paths enter airport `c`.
pub open spec fn in_degree(paths: Seq<Path>, c: Seq<char>) -> int
    decreases paths.len(),
{
    if paths.len() == 0 {
        0
    } else {
        in_degree(paths.drop_last(), c) + if paths.last().1 == c { 1int } else { 0int }
    }
}

/// Out-degree minus in-degree of airport `c`.
pub open spec fn degree_diff(paths: Seq<Path>, c: Seq<char>) -> int {
    out_degree(paths, c) - in_degree(paths, c)
}

/// Whether airport `c` is an end of some flight path.
pub open spec fn appears(paths: Seq<Path>, c: Seq<char>) -> bool {
    exists|k: int| 0 <= k < paths.len() && (paths[k].0 == c || paths[k].1 == c)
}

/// `nodes` with `c` appended, unless it is already there.
pub open spec fn add_node(nodes: Seq<Seq<char>>, c: Seq<char>) -> Seq<Seq<char>> {
    if nodes.contains(c) {
        nodes
    } else {
        nodes.push(c)
    }
}

/// The airports of the flight paths, each once, in order of first appearance
/// (origin before destination within a path).
pub open spec fn node_order(paths: Seq<Path>) -> Seq<Seq<char>>
    decreases paths.len(),
{
    if paths.len() == 0 {
        Seq::empty()
    } else {
        add_node(add_node(node_order(paths.drop_last()), paths.last().0), paths.last().1)
    }
}

/// The input is non-empty and no flight path starts and ends at the same
/// airport, letter case aside.
pub open spec fn validate(paths: Seq<Path>) -> Result<(), ErrorKind> {
    if paths.len() == 0 {
        Err(ErrorKind::EmptyFlightPaths)
    } else if exists|k: int| 0 <= k < paths.len() && lower_of(paths[k].0) == lower_of(paths[k].1) {
        Err(ErrorKind::InvalidFlightPath)
    } else {
        Ok(())
    }
}

/// Classifies the airports of `nodes` in order by degree difference: the
/// starting candidate (+1) and ending candidate (-1) found so far, or the
/// first failure met.
pub open spec fn scan(paths: Seq<Path>, nodes: Seq<Seq<char>>) -> Result<
    (Option<Seq<char>>, Option<Seq<char>>),
    ErrorKind,
>
    decreases nodes.len(),
{
    if nodes.len() == 0 {
        Ok((None, None))
    } else {
        match scan(paths, nodes.drop_last()) {
            Err(e) => Err(e),
            Ok((o, d)) => {
                let n = nodes.last();
                let diff = degree_diff(paths, n);
                if diff == 1 {
                    if o is Some {
                        Err(ErrorKind::NoStartingAirportDiscovered)
                    } else {
                        Ok((Some(n), d))
                    }
                } else if diff == -1 {
                    if d is Some {
                        Err(ErrorKind::NoEndingAirportDiscovered)
                    } else {
                        Ok((o, Some(n)))
                    }
                } else if diff == 0 {
                    Ok((o, d))
                } else {
                    Err(ErrorKind::InvalidFlightPath)
                }
            },
        }
    }
}

/// The endpoints found by a completed scan, or why there are none.
pub open spec fn endpoints(s: Result<(Option<Seq<char>>, Option<Seq<char>>), ErrorKind>) -> Result<
    (Seq<char>, Seq<char>),
    ErrorKind,
> {
    match s {
        Err(e) => Err(e),
        Ok((None, _)) => Err(ErrorKind::NoStartingAirportDiscovered),
        Ok((Some(_), None)) => Err(ErrorKind::NoEndingAirportDiscovered),
        Ok((Some(o), Some(d))) => Ok((o, d)),
    }
}

/// The starting and ending airport of the itinerary, or why it has none.
pub open spec fn itinerary(paths: Seq<Path>) -> Result<(Seq<char>, Seq<char>), ErrorKind> {
    match validate(paths) {
        Err(e) => Err(e),
        Ok(()) => endpoints(scan(paths, node_order(paths))),
    }
}

proof fn lemma_add_node(nodes: Seq<Seq<char>>, c: Seq<char>)
    requires
        nodes.no_duplicates(),
    ensures
        add_node(nodes, c).no_duplicates(),
        forall|x: Seq<char>| #[trigger] add_node(nodes, c).contains(x) <==> (nodes.contains(x) || x == c),
{
    if !nodes.contains(c) {
        let r = nodes.push(c);
        assert forall|x: Seq<char>| #[trigger] r.contains(x) <==> (nodes.contains(x) || x == c) by {
            if r.contains(x) {
                let k = choose|k: int| 0 <= k < r.len() && r[k] == x;
                if k < nodes.len() {
                    assert(nodes[k] == x);
                }
            }
            if nodes.contains(x) {
                let k = choose|k: int| 0 <= k < nodes.len() && nodes[k] == x;
                assert(r[k] == x);
            }
            assert(r[nodes.len() as int] == c);
        }
        assert forall|i: int, j: int| 0 <= i < r.len() && 0 <= j < r.len() && i != j implies r[i] != r[j] by {
            if i == nodes.len() as int {
                assert(nodes.contains(r[j]));
            } else if j == nodes.len() as int {
                assert(nodes.contains(r[i]));
            }
        }
    }
}

/// Every airport is listed once, and exactly the airports of the paths are.
pub proof fn lemma_node_order(paths: Seq<Path>)
    ensures
        node_order(paths).no_duplicates(),
        forall|c: Seq<char>| #[trigger] node_order(paths).contains(c) <==> appears(paths, c),
    decreases paths.len(),
{
    if paths.len() > 0 {
        let prev = paths.drop_last();
        lemma_node_order(prev);
        let p = paths.last();
        lemma_add_node(node_order(prev), p.0);
        lemma_add_node(add_node(node_order(prev), p.0), p.1);
        assert forall|c: Seq<char>| #[trigger] node_order(paths).contains(c) <==> appears(paths, c) by {
            if appears(paths, c) {
                let k = choose|k: int| 0 <= k < paths.len() && (paths[k].0 == c || paths[k].1 == c);
                if k < paths.len() - 1 {
                    assert(prev[k] == paths[k]);
                    assert(appears(prev, c));
                }
            }
            if appears(prev, c) {
                let k = choose|k: int| 0 <= k < prev.len() && (prev[k].0 == c || prev[k].1 == c);
                assert(paths[k] == prev[k]);
            }
            if c == p.0 || c == p.1 {
                assert(paths[paths.len() - 1] == p);
            }
        }
    }
}

/// An airport of no flight path has no degree.
pub proof fn lemma_absent_degree(paths: Seq<Path>, c: Seq<char>)
    requires
        !appears(paths, c),
    ensures
        out_degree(paths, c) == 0,
        in_degree(paths, c) == 0,
    decreases paths.len(),
{
    if paths.len() > 0 {
        let prev = paths.drop_last();
        assert(paths[paths.len() - 1] == paths.last());
        assert(!appears(prev, c)) by {
            if appears(prev, c) {
                let k = choose|k: int| 0 <= k < prev.len() && (prev[k].0 == c || prev[k].1 == c);
                assert(paths[k] == prev[k]);
            }
        }
        lemma_absent_degree(prev, c);
    }
}

/// Once a scan fails, a longer scan fails the same way.
pub proof fn lemma_scan_err_persists(paths: Seq<Path>, nodes: Seq<Seq<char>>, i: int)
    requires
        0 <= i <= nodes.len(),
        scan(paths, nodes.take(i)) is Err,
    ensures
        scan(paths, nodes) == scan(paths, nodes.take(i)),
    decreases nodes.len() - i,
{
    if i < nodes.len() {
        assert(nodes.take(i + 1).drop_last() =~= nodes.take(i));
        lemma_scan_err_persists(paths, nodes, i + 1);
    } else {
        assert(nodes.take(i) =~= nodes);
    }
}

/// Departures summed over the airports of `nodes`.
pub open spec fn sum_out(paths: Seq<Path>, nodes: Seq<Seq<char>>) -> int
    decreases nodes.len(),
{
    if nodes.len() == 0 {
        0
    } else {
        sum_out(paths, nodes.drop_last()) + out_degree(paths, nodes.last())
    }
}

/// Arrivals summed over the airports of `nodes`.
pub open spec fn sum_in(paths: Seq<Path>, nodes: Seq<Seq<char>>) -> int
    decreases nodes.len(),
{
    if nodes.len() == 0 {
        0
    } else {
        sum_in(paths, nodes.drop_last()) + in_degree(paths, nodes.last())
    }
}

proof fn lemma_contains_split(nodes: Seq<Seq<char>>, x: Seq<char>)
    requires
        nodes.len() > 0,
        nodes.no_duplicates(),
    ensures
        nodes.drop_last().no_duplicates(),
        nodes.contains(x) <==> (nodes.drop_last().contains(x) || nodes.last() == x),
        !nodes.drop_last().contains(nodes.last()),
{
    let prev = nodes.drop_last();
    assert(nodes[nodes.len() - 1] == nodes.last());
    if nodes.contains(x) {
        let k = choose|k: int| 0 <= k < nodes.len() && nodes[k] == x;
        if k < nodes.len() - 1 {
            assert(prev[k] == x);
        }
    }
    if prev.contains(x) {
        let k = choose|k: int| 0 <= k < prev.len() && prev[k] == x;
        assert(nodes[k] == x);
    }
    if prev.contains(nodes.last()) {
        let k = choose|k: int| 0 <= k < prev.len() && prev[k] == nodes.last();
        assert(nodes[k] == nodes[nodes.len() - 1]);
    }
}

proof fn lemma_sum_step(paths: Seq<Path>, nodes: Seq<Seq<char>>)
    requires
        paths.len() > 0,
        nodes.no_duplicates(),
    ensures
        sum_out(paths, nodes) == sum_out(paths.drop_last(), nodes) + if nodes.contains(
            paths.last().0,
        ) {
            1int
        } else {
            0int
        },
        sum_in(paths, nodes) == sum_in(paths.drop_last(), nodes) + if nodes.contains(
            paths.last().1,
        ) {
            1int
        } else {
            0int
        },
    decreases nodes.len(),
{
    if nodes.len() > 0 {
        lemma_contains_split(nodes, paths.last().0);
        lemma_contains_split(nodes, paths.last().1);
        lemma_sum_step(paths, nodes.drop_last());
    }
}

/// Over airports that cover every path once each, departures and arrivals
/// both add up to the number of paths.
proof fn lemma_sum_total(paths: Seq<Path>, nodes: Seq<Seq<char>>)
    requires
        nodes.no_duplicates(),
        forall|c: Seq<char>| appears(paths, c) ==> nodes.contains(c),
    ensures
        sum_out(paths, nodes) == paths.len(),
        sum_in(paths, nodes) == paths.len(),
    decreases paths.len(),
{
    if paths.len() == 0 {
        lemma_sum_zero(paths, nodes);
    } else {
        let prev = paths.drop_last();
        assert forall|c: Seq<char>| appears(prev, c) implies nodes.contains(c) by {
            let k = choose|k: int| 0 <= k < prev.len() && (prev[k].0 == c || prev[k].1 == c);
            assert(paths[k] == prev[k]);
        }
        lemma_sum_total(prev, nodes);
        lemma_sum_step(paths, nodes);
        assert(paths[paths.len() - 1] == paths.last());
        assert(appears(paths, paths.last().0));
        assert(appears(paths, paths.last().1));
    }
}

proof fn lemma_sum_zero(paths: Seq<Path>, nodes: Seq<Seq<char>>)
    requires
        paths.len() == 0,
    ensures
        sum_out(paths, nodes) == 0,
        sum_in(paths, nodes) == 0,
    decreases nodes.len(),
{
    if nodes.len() > 0 {
        lemma_sum_zero(paths, nodes.drop_last());
    }
}

/// Where every airport of `nodes` but `d` is balanced, the sums differ by the
/// imbalance of `d` alone.
proof fn lemma_sum_one_unbalanced(paths: Seq<Path>, nodes: Seq<Seq<char>>, d: Seq<char>)
    requires
        nodes.no_duplicates(),
        forall|c: Seq<char>| nodes.contains(c) && c != d ==> degree_diff(paths, c) == 0,
    ensures
        sum_out(paths, nodes) - sum_in(paths, nodes) == if nodes.contains(d) {
            degree_diff(paths, d)
        } else {
            0
        },
    decreases nodes.len(),
{
    if nodes.len() > 0 {
        let prev = nodes.drop_last();
        lemma_contains_split(nodes, d);
        assert forall|c: Seq<char>| prev.contains(c) && c != d implies degree_diff(paths, c) == 0 by {
            lemma_contains_split(nodes, c);
        }
        lemma_contains_split(nodes, nodes.last());
        lemma_sum_one_unbalanced(paths, prev, d);
    }
}

/// Where the paths are valid, every airport but `d` has at most one more
/// departure than arrival and none fewer, at most one airport has a surplus
/// departure, and `d` has one more arrival than departure, they resolve to the
/// airport with the surplus departure and to `d`.
pub proof fn lemma_unique_endpoints(paths: Seq<Path>, d: Seq<char>)
    requires
        validate(paths) is Ok,
        degree_diff(paths, d) == -1,
        forall|c: Seq<char>| c != d ==> 0 <= #[trigger] degree_diff(paths, c) <= 1,
        forall|a: Seq<char>, b: Seq<char>|
            degree_diff(paths, a) == 1 && degree_diff(paths, b) == 1 ==> a == b,
    ensures
        exists|o: Seq<char>|
            degree_diff(paths, o) == 1 && itinerary(paths) == Ok::<(Seq<char>, Seq<char>), ErrorKind>(
                (o, d),
            ),
{
    let order = node_order(paths);
    lemma_node_order(paths);
    if !appears(paths, d) {
        lemma_absent_degree(paths, d);
    }
    lemma_sum_total(paths, order);
    if forall|c: Seq<char>| c != d ==> degree_diff(paths, c) != 1 {
        assert forall|c: Seq<char>| order.contains(c) && c != d implies degree_diff(paths, c) == 0 by {
            assert(0 <= degree_diff(paths, c) <= 1);
        }
        lemma_sum_one_unbalanced(paths, order, d);
        assert(false);
    }
    let o = choose|o: Seq<char>| o != d && degree_diff(paths, o) == 1;
    assert forall|c: Seq<char>| c != o && c != d implies degree_diff(paths, c) == 0 by {
        assert(0 <= degree_diff(paths, c) <= 1);
    }
    if !appears(paths, o) {
        lemma_absent_degree(paths, o);
    }
    lemma_scan_balanced(paths, order, o, d);
}

proof fn lemma_scan_balanced(paths: Seq<Path>, nodes: Seq<Seq<char>>, o: Seq<char>, d: Seq<char>)
    requires
        nodes.no_duplicates(),
        degree_diff(paths, o) == 1,
        degree_diff(paths, d) == -1,
        forall|c: Seq<char>| c != o && c != d ==> degree_diff(paths, c) == 0,
    ensures
        scan(paths, nodes) == Ok::<(Option<Seq<char>>, Option<Seq<char>>), ErrorKind>(
            (
                if nodes.contains(o) { Some(o) } else { None },
                if nodes.contains(d) { Some(d) } else { None },
            ),
        ),
    decreases nodes.len(),
{
    if nodes.len() > 0 {
        let prev = nodes.drop_last();
        let n = nodes.last();
        assert(prev.no_duplicates());
        lemma_scan_balanced(paths, prev, o, d);
        assert forall|c: Seq<char>| nodes.contains(c) <==> (prev.contains(c) || c == n) by {
            if nodes.contains(c) {
                let k = choose|k: int| 0 <= k < nodes.len() && nodes[k] == c;
                if k < nodes.len() - 1 {
                    assert(prev[k] == c);
                }
            }
            if prev.contains(c) {
                let k = choose|k: int| 0 <= k < prev.len() && prev[k] == c;
                assert(nodes[k] == c);
            }
            assert(nodes[nodes.len() - 1] == n);
        }
        assert(!prev.contains(n)) by {
            if prev.contains(n) {
                let k = choose|k: int| 0 <= k < prev.len() && prev[k] == n;
                assert(nodes[k] == nodes[nodes.len() - 1]);
            }
        }
    }
}

/// An empty set of flight paths is rejected as empty.
pub proof fn lemma_empty_rejected(paths: Seq<Path>)
    requires
        paths.len() == 0,
    ensures
        itinerary(paths) == Err::<(Seq<char>, Seq<char>), ErrorKind>(ErrorKind::EmptyFlightPaths),
{
}

/// A non-empty set with a flight path whose origin and destination are the
/// same airport, letter case aside, is rejected as invalid.
pub proof fn lemma_self_loop_rejected(paths: Seq<Path>, k: int)
    requires
        0 <= k < paths.len(),
        lower_of(paths[k].0) == lower_of(paths[k].1),
    ensures
        itinerary(paths) == Err::<(Seq<char>, Seq<char>), ErrorKind>(ErrorKind::InvalidFlightPath),
{
}

/// Resolution is a function of the flight paths alone: the same paths give
/// the same outcome every time.
pub proof fn lemma_resolution_deterministic(a: Seq<Path>, b: Seq<Path>)
    requires
        a == b,
    ensures
        itinerary(a) == itinerary(b),
{
}

} // verus!
