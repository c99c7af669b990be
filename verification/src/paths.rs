//! Paths through a graph: what a path is, which one is shortest, and what
//! answers a query for one.

use crate::store::Adjacency;
use vstd::prelude::*;

verus! {

/// Whether `path` leads through `g` from `from` to `to`: it starts at `from`,
/// ends at `to`, names only nodes of `g`, and each node on it is a neighbour
/// of the one before.
pub open spec fn is_path(
    g: Adjacency,
    path: Seq<Seq<char>>,
    from: Seq<char>,
    to: Seq<char>,
) -> bool {
    &&& path.len() > 0
    &&& path[0] == from
    &&& path.last() == to
    &&& forall|i: int| 0 <= i < path.len() ==> g.contains_key(#[trigger] path[i])
    &&& forall|i: int| 0 <= i < path.len() - 1 ==> g[#[trigger] path[i]].contains(path[i + 1])
}

/// Whether some path leads through `g` from `from` to `to`.
pub open spec fn connected(g: Adjacency, from: Seq<char>, to: Seq<char>) -> bool {
    exists|path: Seq<Seq<char>>| is_path(g, path, from, to)
}

/// Whether `path` leads from `from` to `to` and no path between them has
/// fewer nodes.
pub open spec fn shortest(
    g: Adjacency,
    path: Seq<Seq<char>>,
    from: Seq<char>,
    to: Seq<char>,
) -> bool {
    &&& is_path(g, path, from, to)
    &&& forall|other: Seq<Seq<char>>| #[trigger]
        is_path(g, other, from, to) ==> path.len() <= other.len()
}

/// Whether `path` answers the query for a way from `from` to `to`: a shortest
/// path where the two are connected, and the empty sequence where they are
/// not.
pub open spec fn answers(
    g: Adjacency,
    from: Seq<char>,
    to: Seq<char>,
    path: Seq<Seq<char>>,
) -> bool {
    if connected(g, from, to) {
        shortest(g, path, from, to)
    } else {
        path.len() == 0
    }
}

/// The number of edges on a shortest path from `from` to `to`, where the two
/// are connected.
pub open spec fn distance(g: Adjacency, from: Seq<char>, to: Seq<char>) -> int
    recommends
        connected(g, from, to),
{
    (choose|path: Seq<Seq<char>>| shortest(g, path, from, to)).len() - 1
}

/// Where a path leads from `from` to `to`, a shortest one does.
pub proof fn lemma_shortest_exists(
    g: Adjacency,
    path: Seq<Seq<char>>,
    from: Seq<char>,
    to: Seq<char>,
) -> (best: Seq<Seq<char>>)
    requires
        is_path(g, path, from, to),
    ensures
        shortest(g, best, from, to),
    decreases path.len(),
{
    if shortest(g, path, from, to) {
        path
    } else {
        let other = choose|other: Seq<Seq<char>>|
            is_path(g, other, from, to) && other.len() < path.len();
        lemma_shortest_exists(g, other, from, to)
    }
}

/// Every shortest path has as many edges as the distance says.
pub proof fn lemma_shortest_distance(
    g: Adjacency,
    path: Seq<Seq<char>>,
    from: Seq<char>,
    to: Seq<char>,
)
    requires
        shortest(g, path, from, to),
    ensures
        path.len() - 1 == distance(g, from, to),
{
    let chosen = choose|path: Seq<Seq<char>>| shortest(g, path, from, to);
    assert(is_path(g, chosen, from, to));
    assert(is_path(g, path, from, to));
}

/// A path names only nodes of the graph, so none starts or ends at a name
/// that is not a node.
pub proof fn lemma_known_ends(g: Adjacency, path: Seq<Seq<char>>, from: Seq<char>, to: Seq<char>)
    requires
        is_path(g, path, from, to),
    ensures
        g.contains_key(from),
        g.contains_key(to),
{
    assert(g.contains_key(path[0]));
    assert(g.contains_key(path[path.len() - 1]));
}

/// Nothing is connected to a name that is not a node.
pub proof fn lemma_unknown_end(g: Adjacency, from: Seq<char>, to: Seq<char>)
    ensures
        !g.contains_key(from) || !g.contains_key(to) ==> !connected(g, from, to),
{
    if connected(g, from, to) {
        let path = choose|path: Seq<Seq<char>>| is_path(g, path, from, to);
        lemma_known_ends(g, path, from, to);
    }
}

/// The shortest path from a node to itself is the node alone.
pub proof fn lemma_shortest_to_self(g: Adjacency, path: Seq<Seq<char>>, node: Seq<char>)
    requires
        shortest(g, path, node, node),
    ensures
        path == seq![node],
{
    let alone = seq![node];
    lemma_known_ends(g, path, node, node);
    assert(is_path(g, alone, node, node));
    assert(path =~= alone);
}

} // verus!
