//! Shortest paths, found by breadth-first search.

use crate::paths::{
    answers, connected, distance, is_path, lemma_known_ends, lemma_shortest_distance,
    lemma_shortest_to_self, lemma_unknown_end,
};
use crate::store::{duplicate, Adjacency, Graph, NodeName};
use std::collections::VecDeque;
use vstd::hash_set::StringHashSet;
use vstd::prelude::*;

verus! {

/// Whether the candidates in `waiting` are ordered by length and all have
/// `low` or `low + 1` nodes.
spec fn banded(waiting: Seq<Seq<Seq<char>>>, low: int) -> bool {
    &&& forall|i: int| 0 <= i < waiting.len() ==> low <= (#[trigger] waiting[i]).len() <= low + 1
    &&& forall|i: int, j: int|
        0 <= i <= j < waiting.len() ==> (#[trigger] waiting[i]).len() <= (
        #[trigger] waiting[j]).len()
}

/// Whether the candidates in `waiting` are ordered by length and none has
/// more than one node more than the first.
spec fn in_order(waiting: Seq<Seq<Seq<char>>>) -> bool {
    waiting.len() > 0 ==> banded(waiting, waiting[0].len() as int)
}

/// Whether a candidate of at most `bound` nodes that ends at `node` waits.
spec fn covered(waiting: Seq<Seq<Seq<char>>>, node: Seq<char>, bound: int) -> bool {
    exists|i: int|
        0 <= i < waiting.len() && (#[trigger] waiting[i]).last() == node && waiting[i].len()
            <= bound
}

/// Whether the edge from the expanded node `near` to `far` is taken care of:
/// `far` is expanded too, or a candidate one node longer than the depth of
/// `near` waits for it.
spec fn edge_covered(
    visited: Set<Seq<char>>,
    depth: Map<Seq<char>, int>,
    waiting: Seq<Seq<Seq<char>>>,
    near: Seq<char>,
    far: Seq<char>,
) -> bool {
    visited.contains(far) || covered(waiting, far, depth[near] + 1)
}

/// What the search maintains apart from the edges of expanded nodes: only
/// nodes are expanded, and never the destination; every candidate is a path
/// from the source to the node at its end; no path from the source to an
/// expanded node has fewer nodes than the node's depth; and the source is
/// expanded or waits alone as a candidate.
spec fn frontier(
    g: Adjacency,
    from: Seq<char>,
    to: Seq<char>,
    visited: Set<Seq<char>>,
    depth: Map<Seq<char>, int>,
    waiting: Seq<Seq<Seq<char>>>,
) -> bool {
    &&& forall|node: Seq<char>| #[trigger] visited.contains(node) ==> g.contains_key(node)
    &&& !visited.contains(to)
    &&& forall|i: int|
        0 <= i < waiting.len() ==> is_path(g, #[trigger] waiting[i], from, waiting[i].last())
    &&& forall|node: Seq<char>, path: Seq<Seq<char>>|
        visited.contains(node) && #[trigger] is_path(g, path, from, node) ==> depth[node]
            <= path.len()
    &&& visited.contains(from) || covered(waiting, from, 1)
}

/// Whether every edge of an expanded node is taken care of, but for the edges
/// of `busy` to nodes outside `done`.
spec fn settled_except(
    g: Adjacency,
    visited: Set<Seq<char>>,
    depth: Map<Seq<char>, int>,
    waiting: Seq<Seq<Seq<char>>>,
    busy: Seq<char>,
    done: Set<Seq<char>>,
) -> bool {
    forall|near: Seq<char>, far: Seq<char>|
        visited.contains(near) && g[near].contains(far) && (near != busy || done.contains(far))
            ==> #[trigger] edge_covered(visited, depth, waiting, near, far)
}

/// Whether every edge of an expanded node is taken care of.
spec fn settled(
    g: Adjacency,
    visited: Set<Seq<char>>,
    depth: Map<Seq<char>, int>,
    waiting: Seq<Seq<Seq<char>>>,
) -> bool {
    forall|near: Seq<char>, far: Seq<char>|
        visited.contains(near) && g[near].contains(far) ==> #[trigger] edge_covered(
            visited,
            depth,
            waiting,
            near,
            far,
        )
}

/// The first node at or after position `at` of `path` that is not expanded.
proof fn first_unvisited(path: Seq<Seq<char>>, visited: Set<Seq<char>>, at: int) -> (found: int)
    requires
        0 <= at < path.len(),
        !visited.contains(path.last()),
        forall|i: int| 0 <= i < at ==> visited.contains(#[trigger] path[i]),
    ensures
        at <= found < path.len(),
        !visited.contains(path[found]),
        forall|i: int| 0 <= i < found ==> visited.contains(#[trigger] path[i]),
    decreases path.len() - at,
{
    if visited.contains(path[at]) {
        first_unvisited(path, visited, at + 1)
    } else {
        at
    }
}

/// No path to a node that is not expanded is shorter than every waiting
/// candidate.
proof fn lemma_bound(
    g: Adjacency,
    from: Seq<char>,
    to: Seq<char>,
    visited: Set<Seq<char>>,
    depth: Map<Seq<char>, int>,
    waiting: Seq<Seq<Seq<char>>>,
    path: Seq<Seq<char>>,
    end: Seq<char>,
)
    requires
        frontier(g, from, to, visited, depth, waiting),
        settled(g, visited, depth, waiting),
        is_path(g, path, from, end),
        !visited.contains(end),
    ensures
        exists|i: int| 0 <= i < waiting.len() && (#[trigger] waiting[i]).len() <= path.len(),
{
    let at = first_unvisited(path, visited, 0);
    if at == 0 {
        assert(covered(waiting, from, 1));
    } else {
        let near = path[at - 1];
        let prefix = path.take(at);
        assert(is_path(g, prefix, from, near)) by {
            assert forall|i: int| 0 <= i < prefix.len() implies g.contains_key(
                #[trigger] prefix[i],
            ) by {
                assert(prefix[i] == path[i]);
            }
            assert forall|i: int| 0 <= i < prefix.len() - 1 implies g[#[trigger] prefix[i]].contains(
                prefix[i + 1],
            ) by {
                assert(prefix[i] == path[i]);
            }
        }
        assert(depth[near] <= at);
        assert(g[near].contains(path[at]));
        assert(edge_covered(visited, depth, waiting, near, path[at]));
        assert(covered(waiting, path[at], depth[near] + 1));
    }
}

/// The search may start with the source as its only candidate.
proof fn lemma_start(g: Adjacency, from: Seq<char>, to: Seq<char>)
    requires
        g.contains_key(from),
    ensures
        frontier(g, from, to, Set::empty(), Map::empty(), seq![seq![from]]),
        settled(g, Set::empty(), Map::empty(), seq![seq![from]]),
        in_order(seq![seq![from]]),
{
    let waiting = seq![seq![from]];
    assert(waiting[0].last() == from);
    assert(is_path(g, waiting[0], from, from));
    assert(covered(waiting, from, 1));
}

/// A candidate that ends at an expanded node may be dropped.
proof fn lemma_drop(
    g: Adjacency,
    from: Seq<char>,
    to: Seq<char>,
    visited: Set<Seq<char>>,
    depth: Map<Seq<char>, int>,
    waiting: Seq<Seq<Seq<char>>>,
)
    requires
        frontier(g, from, to, visited, depth, waiting),
        settled(g, visited, depth, waiting),
        in_order(waiting),
        waiting.len() > 0,
        visited.contains(waiting[0].last()),
    ensures
        frontier(g, from, to, visited, depth, waiting.skip(1)),
        settled(g, visited, depth, waiting.skip(1)),
        in_order(waiting.skip(1)),
{
    let rest = waiting.skip(1);
    assert forall|node: Seq<char>, bound: int|
        !visited.contains(node) && covered(waiting, node, bound) implies covered(
        rest,
        node,
        bound,
    ) by {
        let i = choose|i: int|
            0 <= i < waiting.len() && (#[trigger] waiting[i]).last() == node && waiting[i].len()
                <= bound;
        assert(rest[i - 1] == waiting[i]);
    }
    assert forall|i: int| 0 <= i < rest.len() implies is_path(
        g,
        #[trigger] rest[i],
        from,
        rest[i].last(),
    ) by {
        assert(rest[i] == waiting[i + 1]);
    }
    assert forall|near: Seq<char>, far: Seq<char>|
        visited.contains(near) && g[near].contains(far) implies #[trigger] edge_covered(
        visited,
        depth,
        rest,
        near,
        far,
    ) by {
        assert(edge_covered(visited, depth, waiting, near, far));
    }
    lemma_rest_banded(waiting);
}

/// Without its first candidate, an ordered queue is still ordered, and its
/// candidates have as many nodes as the first had, or one more.
proof fn lemma_rest_banded(waiting: Seq<Seq<Seq<char>>>)
    requires
        in_order(waiting),
        waiting.len() > 0,
    ensures
        banded(waiting.skip(1), waiting[0].len() as int),
        in_order(waiting.skip(1)),
{
    let rest = waiting.skip(1);
    assert forall|i: int| 0 <= i < rest.len() implies waiting[0].len() <= (#[trigger] rest[i]).len()
        <= waiting[0].len() + 1 by {
        assert(rest[i] == waiting[i + 1]);
    }
    assert forall|i: int, j: int| 0 <= i <= j < rest.len() implies (#[trigger] rest[i]).len() <= (
    #[trigger] rest[j]).len() by {
        assert(rest[i] == waiting[i + 1]);
        assert(rest[j] == waiting[j + 1]);
    }
}

/// The node at the end of the first candidate may be expanded, at the depth
/// that the candidate gives, if it was not expanded before and is not the
/// destination.
proof fn lemma_open(
    g: Adjacency,
    from: Seq<char>,
    to: Seq<char>,
    visited: Set<Seq<char>>,
    depth: Map<Seq<char>, int>,
    waiting: Seq<Seq<Seq<char>>>,
)
    requires
        frontier(g, from, to, visited, depth, waiting),
        settled(g, visited, depth, waiting),
        in_order(waiting),
        waiting.len() > 0,
        !visited.contains(waiting[0].last()),
        waiting[0].last() != to,
    ensures
        frontier(
            g,
            from,
            to,
            visited.insert(waiting[0].last()),
            depth.insert(waiting[0].last(), waiting[0].len() as int),
            waiting.skip(1),
        ),
        settled_except(
            g,
            visited.insert(waiting[0].last()),
            depth.insert(waiting[0].last(), waiting[0].len() as int),
            waiting.skip(1),
            waiting[0].last(),
            Set::empty(),
        ),
        banded(waiting.skip(1), waiting[0].len() as int),
{
    let node = waiting[0].last();
    let rest = waiting.skip(1);
    let grown = visited.insert(node);
    let deeper = depth.insert(node, waiting[0].len() as int);
    assert forall|other: Seq<char>, bound: int|
        !grown.contains(other) && covered(waiting, other, bound) implies covered(
        rest,
        other,
        bound,
    ) by {
        let i = choose|i: int|
            0 <= i < waiting.len() && (#[trigger] waiting[i]).last() == other && waiting[i].len()
                <= bound;
        assert(rest[i - 1] == waiting[i]);
    }
    assert forall|i: int| 0 <= i < rest.len() implies is_path(
        g,
        #[trigger] rest[i],
        from,
        rest[i].last(),
    ) by {
        assert(rest[i] == waiting[i + 1]);
    }
    assert(is_path(g, waiting[0], from, node));
    assert(g.contains_key(node)) by {
        assert(node == waiting[0][waiting[0].len() - 1]);
    }
    assert forall|end: Seq<char>, path: Seq<Seq<char>>|
        grown.contains(end) && #[trigger] is_path(g, path, from, end) implies deeper[end]
        <= path.len() by {
        if end == node {
            lemma_bound(g, from, to, visited, depth, waiting, path, end);
            let i = choose|i: int|
                0 <= i < waiting.len() && (#[trigger] waiting[i]).len() <= path.len();
            assert(waiting[0].len() <= waiting[i].len());
        }
    }
    assert forall|near: Seq<char>, far: Seq<char>|
        grown.contains(near) && g[near].contains(far) && (near != node || Set::<
            Seq<char>,
        >::empty().contains(far)) implies #[trigger] edge_covered(grown, deeper, rest, near, far) by {
        assert(edge_covered(visited, depth, waiting, near, far));
    }
    lemma_rest_banded(waiting);
}

/// One more candidate may wait: the expanded node's path with a neighbour
/// that is not expanded at its end.
proof fn lemma_push(
    g: Adjacency,
    from: Seq<char>,
    to: Seq<char>,
    visited: Set<Seq<char>>,
    depth: Map<Seq<char>, int>,
    waiting: Seq<Seq<Seq<char>>>,
    busy: Seq<char>,
    done: Set<Seq<char>>,
    base: Seq<Seq<char>>,
    far: Seq<char>,
)
    requires
        frontier(g, from, to, visited, depth, waiting),
        settled_except(g, visited, depth, waiting, busy, done),
        banded(waiting, base.len() as int),
        is_path(g, base, from, busy),
        depth[busy] == base.len(),
        g[busy].contains(far),
        g.contains_key(far),
    ensures
        frontier(g, from, to, visited, depth, waiting.push(base.push(far))),
        settled_except(
            g,
            visited,
            depth,
            waiting.push(base.push(far)),
            busy,
            done.insert(far),
        ),
        banded(waiting.push(base.push(far)), base.len() as int),
{
    let longer = base.push(far);
    let more = waiting.push(longer);
    assert(more[waiting.len() as int] == longer);
    assert forall|node: Seq<char>, bound: int| covered(waiting, node, bound) implies covered(
        more,
        node,
        bound,
    ) by {
        let i = choose|i: int|
            0 <= i < waiting.len() && (#[trigger] waiting[i]).last() == node && waiting[i].len()
                <= bound;
        assert(more[i] == waiting[i]);
    }
    assert(is_path(g, longer, from, far)) by {
        assert forall|i: int| 0 <= i < longer.len() implies g.contains_key(
            #[trigger] longer[i],
        ) by {
            if i < base.len() {
                assert(longer[i] == base[i]);
            }
        }
        assert forall|i: int| 0 <= i < longer.len() - 1 implies g[#[trigger] longer[i]].contains(
            longer[i + 1],
        ) by {
            assert(longer[i] == base[i]);
            if i + 1 < base.len() {
                assert(longer[i + 1] == base[i + 1]);
            }
        }
    }
    assert forall|i: int| 0 <= i < more.len() implies is_path(
        g,
        #[trigger] more[i],
        from,
        more[i].last(),
    ) by {
        if i < waiting.len() {
            assert(more[i] == waiting[i]);
        }
    }
    assert(covered(more, far, depth[busy] + 1));
    assert forall|near: Seq<char>, other: Seq<char>|
        visited.contains(near) && g[near].contains(other) && (near != busy || done.insert(
            far,
        ).contains(other)) implies #[trigger] edge_covered(visited, depth, more, near, other) by {
        if near == busy && other == far {
        } else {
            assert(edge_covered(visited, depth, waiting, near, other));
        }
    }
    assert forall|i: int| 0 <= i < more.len() implies base.len() <= (#[trigger] more[i]).len()
        <= base.len() + 1 by {
        if i < waiting.len() {
            assert(more[i] == waiting[i]);
        }
    }
    assert forall|i: int, j: int| 0 <= i <= j < more.len() implies (#[trigger] more[i]).len() <= (
    #[trigger] more[j]).len() by {
        if i < waiting.len() {
            assert(more[i] == waiting[i]);
        }
        if j < waiting.len() {
            assert(more[j] == waiting[j]);
        }
    }
}

/// A neighbour that is expanded already needs no candidate.
proof fn lemma_pass(
    g: Adjacency,
    visited: Set<Seq<char>>,
    depth: Map<Seq<char>, int>,
    waiting: Seq<Seq<Seq<char>>>,
    busy: Seq<char>,
    done: Set<Seq<char>>,
    far: Seq<char>,
)
    requires
        settled_except(g, visited, depth, waiting, busy, done),
        visited.contains(far),
    ensures
        settled_except(g, visited, depth, waiting, busy, done.insert(far)),
{
    assert forall|near: Seq<char>, other: Seq<char>|
        visited.contains(near) && g[near].contains(other) && (near != busy || done.insert(
            far,
        ).contains(other)) implies #[trigger] edge_covered(visited, depth, waiting, near, other) by {
        if near == busy && other == far {
        } else {
            assert(edge_covered(visited, depth, waiting, near, other));
        }
    }
}

/// Once every neighbour of the expanded node was looked at, every edge is
/// taken care of.
proof fn lemma_close(
    g: Adjacency,
    visited: Set<Seq<char>>,
    depth: Map<Seq<char>, int>,
    waiting: Seq<Seq<Seq<char>>>,
    busy: Seq<char>,
    done: Set<Seq<char>>,
    low: int,
)
    requires
        settled_except(g, visited, depth, waiting, busy, done),
        g[busy].subset_of(done),
        banded(waiting, low),
    ensures
        settled(g, visited, depth, waiting),
        in_order(waiting),
{
    assert forall|near: Seq<char>, far: Seq<char>|
        visited.contains(near) && g[near].contains(far) implies #[trigger] edge_covered(
        visited,
        depth,
        waiting,
        near,
        far,
    ) by {
        assert(near != busy || done.contains(far));
    }
    if waiting.len() > 0 {
        assert(low <= waiting[0].len() <= low + 1);
    }
}

/// Expanding a node that was not expanded leaves fewer nodes to expand.
proof fn lemma_fewer_left(nodes: Set<Seq<char>>, visited: Set<Seq<char>>, node: Seq<char>)
    requires
        nodes.finite(),
        nodes.contains(node),
        !visited.contains(node),
    ensures
        nodes.difference(visited.insert(node)).len() < nodes.difference(visited).len(),
{
    let left = nodes.difference(visited);
    assert(left.contains(node));
    assert(nodes.difference(visited.insert(node)) =~= left.remove(node));
}

impl Graph {
    /// A shortest path from `from` to `to`, both ends included, or the empty
    /// vector if no path joins them.
    ///
    /// The search is breadth-first over candidate paths: the candidates wait
    /// in a queue, shortest first, and the first one to end at `to` is the
    /// answer. A node is expanded once; a candidate that ends at a node
    /// expanded before is dropped.
    pub fn path_finder(&self, from: &str, to: &str) -> (path: Vec<NodeName>)
        requires
            self.wf(),
        ensures
            answers(self@, from@, to@, path.deep_view()),
            path.len() == 0 <==> !connected(self@, from@, to@),
            !self@.contains_key(from@) || !self@.contains_key(to@) ==> path.len() == 0,
            from@ == to@ && self@.contains_key(from@) ==> path.deep_view() == seq![from@],
            connected(self@, from@, to@) ==> path.len() - 1 == distance(self@, from@, to@),
    {
        let goal: NodeName = to.to_owned();
        if self.find_node(from).is_none() {
            proof {
                lemma_unknown_end(self@, from@, to@);
            }
            return Vec::new();
        }
        let mut first: Vec<NodeName> = Vec::new();
        first.push(from.to_owned());
        let ghost alone = first.deep_view();
        let mut queue: VecDeque<Vec<NodeName>> = VecDeque::new();
        queue.push_back(first);
        let mut visited = StringHashSet::new();
        let ghost mut depth: Map<Seq<char>, int> = Map::empty();
        proof {
            lemma_start(self@, from@, to@);
            assert(alone =~= seq![from@]);
            assert(queue.deep_view() =~= seq![seq![from@]]);
        }
        while queue.len() > 0
            invariant
                self.wf(),
                goal@ == to@,
                frontier(self@, from@, to@, visited@, depth, queue.deep_view()),
                settled(self@, visited@, depth, queue.deep_view()),
                in_order(queue.deep_view()),
            decreases self@.dom().difference(visited@).len(), queue@.len(),
        {
            let ghost waiting = queue.deep_view();
            let current = queue.pop_front().unwrap();
            assert(queue.deep_view() =~= waiting.skip(1));
            assert(current.deep_view() == waiting[0]);
            let last = &current[current.len() - 1];
            assert(last@ == waiting[0].last());
            if *last == goal {
                proof {
                    assert forall|other: Seq<Seq<char>>| #[trigger]
                        is_path(self@, other, from@, to@) implies waiting[0].len()
                        <= other.len() by {
                        lemma_bound(self@, from@, to@, visited@, depth, waiting, other, to@);
                        let i = choose|i: int|
                            0 <= i < waiting.len() && (#[trigger] waiting[i]).len() <= other.len();
                        assert(waiting[0].len() <= waiting[i].len());
                    }
                    lemma_known_ends(self@, waiting[0], from@, to@);
                    if from@ == to@ {
                        lemma_shortest_to_self(self@, waiting[0], from@);
                    }
                    lemma_shortest_distance(self@, waiting[0], from@, to@);
                }
                return current;
            }
            if visited.contains(last.as_str()) {
                proof {
                    lemma_drop(self@, from@, to@, visited@, depth, waiting);
                }
                continue ;
            }
            match self.find_node(last.as_str()) {
                None => {
                    // A candidate ends at a node, so this arm is never taken.
                    assert(self@.contains_key(last@));
                },
                Some(list) => {
                    proof {
                        lemma_open(self@, from@, to@, visited@, depth, waiting);
                        depth = depth.insert(last@, waiting[0].len() as int);
                        lemma_fewer_left(self@.dom(), visited@, last@);
                    }
                    visited.insert(last.clone());
                    let mut j: usize = 0;
                    while j < list.len()
                        invariant
                            j <= list.len(),
                            self.wf(),
                            self@.contains_key(last@),
                            list.deep_view().to_set() == self@[last@],
                            is_path(self@, current.deep_view(), from@, last@),
                            depth[last@] == current.len(),
                            frontier(self@, from@, to@, visited@, depth, queue.deep_view()),
                            settled_except(
                                self@,
                                visited@,
                                depth,
                                queue.deep_view(),
                                last@,
                                list.deep_view().take(j as int).to_set(),
                            ),
                            banded(queue.deep_view(), current.len() as int),
                        decreases list.len() - j,
                    {
                        let ghost lined = queue.deep_view();
                        let ghost done = list.deep_view().take(j as int).to_set();
                        let ghost far = list.deep_view()[j as int];
                        assert(self@[last@].contains(far)) by {
                            assert(list.deep_view().contains(far));
                        }
                        assert(list.deep_view().take(j + 1).to_set() =~= done.insert(far)) by {
                            assert(list.deep_view().take(j + 1) =~= list.deep_view().take(
                                j as int,
                            ).push(far));
                            list.deep_view().take(j as int).lemma_push_to_set_commute(far);
                        }
                        if !visited.contains(list[j].as_str()) {
                            let mut longer = duplicate(&current);
                            longer.push(list[j].clone());
                            assert(longer.deep_view() =~= current.deep_view().push(far));
                            queue.push_back(longer);
                            assert(queue.deep_view() =~= lined.push(current.deep_view().push(far)));
                            proof {
                                lemma_push(
                                    self@,
                                    from@,
                                    to@,
                                    visited@,
                                    depth,
                                    lined,
                                    last@,
                                    done,
                                    current.deep_view(),
                                    far,
                                );
                            }
                        } else {
                            proof {
                                lemma_pass(self@, visited@, depth, lined, last@, done, far);
                            }
                        }
                        j += 1;
                    }
                    proof {
                        assert(list.deep_view().take(list.len() as int) =~= list.deep_view());
                        lemma_close(
                            self@,
                            visited@,
                            depth,
                            queue.deep_view(),
                            last@,
                            list.deep_view().to_set(),
                            current.len() as int,
                        );
                    }
                },
            }
        }
        proof {
            if connected(self@, from@, to@) {
                let other = choose|other: Seq<Seq<char>>| is_path(self@, other, from@, to@);
                lemma_bound(self@, from@, to@, visited@, depth, queue.deep_view(), other, to@);
            }
            lemma_unknown_end(self@, from@, to@);
        }
        Vec::new()
    }
}

} // verus!
