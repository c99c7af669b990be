//! What holds of every graph and every query, whatever lines were merged.

use crate::paths::{
    answers, connected, distance, is_path, lemma_shortest_distance, lemma_shortest_exists,
    lemma_shortest_to_self, lemma_unknown_end,
};
use crate::store::{declared, ingest, lemma_ingest_undirected, neighbours, undirected, Adjacency};
use vstd::prelude::*;

verus! {

/// A line makes its node and each other name on it neighbours of each other:
/// after the merge both are nodes, the node lists the name and the name
/// lists the node.
pub proof fn lemma_declaration_is_mutual(g: Adjacency, tokens: Seq<Seq<char>>, at: int)
    requires
        1 <= at < tokens.len(),
        tokens[at] != tokens[0],
    ensures
        ingest(g, tokens).contains_key(tokens[0]),
        ingest(g, tokens).contains_key(tokens[at]),
        ingest(g, tokens)[tokens[0]].contains(tokens[at]),
        ingest(g, tokens)[tokens[at]].contains(tokens[0]),
{
    assert(tokens.skip(1)[at - 1] == tokens[at]);
    assert(declared(tokens).contains(tokens[at]));
}

/// The neighbours that a line gives its node are the other names on the
/// line, each once, and never the node itself: the node has them and what it
/// had before, and nothing else.
pub proof fn lemma_declaration_is_exact(g: Adjacency, tokens: Seq<Seq<char>>)
    requires
        tokens.len() > 0,
    ensures
        ingest(g, tokens).contains_key(tokens[0]),
        ingest(g, tokens)[tokens[0]] == neighbours(g, tokens[0]) + declared(tokens),
        !declared(tokens).contains(tokens[0]),
        forall|name: Seq<char>|
            declared(tokens).contains(name) <==> name != tokens[0] && exists|at: int|
                1 <= at < tokens.len() && tokens[at] == name,
{
    let rest = tokens.skip(1);
    assert forall|name: Seq<char>|
        declared(tokens).contains(name) <==> name != tokens[0] && exists|at: int|
            1 <= at < tokens.len() && tokens[at] == name by {
        if declared(tokens).contains(name) {
            let i = choose|i: int| 0 <= i < rest.len() && rest[i] == name;
            assert(tokens[i + 1] == name);
        }
        if name != tokens[0] && exists|at: int| 1 <= at < tokens.len() && tokens[at] == name {
            let at = choose|at: int| 1 <= at < tokens.len() && tokens[at] == name;
            assert(rest[at - 1] == name);
        }
    }
}

/// No line makes a node its own neighbour, not even one that names the node
/// among its neighbours.
pub proof fn lemma_no_node_lists_itself(g: Adjacency, tokens: Seq<Seq<char>>, name: Seq<char>)
    requires
        undirected(g),
        ingest(g, tokens).contains_key(name),
    ensures
        !ingest(g, tokens)[name].contains(name),
{
    lemma_ingest_undirected(g, tokens);
}

/// A merge only adds: every node stays a node and keeps every neighbour it
/// had, whatever the line declares.
pub proof fn lemma_ingest_is_additive(g: Adjacency, tokens: Seq<Seq<char>>)
    ensures
        forall|name: Seq<char>|
            g.contains_key(name) ==> #[trigger] ingest(g, tokens).contains_key(name) && g[name].subset_of(
                ingest(g, tokens)[name],
            ),
{
}

/// A line merged a second time changes nothing.
pub proof fn lemma_ingest_is_idempotent(g: Adjacency, tokens: Seq<Seq<char>>)
    ensures
        ingest(ingest(g, tokens), tokens) == ingest(g, tokens),
{
    assert(ingest(ingest(g, tokens), tokens) =~~= ingest(g, tokens));
}

/// The order in which two lines are merged does not matter.
pub proof fn lemma_ingest_commutes(g: Adjacency, first: Seq<Seq<char>>, second: Seq<Seq<char>>)
    ensures
        ingest(ingest(g, first), second) == ingest(ingest(g, second), first),
{
    assert(ingest(ingest(g, first), second) =~~= ingest(ingest(g, second), first));
}

/// The answer for a way from a node to itself is the node alone, and for a
/// name that is no node the empty path.
pub proof fn lemma_answer_to_self(g: Adjacency, node: Seq<char>, path: Seq<Seq<char>>)
    requires
        answers(g, node, node, path),
    ensures
        path == if g.contains_key(node) {
            seq![node]
        } else {
            Seq::empty()
        },
{
    if g.contains_key(node) {
        assert(is_path(g, seq![node], node, node));
        lemma_shortest_to_self(g, path, node);
    } else {
        lemma_unknown_end(g, node, node);
        assert(path =~= Seq::empty());
    }
}

/// The answer is the empty path when either end is no node of the graph.
pub proof fn lemma_answer_for_unknown(
    g: Adjacency,
    from: Seq<char>,
    to: Seq<char>,
    path: Seq<Seq<char>>,
)
    requires
        answers(g, from, to, path),
        !g.contains_key(from) || !g.contains_key(to),
    ensures
        path.len() == 0,
{
    lemma_unknown_end(g, from, to);
}

/// The answer for two connected nodes has one node more than their distance
/// has edges.
pub proof fn lemma_answer_has_distance(
    g: Adjacency,
    from: Seq<char>,
    to: Seq<char>,
    path: Seq<Seq<char>>,
)
    requires
        answers(g, from, to, path),
        connected(g, from, to),
    ensures
        path.len() - 1 == distance(g, from, to),
{
    lemma_shortest_distance(g, path, from, to);
}

/// Two answers to one query on one graph have the same length, though they
/// may be different paths.
pub proof fn lemma_answers_agree_in_length(
    g: Adjacency,
    from: Seq<char>,
    to: Seq<char>,
    first: Seq<Seq<char>>,
    second: Seq<Seq<char>>,
)
    requires
        answers(g, from, to, first),
        answers(g, from, to, second),
    ensures
        first.len() == second.len(),
{
    if connected(g, from, to) {
        assert(is_path(g, first, from, to));
        assert(is_path(g, second, from, to));
    }
}

/// Whether `to` lies within `steps` edges of `from`, told layer by layer as
/// a breadth-first search finds the nodes: a node lies within no step of
/// itself, and within one step more lies every neighbour of what lay within
/// the steps before.
pub open spec fn within(g: Adjacency, from: Seq<char>, to: Seq<char>, steps: nat) -> bool
    decreases steps,
{
    if steps == 0 {
        from == to && g.contains_key(from)
    } else {
        within(g, from, to, (steps - 1) as nat) || exists|near: Seq<char>|
            within(g, from, near, (steps - 1) as nat) && g.contains_key(to) && #[trigger] g[near].contains(
                to,
            )
    }
}

/// Where a path ends lies within as many steps of its start as the path has
/// edges.
pub proof fn lemma_path_stays_within(
    g: Adjacency,
    path: Seq<Seq<char>>,
    from: Seq<char>,
    to: Seq<char>,
)
    requires
        is_path(g, path, from, to),
    ensures
        within(g, from, to, (path.len() - 1) as nat),
    decreases path.len(),
{
    if path.len() > 1 {
        let shorter = path.drop_last();
        let near = shorter.last();
        assert(is_path(g, shorter, from, near)) by {
            assert forall|i: int| 0 <= i < shorter.len() implies g.contains_key(
                #[trigger] shorter[i],
            ) by {
                assert(shorter[i] == path[i]);
            }
            assert forall|i: int| 0 <= i < shorter.len() - 1 implies g[#[trigger] shorter[i]].contains(
                shorter[i + 1],
            ) by {
                assert(shorter[i] == path[i]);
            }
        }
        lemma_path_stays_within(g, shorter, from, near);
        assert(near == path[path.len() - 2]);
        assert(g[near].contains(to));
        assert(g.contains_key(path[path.len() - 1]));
    } else {
        assert(g.contains_key(path[0]));
    }
}

/// To what lies within some steps of a node a path leads that has no more
/// edges than that.
pub proof fn lemma_within_has_path(g: Adjacency, from: Seq<char>, to: Seq<char>, steps: nat) -> (path:
    Seq<Seq<char>>)
    requires
        within(g, from, to, steps),
    ensures
        is_path(g, path, from, to),
        path.len() <= steps + 1,
    decreases steps,
{
    if steps == 0 {
        seq![from]
    } else if within(g, from, to, (steps - 1) as nat) {
        lemma_within_has_path(g, from, to, (steps - 1) as nat)
    } else {
        let near = choose|near: Seq<char>|
            within(g, from, near, (steps - 1) as nat) && g.contains_key(to) && #[trigger] g[near].contains(
                to,
            );
        let shorter = lemma_within_has_path(g, from, near, (steps - 1) as nat);
        let path = shorter.push(to);
        assert forall|i: int| 0 <= i < path.len() implies g.contains_key(#[trigger] path[i]) by {
            if i < shorter.len() {
                assert(path[i] == shorter[i]);
            }
        }
        assert forall|i: int| 0 <= i < path.len() - 1 implies g[#[trigger] path[i]].contains(
            path[i + 1],
        ) by {
            assert(path[i] == shorter[i]);
            if i + 1 < shorter.len() {
                assert(path[i + 1] == shorter[i + 1]);
            }
        }
        path
    }
}

/// The distance of two connected nodes is the number of the first layer in
/// which a breadth-first search from the one finds the other.
pub proof fn lemma_distance_is_first_layer(g: Adjacency, from: Seq<char>, to: Seq<char>)
    requires
        connected(g, from, to),
    ensures
        distance(g, from, to) >= 0,
        within(g, from, to, distance(g, from, to) as nat),
        forall|steps: nat| steps < distance(g, from, to) ==> !within(g, from, to, steps),
{
    let some = choose|path: Seq<Seq<char>>| is_path(g, path, from, to);
    let best = lemma_shortest_exists(g, some, from, to);
    lemma_shortest_distance(g, best, from, to);
    lemma_path_stays_within(g, best, from, to);
    assert forall|steps: nat| steps < distance(g, from, to) implies !within(g, from, to, steps) by {
        if within(g, from, to, steps) {
            let path = lemma_within_has_path(g, from, to, steps);
            assert(best.len() <= path.len());
        }
    }
}

} // verus!
