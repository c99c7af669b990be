//! The adjacency store: which nodes are known and which nodes each one
//! touches.

use vstd::hash_map::StringHashMap;
use vstd::prelude::*;

verus! {

/// The name of a node.
pub type NodeName = String;

/// The mathematical graph: every known node, with the set of its neighbours.
pub type Adjacency = Map<Seq<char>, Set<Seq<char>>>;

/// The neighbours of `name` in `g`; none if `name` is not a node of `g`.
pub open spec fn neighbours(g: Adjacency, name: Seq<char>) -> Set<Seq<char>> {
    if g.contains_key(name) {
        g[name]
    } else {
        Set::empty()
    }
}

/// Whether `g` is a finite undirected graph without loops: every neighbour is
/// itself a node, lists the node back, and is not the node itself.
pub open spec fn undirected(g: Adjacency) -> bool {
    &&& g.dom().finite()
    &&& forall|a: Seq<char>| #[trigger] g.contains_key(a) ==> g[a].finite()
    &&& forall|a: Seq<char>, b: Seq<char>|
        g.contains_key(a) && #[trigger] g[a].contains(b) ==> {
            &&& a != b
            &&& g.contains_key(b)
            &&& g[b].contains(a)
        }
}

/// The neighbours that a line declares for its node: the words after the
/// first, without the node's own name.
pub open spec fn declared(tokens: Seq<Seq<char>>) -> Set<Seq<char>>
    recommends
        tokens.len() > 0,
{
    tokens.skip(1).to_set().remove(tokens[0])
}

/// The neighbours that the first `upto` words of a line declare for the
/// line's node.
spec fn declared_upto(tokens: Seq<Seq<char>>, upto: int) -> Set<Seq<char>> {
    tokens.subrange(1, upto).to_set().remove(tokens[0])
}

/// The graph after the line `tokens` is merged into `g`.
///
/// An empty line changes nothing. Otherwise the first word names a node and
/// the others its neighbours: the node and the neighbours become nodes if
/// they were not, each neighbour is added to the node's set and the node to
/// each neighbour's set. Nothing that `g` held is lost, and the node is never
/// made its own neighbour.
pub open spec fn ingest(g: Adjacency, tokens: Seq<Seq<char>>) -> Adjacency {
    if tokens.len() == 0 {
        g
    } else {
        Map::new(
            |name: Seq<char>|
                g.contains_key(name) || name == tokens[0] || declared(tokens).contains(name),
            |name: Seq<char>|
                neighbours(g, name) + if name == tokens[0] {
                    declared(tokens)
                } else if declared(tokens).contains(name) {
                    set![tokens[0]]
                } else {
                    Set::empty()
                },
        )
    }
}

/// The graph part-way through a merge: the node of the line `tokens` has all
/// its declared neighbours, and the neighbours among the first `upto` words
/// have the node.
spec fn ingest_upto(g: Adjacency, tokens: Seq<Seq<char>>, upto: int) -> Adjacency {
    Map::new(
        |name: Seq<char>|
            g.contains_key(name) || name == tokens[0] || declared_upto(tokens, upto).contains(
                name,
            ),
        |name: Seq<char>|
            neighbours(g, name) + if name == tokens[0] {
                declared(tokens)
            } else if declared_upto(tokens, upto).contains(name) {
                set![tokens[0]]
            } else {
                Set::empty()
            },
    )
}

/// Merging a line into an undirected graph leaves it undirected.
pub proof fn lemma_ingest_undirected(g: Adjacency, tokens: Seq<Seq<char>>)
    requires
        undirected(g),
    ensures
        undirected(ingest(g, tokens)),
{
    if tokens.len() > 0 {
        let after = ingest(g, tokens);
        let fresh = declared(tokens);
        assert(fresh.finite()) by {
            vstd::seq_lib::seq_to_set_is_finite(tokens.skip(1));
        }
        assert(after.dom() =~= g.dom() + fresh.insert(tokens[0]));
    }
}

/// One more word of the line adds itself to the declared neighbours, unless
/// it is the node's own name.
proof fn lemma_declared_step(tokens: Seq<Seq<char>>, upto: int)
    requires
        1 <= upto < tokens.len(),
    ensures
        declared_upto(tokens, upto + 1) == if tokens[upto] == tokens[0] {
            declared_upto(tokens, upto)
        } else {
            declared_upto(tokens, upto).insert(tokens[upto])
        },
{
    let shorter = tokens.subrange(1, upto);
    assert(tokens.subrange(1, upto + 1) =~= shorter.push(tokens[upto]));
    shorter.lemma_push_to_set_commute(tokens[upto]);
    assert(declared_upto(tokens, upto + 1) =~= shorter.to_set().insert(tokens[upto]).remove(
        tokens[0],
    ));
    if tokens[upto] == tokens[0] {
        assert(declared_upto(tokens, upto + 1) =~= declared_upto(tokens, upto));
    } else {
        assert(declared_upto(tokens, upto + 1) =~= declared_upto(tokens, upto).insert(
            tokens[upto],
        ));
    }
}

/// Whether `list` holds a name with the characters of `name`.
fn holds(list: &Vec<NodeName>, name: &NodeName) -> (found: bool)
    ensures
        found == list.deep_view().contains(name@),
{
    let mut i: usize = 0;
    while i < list.len()
        invariant
            i <= list.len(),
            forall|j: int| 0 <= j < i ==> list.deep_view()[j] != name@,
        decreases list.len() - i,
    {
        if list[i] == *name {
            assert(list.deep_view()[i as int] == name@);
            return true;
        }
        i += 1;
    }
    false
}

/// A copy of `list`, name by name.
pub(crate) fn duplicate(list: &Vec<NodeName>) -> (copy: Vec<NodeName>)
    ensures
        copy.deep_view() == list.deep_view(),
{
    let mut copy: Vec<NodeName> = Vec::new();
    let mut i: usize = 0;
    while i < list.len()
        invariant
            i <= list.len(),
            copy.len() == i,
            forall|j: int| 0 <= j < i ==> copy[j]@ == list[j]@,
        decreases list.len() - i,
    {
        copy.push(list[i].clone());
        i += 1;
    }
    assert(copy.deep_view() =~= list.deep_view());
    copy
}

/// An undirected graph of named nodes.
///
/// Each node owns the list of its neighbours' names; a list never holds a
/// name twice.
pub struct Graph {
    nodes: StringHashMap<Vec<NodeName>>,
}

impl View for Graph {
    type V = Adjacency;

    closed spec fn view(&self) -> Adjacency {
        Map::new(
            |name: Seq<char>| self.nodes@.contains_key(name),
            |name: Seq<char>| self.nodes@[name].deep_view().to_set(),
        )
    }
}

impl Graph {
    /// What the representation maintains beyond the graph it stands for.
    pub closed spec fn inv(&self) -> bool {
        &&& self.nodes@.dom().finite()
        &&& forall|name: Seq<char>| #[trigger]
            self.nodes@.contains_key(name) ==> self.nodes@[name].deep_view().no_duplicates()
    }

    /// Well-formedness: the representation is sound and the graph it stands
    /// for is undirected.
    pub open spec fn wf(&self) -> bool {
        &&& self.inv()
        &&& undirected(self@)
    }

    /// A graph without nodes.
    pub fn new() -> (graph: Self)
        ensures
            graph.wf(),
            graph@ == Map::<Seq<char>, Set<Seq<char>>>::empty(),
    {
        let graph = Graph { nodes: StringHashMap::new() };
        assert(graph@ =~= Map::<Seq<char>, Set<Seq<char>>>::empty());
        graph
    }

    /// The number of nodes.
    pub fn len(&self) -> (count: usize)
        ensures
            count == self@.dom().len(),
    {
        assert(self@.dom() =~= self.nodes@.dom());
        self.nodes.len()
    }

    /// Merges one line into the graph, and empties the line.
    ///
    /// The first word names a node, the others its neighbours; a line without
    /// words changes nothing. See [`ingest`] for the graph that results.
    pub fn add_nodes(&mut self, new_nodes_str: &mut Vec<NodeName>)
        requires
            old(self).wf(),
        ensures
            final(self).wf(),
            final(self)@ == ingest(old(self)@, old(new_nodes_str).deep_view()),
            final(new_nodes_str)@.len() == 0,
    {
        if new_nodes_str.len() == 0 {
            return ;
        }
        let ghost tokens = new_nodes_str.deep_view();
        let ghost before = self@;
        let node: NodeName = new_nodes_str[0].clone();
        let mut own: Vec<NodeName> = match self.nodes.get(node.as_str()) {
            Some(list) => duplicate(list),
            None => Vec::new(),
        };
        let mut i: usize = 1;
        while i < new_nodes_str.len()
            invariant
                1 <= i <= new_nodes_str.len(),
                tokens == new_nodes_str.deep_view(),
                node@ == tokens[0],
                own.deep_view().no_duplicates(),
                own.deep_view().to_set() == neighbours(before, node@) + declared_upto(
                    tokens,
                    i as int,
                ),
            decreases new_nodes_str.len() - i,
        {
            let ghost seen = own.deep_view();
            if !(new_nodes_str[i] == node) && !holds(&own, &new_nodes_str[i]) {
                own.push(new_nodes_str[i].clone());
                assert(own.deep_view() =~= seen.push(tokens[i as int]));
                proof {
                    seen.lemma_push_to_set_commute(tokens[i as int]);
                }
            }
            proof {
                lemma_declared_step(tokens, i as int);
            }
            assert(own.deep_view().to_set() =~= neighbours(before, node@) + declared_upto(
                tokens,
                i + 1,
            ));
            i += 1;
        }
        self.nodes.insert(node.clone(), own);
        assert(self@ =~~= ingest_upto(before, tokens, 1));
        let mut i: usize = 1;
        while i < new_nodes_str.len()
            invariant
                1 <= i <= new_nodes_str.len(),
                tokens == new_nodes_str.deep_view(),
                node@ == tokens[0],
                undirected(before),
                self.inv(),
                self@ == ingest_upto(before, tokens, i as int),
            decreases new_nodes_str.len() - i,
        {
            let ghost reached = self@;
            let ghost word = tokens[i as int];
            if !(new_nodes_str[i] == node) {
                let mut theirs: Vec<NodeName> = match self.nodes.get(new_nodes_str[i].as_str()) {
                    Some(list) => duplicate(list),
                    None => Vec::new(),
                };
                let ghost seen = theirs.deep_view();
                if !holds(&theirs, &node) {
                    theirs.push(node.clone());
                    assert(theirs.deep_view() =~= seen.push(node@));
                    proof {
                        seen.lemma_push_to_set_commute(node@);
                    }
                }
                assert(theirs.deep_view().to_set() =~= neighbours(reached, word).insert(node@));
                self.nodes.insert(new_nodes_str[i].clone(), theirs);
                assert(self@ =~~= reached.insert(word, neighbours(reached, word).insert(node@)));
            }
            proof {
                lemma_declared_step(tokens, i as int);
            }
            assert(self@ =~~= ingest_upto(before, tokens, i + 1));
            i += 1;
        }
        assert(tokens.subrange(1, tokens.len() as int) =~= tokens.skip(1));
        assert(self@ =~~= ingest(before, tokens));
        proof {
            lemma_ingest_undirected(before, tokens);
        }
        new_nodes_str.clear();
    }

    /// The neighbours of the node called `find`, or `None` if there is no
    /// such node.
    pub fn find_node(&self, find: &str) -> (found: Option<&Vec<NodeName>>)
        requires
            self.wf(),
        ensures
            match found {
                Some(list) => {
                    &&& self@.contains_key(find@)
                    &&& list.deep_view().to_set() == self@[find@]
                    &&& list.deep_view().no_duplicates()
                },
                None => !self@.contains_key(find@),
            },
    {
        self.nodes.get(find)
    }
}

} // verus!
