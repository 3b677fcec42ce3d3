//! A nondeterministic finite automaton over edges, with epsilon moves and
//! several start nodes, held in a `petgraph` graph; and the automaton of one
//! expanded name.
use vstd::prelude::*;
use crate::edges::{Edge, EdgeInterner};
use crate::names::{edge_of_text, extends, passes_of, variant_texts, DisambNameData, lemma_expanded_step, expanded};
use crate::style::GivenNameDisambiguationRule;
use petgraph::graph::{Graph, NodeIndex};
use petgraph::Directed;

verus! {

/// The label of an automaton edge: a move that reads nothing, or one that
/// reads one edge of the stream.
#[derive(Debug, PartialEq, Eq, Structural, Copy, Clone)]
pub enum NfaEdge {
    Epsilon,
    Token(Edge),
}

/// The label as a plain value: `None` for epsilon, the edge number otherwise.
pub open spec fn label_of(e: NfaEdge) -> Option<u32> {
    match e {
        NfaEdge::Epsilon => None,
        NfaEdge::Token(t) => Some(t.0),
    }
}

/// The directed-graph marker of `petgraph`, as an opaque type.
#[verifier::external_type_specification]
#[verifier::external_body]
pub struct ExDirected(Directed);

/// The graph of `petgraph`, as an opaque type.
#[verifier::external_type_specification]
#[verifier::external_body]
#[verifier::reject_recursive_types(N)]
#[verifier::reject_recursive_types(E)]
#[verifier::reject_recursive_types(Ty)]
#[verifier::reject_recursive_types(Ix)]
pub struct ExGraph<N, E, Ty, Ix>(Graph<N, E, Ty, Ix>);

/// How many nodes an automaton graph has.
pub uninterp spec fn graph_node_count(g: Graph<(), NfaEdge>) -> nat;

/// The edges of an automaton graph, in the order they were added: source,
/// target and label.
pub uninterp spec fn graph_edges(g: Graph<(), NfaEdge>) -> Seq<(usize, usize, Option<u32>)>;

/// Relies on `Graph::new`: a graph with no nodes and no edges.
#[verifier::external_body]
fn graph_new() -> (g: Graph<(), NfaEdge>)
    ensures
        graph_node_count(g) == 0,
        graph_edges(g) == Seq::<(usize, usize, Option<u32>)>::empty(),
{
    Graph::new()
}

/// Relies on `Graph::add_node`: the new node's index is the old node count.
/// It panics at the index type's maximum, which `requires` leaves out.
#[verifier::external_body]
fn graph_add_node(g: &mut Graph<(), NfaEdge>) -> (n: usize)
    requires
        graph_node_count(*old(g)) + 1 < u32::MAX,
    ensures
        n == graph_node_count(*old(g)),
        graph_node_count(*final(g)) == graph_node_count(*old(g)) + 1,
        graph_edges(*final(g)) == graph_edges(*old(g)),
{
    g.add_node(()).index()
}

/// Relies on `Graph::add_edge`: the edge is stored after the others. It
/// panics on a missing node or at the index type's maximum, which `requires`
/// leaves out.
#[verifier::external_body]
fn graph_add_edge(g: &mut Graph<(), NfaEdge>, a: usize, b: usize, w: NfaEdge)
    requires
        a < graph_node_count(*old(g)),
        b < graph_node_count(*old(g)),
        graph_edges(*old(g)).len() + 1 < u32::MAX,
    ensures
        graph_node_count(*final(g)) == graph_node_count(*old(g)),
        graph_edges(*final(g)) == graph_edges(*old(g)).push((a, b, label_of(w))),
{
    g.add_edge(NodeIndex::new(a), NodeIndex::new(b), w);
}

/// Relies on `Graph::raw_edges`: the edge array, in the order of addition.
#[verifier::external_body]
fn graph_edge_list(g: &Graph<(), NfaEdge>) -> (r: Vec<(usize, usize, NfaEdge)>)
    ensures
        r@.len() == graph_edges(*g).len(),
        forall|i: int|
            0 <= i < r@.len() ==> (#[trigger] r@[i]).0 == graph_edges(*g)[i].0 && r@[i].1 == graph_edges(
                *g,
            )[i].1 && label_of(r@[i].2) == graph_edges(*g)[i].2,
{
    g.raw_edges().iter().map(|e| (e.source().index(), e.target().index(), e.weight)).collect()
}

/// Relies on `Graph::node_count`: the number of nodes.
#[verifier::external_body]
fn graph_node_count_of(g: &Graph<(), NfaEdge>) -> (n: usize)
    ensures
        n == graph_node_count(*g),
{
    g.node_count()
}

/// An automaton: a graph, its start nodes and its accepting nodes.
pub struct Nfa {
    pub graph: Graph<(), NfaEdge>,
    pub start: Vec<usize>,
    pub accepting: Vec<usize>,
}

/// The nodes reached from `s` by at most one epsilon move.
pub open spec fn eps_step(edges: Seq<(usize, usize, Option<u32>)>, s: Set<usize>) -> Set<usize> {
    s.union(
        Set::new(
            |t: usize|
                exists|i: int|
                    0 <= i < edges.len() && (#[trigger] edges[i]).1 == t && edges[i].2 is None && s.contains(
                        edges[i].0,
                    ),
        ),
    )
}

/// The nodes reached from `s` by at most `k` epsilon moves.
pub open spec fn eps_close(edges: Seq<(usize, usize, Option<u32>)>, s: Set<usize>, k: nat) -> Set<usize>
    decreases k,
{
    if k == 0 {
        s
    } else {
        eps_step(edges, eps_close(edges, s, (k - 1) as nat))
    }
}

/// The nodes reached from `s` by one move that reads `e`.
pub open spec fn tok_step(edges: Seq<(usize, usize, Option<u32>)>, s: Set<usize>, e: u32) -> Set<usize> {
    Set::new(
        |t: usize|
            exists|i: int|
                0 <= i < edges.len() && (#[trigger] edges[i]).1 == t && edges[i].2 == Some(e) && s.contains(
                    edges[i].0,
                ),
    )
}

/// The nodes reached after reading `stream`, epsilon moves included (as many
/// rounds of them as there are nodes, which reach every node that any number
/// of them reaches).
pub open spec fn run_nodes(n: nat, edges: Seq<(usize, usize, Option<u32>)>, start: Set<usize>, stream: Seq<u32>) -> Set<usize>
    decreases stream.len(),
{
    if stream.len() == 0 {
        eps_close(edges, start, n)
    } else {
        eps_close(edges, tok_step(edges, run_nodes(n, edges, start, stream.drop_last()), stream.last()), n)
    }
}

impl Nfa {
    /// The number of nodes.
    pub open spec fn node_count(&self) -> nat {
        graph_node_count(self.graph)
    }

    /// The edges, in order of addition.
    pub open spec fn edge_seq(&self) -> Seq<(usize, usize, Option<u32>)> {
        graph_edges(self.graph)
    }

    /// Every edge, start node and accepting node names a node of the graph.
    pub open spec fn wf(&self) -> bool {
        &&& forall|i: int|
            0 <= i < self.edge_seq().len() ==> (#[trigger] self.edge_seq()[i]).0 < self.node_count()
                && self.edge_seq()[i].1 < self.node_count()
        &&& forall|i: int| 0 <= i < self.start@.len() ==> (#[trigger] self.start@[i]) < self.node_count()
        &&& forall|i: int| 0 <= i < self.accepting@.len() ==> (#[trigger] self.accepting@[i]) < self.node_count()
    }

    /// Whether the automaton accepts `stream`: some path from a start node
    /// reads all of it and ends in an accepting node.
    pub open spec fn accepts_spec(&self, stream: Seq<u32>) -> bool {
        exists|i: int|
            0 <= i < self.accepting@.len() && run_nodes(
                self.node_count(),
                self.edge_seq(),
                self.start@.to_set(),
                stream,
            ).contains(#[trigger] self.accepting@[i])
    }

    /// An automaton with no nodes.
    pub fn new() -> (r: Nfa)
        ensures
            r.wf(),
            r.node_count() == 0,
            r.edge_seq().len() == 0,
            r.start@.len() == 0,
            r.accepting@.len() == 0,
    {
        let r = Nfa { graph: graph_new(), start: Vec::new(), accepting: Vec::new() };
        assert(r.edge_seq().len() == 0);
        r
    }

    /// Adds a node and returns its index.
    pub fn add_node(&mut self) -> (n: usize)
        requires
            old(self).wf(),
            old(self).node_count() + 1 < u32::MAX,
        ensures
            final(self).wf(),
            n == old(self).node_count(),
            final(self).node_count() == old(self).node_count() + 1,
            final(self).edge_seq() == old(self).edge_seq(),
            final(self).start == old(self).start,
            final(self).accepting == old(self).accepting,
    {
        let n = graph_add_node(&mut self.graph);
        proof {
            assert forall|i: int| 0 <= i < self.edge_seq().len() implies (#[trigger] self.edge_seq()[i]).0
                < self.node_count() && self.edge_seq()[i].1 < self.node_count() by {
                assert(self.edge_seq()[i] == old(self).edge_seq()[i]);
            }
            assert forall|i: int| 0 <= i < self.start@.len() implies (#[trigger] self.start@[i]) < self.node_count() by {
                assert(self.start@[i] == old(self).start@[i]);
            }
            assert forall|i: int| 0 <= i < self.accepting@.len() implies (#[trigger] self.accepting@[i]) < self.node_count() by {
                assert(self.accepting@[i] == old(self).accepting@[i]);
            }
        }
        n
    }

    /// Adds an edge from `from` to `to`.
    pub fn add_edge(&mut self, from: usize, to: usize, label: NfaEdge)
        requires
            old(self).wf(),
            from < old(self).node_count(),
            to < old(self).node_count(),
            old(self).edge_seq().len() + 1 < u32::MAX,
        ensures
            final(self).wf(),
            final(self).node_count() == old(self).node_count(),
            final(self).edge_seq() == old(self).edge_seq().push((from, to, label_of(label))),
            final(self).start == old(self).start,
            final(self).accepting == old(self).accepting,
    {
        graph_add_edge(&mut self.graph, from, to, label);
        proof {
            assert forall|i: int| 0 <= i < self.edge_seq().len() implies (#[trigger] self.edge_seq()[i]).0
                < self.node_count() && self.edge_seq()[i].1 < self.node_count() by {
                if i < old(self).edge_seq().len() {
                    assert(self.edge_seq()[i] == old(self).edge_seq()[i]);
                }
            }
            assert forall|i: int| 0 <= i < self.start@.len() implies (#[trigger] self.start@[i]) < self.node_count() by {
                assert(self.start@[i] == old(self).start@[i]);
            }
            assert forall|i: int| 0 <= i < self.accepting@.len() implies (#[trigger] self.accepting@[i]) < self.node_count() by {
                assert(self.accepting@[i] == old(self).accepting@[i]);
            }
        }
    }

    /// Makes `node` a start node.
    pub fn mark_start(&mut self, node: usize)
        requires
            old(self).wf(),
            node < old(self).node_count(),
        ensures
            final(self).wf(),
            final(self).start@ == old(self).start@.push(node),
            final(self).graph == old(self).graph,
            final(self).accepting == old(self).accepting,
    {
        self.start.push(node);
        assert(self.edge_seq() == old(self).edge_seq());
        assert forall|i: int| 0 <= i < self.edge_seq().len() implies (#[trigger] self.edge_seq()[i]).0
            < self.node_count() && self.edge_seq()[i].1 < self.node_count() by {
            assert(self.edge_seq()[i] == old(self).edge_seq()[i]);
        }
        assert forall|i: int| 0 <= i < self.start@.len() implies (#[trigger] self.start@[i]) < self.node_count() by {
            if i < old(self).start@.len() {
                assert(self.start@[i] == old(self).start@[i]);
            }
        }
    }

    /// Makes `node` an accepting node.
    pub fn mark_accept(&mut self, node: usize)
        requires
            old(self).wf(),
            node < old(self).node_count(),
        ensures
            final(self).wf(),
            final(self).accepting@ == old(self).accepting@.push(node),
            final(self).graph == old(self).graph,
            final(self).start == old(self).start,
    {
        self.accepting.push(node);
        assert(self.edge_seq() == old(self).edge_seq());
        assert forall|i: int| 0 <= i < self.edge_seq().len() implies (#[trigger] self.edge_seq()[i]).0
            < self.node_count() && self.edge_seq()[i].1 < self.node_count() by {
            assert(self.edge_seq()[i] == old(self).edge_seq()[i]);
        }
        assert forall|i: int| 0 <= i < self.accepting@.len() implies (#[trigger] self.accepting@[i]) < self.node_count() by {
            if i < old(self).accepting@.len() {
                assert(self.accepting@[i] == old(self).accepting@[i]);
            }
        }
    }
}

/// The nodes that a membership vector holds.
pub open spec fn bits_set(v: Seq<bool>) -> Set<usize> {
    Set::new(|t: usize| (t as int) < v.len() && v[t as int])
}

/// The labels of an exec edge list, as plain values.
pub open spec fn edge_view(v: Seq<(usize, usize, NfaEdge)>) -> Seq<(usize, usize, Option<u32>)> {
    v.map_values(|x: (usize, usize, NfaEdge)| (x.0, x.1, label_of(x.2)))
}

/// The edge numbers of a stream.
pub open spec fn stream_ids(s: Seq<Edge>) -> Seq<u32> {
    s.map_values(|e: Edge| e.0)
}

/// All endpoints name one of `n` nodes.
pub open spec fn edges_within(edges: Seq<(usize, usize, Option<u32>)>, n: nat) -> bool {
    forall|i: int| 0 <= i < edges.len() ==> (#[trigger] edges[i]).0 < n && edges[i].1 < n
}

/// One round of moves over `edges` from the nodes of `cur`: epsilon moves
/// (which keep the nodes already held) where `token` is `None`, moves that
/// read `token` otherwise.
fn move_round(edges: &Vec<(usize, usize, NfaEdge)>, cur: &Vec<bool>, token: Option<Edge>) -> (r: Vec<bool>)
    requires
        edges_within(edge_view(edges@), cur@.len()),
    ensures
        r@.len() == cur@.len(),
        token is None ==> bits_set(r@) == eps_step(edge_view(edges@), bits_set(cur@)),
        token is Some ==> bits_set(r@) == tok_step(edge_view(edges@), bits_set(cur@), (token->0).0),
{
    let ghost ev = edge_view(edges@);
    let n = cur.len();
    let mut r: Vec<bool> = Vec::new();
    let mut k: usize = 0;
    while k < n
        invariant
            n == cur@.len(),
            0 <= k <= n,
            r@.len() == k,
            forall|t: int| 0 <= t < k ==> #[trigger] r@[t] == (token is None && cur@[t]),
        decreases n - k,
    {
        r.push(token.is_none() && cur[k]);
        k = k + 1;
    }
    let mut i: usize = 0;
    while i < edges.len()
        invariant
            ev == edge_view(edges@),
            edges_within(ev, n as nat),
            n == cur@.len(),
            r@.len() == n,
            0 <= i <= edges@.len(),
            forall|t: int|
                0 <= t < n ==> #[trigger] r@[t] == ((token is None && cur@[t]) || exists|j: int|
                    0 <= j < i && (#[trigger] ev[j]).1 == t && ev[j].2 == (match token {
                        Some(e) => Some(e.0),
                        None => None::<u32>,
                    }) && cur@[ev[j].0 as int]),
        decreases edges@.len() - i,
    {
        let (s, t, w) = edges[i];
        proof {
            assert(ev[i as int] == (s, t, label_of(w)));
        }
        let fires = match (w, token) {
            (NfaEdge::Epsilon, None) => true,
            (NfaEdge::Token(a), Some(b)) => a.0 == b.0,
            _ => false,
        };
        let ghost want = match token {
            Some(e) => Some(e.0),
            None => None::<u32>,
        };
        assert(fires == (label_of(w) == want));
        if fires && cur[s] {
            r.set(t, true);
        }
        proof {
            assert forall|u: int| 0 <= u < n implies #[trigger] r@[u] == ((token is None && cur@[u]) || exists|j: int|
                0 <= j < i + 1 && (#[trigger] ev[j]).1 == u && ev[j].2 == want && cur@[ev[j].0 as int]) by {
                if fires && cur@[s as int] && u == t {
                    assert(ev[i as int].1 == u);
                }
                if exists|j: int| 0 <= j < i + 1 && (#[trigger] ev[j]).1 == u && ev[j].2 == want && cur@[ev[j].0 as int] {
                    let j = choose|j: int| 0 <= j < i + 1 && (#[trigger] ev[j]).1 == u && ev[j].2 == want && cur@[ev[j].0 as int];
                    if j < i {
                        assert(exists|j2: int| 0 <= j2 < i && (#[trigger] ev[j2]).1 == u && ev[j2].2 == want && cur@[ev[j2].0 as int]);
                    }
                }
            }
        }
        i = i + 1;
    }
    proof {
        let want = match token {
            Some(e) => Some(e.0),
            None => None::<u32>,
        };
        if token is None {
            assert forall|u: usize| #[trigger] bits_set(r@).contains(u) == eps_step(ev, bits_set(cur@)).contains(u) by {
                if eps_step(ev, bits_set(cur@)).contains(u) && !bits_set(cur@).contains(u) {
                    let j = choose|j: int| 0 <= j < ev.len() && (#[trigger] ev[j]).1 == u && ev[j].2 is None && bits_set(cur@).contains(ev[j].0);
                    assert(ev[j].2 == want);
                }
                if bits_set(r@).contains(u) && !bits_set(cur@).contains(u) {
                    let j = choose|j: int| 0 <= j < ev.len() && (#[trigger] ev[j]).1 == u && ev[j].2 == want && cur@[ev[j].0 as int];
                    assert(bits_set(cur@).contains(ev[j].0));
                }
            }
            assert(bits_set(r@) =~= eps_step(ev, bits_set(cur@)));
        } else {
            assert forall|u: usize| #[trigger] bits_set(r@).contains(u) == tok_step(ev, bits_set(cur@), (token->0).0).contains(u) by {
                if tok_step(ev, bits_set(cur@), (token->0).0).contains(u) {
                    let j = choose|j: int| 0 <= j < ev.len() && (#[trigger] ev[j]).1 == u && ev[j].2 == Some((token->0).0) && bits_set(cur@).contains(ev[j].0);
                    assert(ev[j].2 == want);
                }
                if bits_set(r@).contains(u) {
                    let j = choose|j: int| 0 <= j < ev.len() && (#[trigger] ev[j]).1 == u && ev[j].2 == want && cur@[ev[j].0 as int];
                    assert(bits_set(cur@).contains(ev[j].0));
                }
            }
            assert(bits_set(r@) =~= tok_step(ev, bits_set(cur@), (token->0).0));
        }
    }
    r
}

/// `n` rounds of epsilon moves from `cur`.
fn close_over(edges: &Vec<(usize, usize, NfaEdge)>, cur: Vec<bool>) -> (r: Vec<bool>)
    requires
        edges_within(edge_view(edges@), cur@.len()),
    ensures
        r@.len() == cur@.len(),
        bits_set(r@) == eps_close(edge_view(edges@), bits_set(cur@), cur@.len()),
{
    let n = cur.len();
    let ghost start = bits_set(cur@);
    let mut r = cur;
    let mut k: usize = 0;
    while k < n
        invariant
            n == r@.len(),
            0 <= k <= n,
            edges_within(edge_view(edges@), n as nat),
            bits_set(r@) == eps_close(edge_view(edges@), start, k as nat),
        decreases n - k,
    {
        r = move_round(edges, &r, None);
        k = k + 1;
    }
    r
}

impl Nfa {
    /// Whether the automaton accepts `stream`, by subset construction with
    /// epsilon closure.
    pub fn accepts(&self, stream: &[Edge]) -> (r: bool)
        requires
            self.wf(),
        ensures
            r == self.accepts_spec(stream_ids(stream@)),
    {
        let edges = graph_edge_list(&self.graph);
        let ghost ev = edge_view(edges@);
        proof {
            assert(ev =~= self.edge_seq()) by {
                assert forall|i: int| 0 <= i < ev.len() implies ev[i] == self.edge_seq()[i] by {
                    assert(edges@[i].0 == self.edge_seq()[i].0);
                }
            }
        }
        let n = graph_node_count_of(&self.graph);
        let mut cur: Vec<bool> = Vec::new();
        let mut k: usize = 0;
        while k < n
            invariant
                0 <= k <= n,
                cur@.len() == k,
                forall|t: int| 0 <= t < k ==> #[trigger] cur@[t] == self.start@.contains(t as usize),
            decreases n - k,
        {
            let mut hit = false;
            let mut j: usize = 0;
            while j < self.start.len()
                invariant
                    0 <= j <= self.start@.len(),
                    hit == exists|m: int| 0 <= m < j && self.start@[m] == k,
                decreases self.start@.len() - j,
            {
                if self.start[j] == k {
                    hit = true;
                }
                j = j + 1;
            }
            cur.push(hit);
            k = k + 1;
        }
        proof {
            assert(bits_set(cur@) =~= self.start@.to_set()) by {
                assert forall|t: usize| #[trigger] self.start@.to_set().contains(t) implies (t as int) < cur@.len() by {
                    let m = choose|m: int| 0 <= m < self.start@.len() && self.start@[m] == t;
                    assert(self.start@[m] < self.node_count());
                }
            }
        }
        let mut cur = close_over(&edges, cur);
        let mut i: usize = 0;
        assert(stream_ids(stream@).take(0) =~= Seq::<u32>::empty());
        while i < stream.len()
            invariant
                n == self.node_count(),
                cur@.len() == n,
                ev == edge_view(edges@),
                ev == self.edge_seq(),
                edges_within(ev, n as nat),
                0 <= i <= stream@.len(),
                bits_set(cur@) == run_nodes(n as nat, ev, self.start@.to_set(), stream_ids(stream@).take(i as int)),
            decreases stream@.len() - i,
        {
            let stepped = move_round(&edges, &cur, Some(stream[i]));
            cur = close_over(&edges, stepped);
            proof {
                let ids = stream_ids(stream@);
                assert(ids.take(i + 1).drop_last() =~= ids.take(i as int));
                assert(ids.take(i + 1).last() == stream@[i as int].0);
            }
            i = i + 1;
        }
        assert(stream_ids(stream@).take(i as int) =~= stream_ids(stream@));
        let mut a: usize = 0;
        while a < self.accepting.len()
            invariant
                0 <= a <= self.accepting@.len(),
                cur@.len() == self.node_count(),
                self.wf(),
                bits_set(cur@) == run_nodes(self.node_count(), self.edge_seq(), self.start@.to_set(), stream_ids(stream@)),
                forall|m: int| 0 <= m < a ==> !bits_set(cur@).contains(#[trigger] self.accepting@[m]),
            decreases self.accepting@.len() - a,
        {
            let node = self.accepting[a];
            if cur[node] {
                assert(bits_set(cur@).contains(self.accepting@[a as int]));
                return true;
            }
            a = a + 1;
        }
        false
    }
}


/// The edges that `add_expanded_name_to_graph` adds from `spot` for the
/// variant edges `es`, with `n0` the first new node (the shared end): for each
/// variant a node reached from `spot` by reading its edge, and an epsilon move
/// from there to the end.
pub open spec fn name_edges(spot: usize, n0: int, es: Seq<u32>) -> Seq<(usize, usize, Option<u32>)> {
    Seq::new(
        (2 * es.len()) as nat,
        |j: int|
            if j % 2 == 0 {
                (spot, (n0 + j + 1) as usize, Some(es[j / 2]))
            } else {
                ((n0 + j) as usize, n0 as usize, None::<u32>)
            },
    )
}

/// The start nodes that `add_expanded_name_to_graph` adds, one for each
/// expanded variant.
pub open spec fn name_starts(n0: int, expansions: int) -> Seq<usize> {
    Seq::new(expansions as nat, |j: int| (n0 + 2 * (j + 1)) as usize)
}

proof fn lemma_name_edges_push(spot: usize, n0: int, es: Seq<u32>, e: u32)
    ensures
        name_edges(spot, n0, es.push(e)) == name_edges(spot, n0, es).push(
            (spot, (n0 + 2 * es.len() + 1) as usize, Some(e)),
        ).push(((n0 + 2 * es.len() + 1) as usize, n0 as usize, None::<u32>)),
{
    let a = name_edges(spot, n0, es.push(e));
    let b = name_edges(spot, n0, es).push((spot, (n0 + 2 * es.len() + 1) as usize, Some(e))).push(
        ((n0 + 2 * es.len() + 1) as usize, n0 as usize, None::<u32>),
    );
    assert forall|j: int| 0 <= j < a.len() implies a[j] == b[j] by {
        if j < 2 * es.len() {
            assert(es.push(e)[j / 2] == es[j / 2]);
        }
    }
    assert(a =~= b);
}

/// Adds, after `spot`, one move for each way the name `d` may render under
/// `rule` (unexpanded, then after each pass), all joining in a new node, which
/// is returned. Each expanded variant also adds a start node of its own.
pub fn add_expanded_name_to_graph(
    nfa: &mut Nfa,
    d: DisambNameData,
    spot: usize,
    rule: GivenNameDisambiguationRule,
    interner: &mut EdgeInterner,
) -> (next: usize)
    requires
        old(nfa).wf(),
        spot < old(nfa).node_count(),
        old(nfa).node_count() + 7 < u32::MAX,
        old(nfa).edge_seq().len() + 7 < u32::MAX,
        old(interner).wf(),
        old(interner).view_payloads().len() + 3 < u32::MAX,
    ensures
        final(nfa).wf(),
        final(interner).wf(),
        extends(old(interner).view_payloads(), final(interner).view_payloads()),
        final(interner).view_payloads().len() <= old(interner).view_payloads().len() + variant_texts(d, rule).len(),
        next == old(nfa).node_count(),
        final(nfa).node_count() == old(nfa).node_count() + 2 * variant_texts(d, rule).len(),
        final(nfa).accepting == old(nfa).accepting,
        final(nfa).start@ == old(nfa).start@ + name_starts(next as int, passes_of(d, rule).len() as int),
        exists|es: Seq<u32>|
            {
                &&& es.len() == variant_texts(d, rule).len()
                &&& final(nfa).edge_seq() == old(nfa).edge_seq() + name_edges(spot, next as int, es)
                &&& forall|k: int|
                    0 <= k < es.len() ==> #[trigger] edge_of_text(
                        final(interner).view_payloads(),
                        es[k],
                        variant_texts(d, rule)[k],
                    )
            },
{
    let ghost d0 = d;
    let ghost ps = passes_of(d0, rule);
    let ghost start = old(interner).view_payloads();
    let ghost e0 = old(nfa).edge_seq();
    let ghost s0 = old(nfa).start@;
    let mut dn = d;
    proof {
        crate::names::lemma_passes_len(d0, rule);
        assert(ps.take(0) =~= Seq::<crate::names::NameDisambPass>::empty());
        assert(ps.subrange(0, ps.len() as int) =~= ps);
        assert(expanded(d0, rule, 0) == d0);
    }
    let mut iter = dn.disamb_iter(rule);
    let edge = dn.single_name_edge(interner);
    let next_spot = nfa.add_node();
    let last = nfa.add_node();
    nfa.add_edge(spot, last, NfaEdge::Token(edge));
    nfa.add_edge(last, next_spot, NfaEdge::Epsilon);
    let ghost mut es: Seq<u32> = seq![edge.0];
    let mut k: usize = 0;
    proof {
        lemma_name_edges_push(spot, next_spot as int, Seq::empty(), edge.0);
        assert(seq![edge.0] =~= Seq::<u32>::empty().push(edge.0));
        assert(name_edges(spot, next_spot as int, Seq::empty()) =~= Seq::empty());
        assert(nfa.edge_seq() =~= e0 + name_edges(spot, next_spot as int, es));
        assert(nfa.start@ =~= s0 + name_starts(next_spot as int, 0));
    }
    loop
        invariant
            0 <= k <= ps.len(),
            ps == passes_of(d0, rule),
            ps.len() <= 2,
            iter.wf(),
            iter.remaining() == ps.subrange(k as int, ps.len() as int),
            dn == expanded(d0, rule, k as int),
            nfa.wf(),
            next_spot == old(nfa).node_count(),
            spot < next_spot,
            next_spot + 7 < u32::MAX,
            e0.len() + 7 < u32::MAX,
            nfa.node_count() == next_spot + 2 * (k + 1),
            nfa.accepting == old(nfa).accepting,
            nfa.start@ == s0 + name_starts(next_spot as int, k as int),
            es.len() == k + 1,
            nfa.edge_seq() == e0 + name_edges(spot, next_spot as int, es),
            start.len() + 3 < u32::MAX,
            interner.wf(),
            extends(start, interner.view_payloads()),
            interner.view_payloads().len() <= start.len() + k + 1,
            forall|j: int|
                0 <= j <= k ==> #[trigger] edge_of_text(
                    interner.view_payloads(),
                    es[j],
                    variant_texts(d0, rule)[j],
                ),
        ensures
            k == ps.len(),
            nfa.wf(),
            nfa.node_count() == next_spot + 2 * (k + 1),
            nfa.accepting == old(nfa).accepting,
            nfa.start@ == s0 + name_starts(next_spot as int, k as int),
            es.len() == k + 1,
            nfa.edge_seq() == e0 + name_edges(spot, next_spot as int, es),
            interner.wf(),
            extends(start, interner.view_payloads()),
            interner.view_payloads().len() <= start.len() + k + 1,
            forall|j: int|
                0 <= j <= k ==> #[trigger] edge_of_text(
                    interner.view_payloads(),
                    es[j],
                    variant_texts(d0, rule)[j],
                ),
        decreases ps.len() - k,
    {
        let ghost before = interner.view_payloads();
        match iter.next() {
            Some(pass) => {
                proof {
                    assert(k < ps.len());
                    assert(ps.subrange(k as int, ps.len() as int)[0] == ps[k as int]);
                    lemma_expanded_step(d0, rule, k as int);
                    assert(ps.subrange(k as int, ps.len() as int).drop_first()
                        =~= ps.subrange(k + 1, ps.len() as int));
                }
                dn.apply_pass(pass);
                let first = nfa.add_node();
                nfa.mark_start(first);
                let edge = dn.single_name_edge(interner);
                let last = nfa.add_node();
                nfa.add_edge(spot, last, NfaEdge::Token(edge));
                nfa.add_edge(last, next_spot, NfaEdge::Epsilon);
                proof {
                    lemma_name_edges_push(spot, next_spot as int, es, edge.0);
                    es = es.push(edge.0);
                    assert(nfa.start@ =~= s0 + name_starts(next_spot as int, k + 1));
                    assert forall|j: int| 0 <= j <= k + 1 implies #[trigger] edge_of_text(
                        interner.view_payloads(),
                        es[j],
                        variant_texts(d0, rule)[j],
                    ) by {
                        if j <= k {
                            assert(edge_of_text(before, es[j], variant_texts(d0, rule)[j]));
                            assert(interner.view_payloads().subrange(0, before.len() as int)[es[j] as int]
                                == interner.view_payloads()[es[j] as int]);
                        }
                    }
                    assert(interner.view_payloads().subrange(0, start.len() as int)
                        =~= before.subrange(0, start.len() as int));
                }
                k = k + 1;
            },
            None => {
                break;
            },
        }
    }
    next_spot
}

proof fn lemma_eps_fixed(edges: Seq<(usize, usize, Option<u32>)>, x: Set<usize>, k: nat)
    requires
        eps_step(edges, x) == x,
    ensures
        eps_close(edges, x, k) == x,
    decreases k,
{
    if k > 0 {
        lemma_eps_fixed(edges, x, (k - 1) as nat);
    }
}

proof fn lemma_eps_once(edges: Seq<(usize, usize, Option<u32>)>, x: Set<usize>, k: nat)
    requires
        k >= 1,
        eps_step(edges, eps_step(edges, x)) == eps_step(edges, x),
    ensures
        eps_close(edges, x, k) == eps_step(edges, x),
    decreases k,
{
    if k > 1 {
        lemma_eps_once(edges, x, (k - 1) as nat);
    } else {
        assert(eps_close(edges, x, 0) == x);
    }
}

/// The automaton of one expanded name accepts exactly the one-edge streams of
/// the name's variants: built from a single start node `0` by
/// `add_expanded_name_to_graph` (which ends in node `1`), with node `1`
/// accepting, it accepts `[e]` if and only if `e` is one of the variant edges.
pub proof fn lemma_name_automaton(nfa: Nfa, es: Seq<u32>, e: u32)
    requires
        es.len() >= 1,
        nfa.node_count() == 1 + 2 * es.len(),
        nfa.node_count() < u32::MAX,
        nfa.edge_seq() == name_edges(0, 1, es),
        nfa.start@ == seq![0usize] + name_starts(1, es.len() - 1),
        nfa.accepting@ == seq![1usize],
    ensures
        nfa.accepts_spec(seq![e]) == es.contains(e),
{
    let edges = nfa.edge_seq();
    let n = nfa.node_count();
    let s = nfa.start@.to_set();
    assert(edges.len() == 2 * es.len());
    // the start nodes are 0 and odd nodes from 3 on; epsilon moves leave only
    // from even nodes
    assert forall|i: int| 0 <= i < edges.len() && (#[trigger] edges[i]).2 is None implies edges[i].0 % 2 == 0
        && edges[i].0 >= 2 && edges[i].1 == 1 by {
        assert(i % 2 == 1);
        assert(edges[i] == ((1 + i) as usize, 1usize, None::<u32>));
        assert((1 + i) as usize == 1 + i);
    }
    assert forall|u: usize| #[trigger] s.contains(u) implies u == 0 || (u % 2 == 1 && u >= 3) by {
        let m = choose|m: int| 0 <= m < nfa.start@.len() && nfa.start@[m] == u;
        if m > 0 {
            assert(nfa.start@[m] == name_starts(1, es.len() - 1)[m - 1]);
            assert(nfa.start@[m] == (1 + 2 * m) as usize);
            assert((1 + 2 * m) as usize == 1 + 2 * m);
        } else {
            assert(nfa.start@[0] == 0usize);
        }
    }
    assert(eps_step(edges, s) =~= s);
    lemma_eps_fixed(edges, s, n);
    let t = tok_step(edges, s, e);
    assert(run_nodes(n, edges, s, seq![e].drop_last()) == s) by {
        assert(seq![e].drop_last() =~= Seq::<u32>::empty());
    }
    assert forall|u: usize| #[trigger] t.contains(u) implies u % 2 == 0 && u >= 2 by {
        let i = choose|i: int| 0 <= i < edges.len() && (#[trigger] edges[i]).1 == u && edges[i].2 == Some(e) && s.contains(edges[i].0);
        assert(i % 2 == 0);
    }
    let t1 = eps_step(edges, t);
    assert(eps_step(edges, t1) =~= t1) by {
        assert forall|u: usize| #[trigger] eps_step(edges, t1).contains(u) implies t1.contains(u) by {
            if !t1.contains(u) {
                let i = choose|i: int| 0 <= i < edges.len() && (#[trigger] edges[i]).1 == u && edges[i].2 is None && t1.contains(edges[i].0);
                assert(edges[i].1 == 1);
                let src = edges[i].0;
                if !t.contains(src) {
                    let i2 = choose|i2: int| 0 <= i2 < edges.len() && (#[trigger] edges[i2]).1 == src && edges[i2].2 is None && t.contains(edges[i2].0);
                    assert(edges[i2].1 == 1);
                }
                assert(t.contains(src));
                assert(t1.contains(u));
            }
        }
    }
    lemma_eps_once(edges, t, n);
    assert(run_nodes(n, edges, s, seq![e]) == t1);
    if es.contains(e) {
        let k = choose|k: int| 0 <= k < es.len() && es[k] == e;
        assert(edges[2 * k] == (0usize, (2 * k + 2) as usize, Some(es[k])));
        assert(s.contains(0usize)) by {
            assert(nfa.start@[0] == 0usize);
        }
        assert(t.contains((2 * k + 2) as usize));
        assert(edges[2 * k + 1] == ((2 * k + 2) as usize, 1usize, None::<u32>));
        assert(t1.contains(1usize));
        assert(nfa.accepting@[0] == 1usize);
    }
    if nfa.accepts_spec(seq![e]) {
        let i = choose|i: int| 0 <= i < nfa.accepting@.len() && run_nodes(n, edges, s, seq![e]).contains(#[trigger] nfa.accepting@[i]);
        assert(nfa.accepting@[i] == 1usize);
        assert(t1.contains(1usize));
        assert(!t.contains(1usize));
        let j = choose|j: int| 0 <= j < edges.len() && (#[trigger] edges[j]).1 == 1usize && edges[j].2 is None && t.contains(edges[j].0);
        let src = edges[j].0;
        let i2 = choose|i2: int| 0 <= i2 < edges.len() && (#[trigger] edges[i2]).1 == src && edges[i2].2 == Some(e) && s.contains(edges[i2].0);
        assert(i2 % 2 == 0);
        assert(es[i2 / 2] == e);
    }
}

/// The nodes reached from `s` by at most one move of any label.
pub open spec fn any_step(edges: Seq<(usize, usize, Option<u32>)>, s: Set<usize>) -> Set<usize> {
    s.union(
        Set::new(
            |t: usize|
                exists|i: int| 0 <= i < edges.len() && (#[trigger] edges[i]).1 == t && s.contains(edges[i].0),
        ),
    )
}

/// The nodes reached from `s` by at most `k` moves of any label.
pub open spec fn reach(edges: Seq<(usize, usize, Option<u32>)>, s: Set<usize>, k: nat) -> Set<usize>
    decreases k,
{
    if k == 0 {
        s
    } else {
        any_step(edges, reach(edges, s, (k - 1) as nat))
    }
}

proof fn lemma_reach_rounds(edges: Seq<(usize, usize, Option<u32>)>, s: Set<usize>, k: nat, k2: nat, x: usize)
    requires
        k <= k2,
        reach(edges, s, k).contains(x),
    ensures
        reach(edges, s, k2).contains(x),
    decreases k2,
{
    if k < k2 {
        lemma_reach_rounds(edges, s, k, (k2 - 1) as nat, x);
    }
}

proof fn lemma_reach_edges(e1: Seq<(usize, usize, Option<u32>)>, e2: Seq<(usize, usize, Option<u32>)>, s: Set<usize>, k: nat, x: usize)
    requires
        e1.len() <= e2.len(),
        forall|i: int| 0 <= i < e1.len() ==> e2[i] == e1[i],
        reach(e1, s, k).contains(x),
    ensures
        reach(e2, s, k).contains(x),
    decreases k,
{
    if k > 0 {
        let r1 = reach(e1, s, (k - 1) as nat);
        if r1.contains(x) {
            lemma_reach_edges(e1, e2, s, (k - 1) as nat, x);
        } else {
            let i = choose|i: int| 0 <= i < e1.len() && (#[trigger] e1[i]).1 == x && r1.contains(e1[i].0);
            lemma_reach_edges(e1, e2, s, (k - 1) as nat, e1[i].0);
            assert(e2[i] == e1[i]);
        }
    }
}

proof fn lemma_reach_edge(edges: Seq<(usize, usize, Option<u32>)>, s: Set<usize>, k: nat, i: int)
    requires
        0 <= i < edges.len(),
        reach(edges, s, k).contains(edges[i].0),
    ensures
        reach(edges, s, k + 1).contains(edges[i].1),
{
    assert(reach(edges, s, k + 1) == any_step(edges, reach(edges, s, k)));
}

/// The shape that `names_ref_ir` keeps: every accepting node is reached from
/// node `0`, no accepting node is a start node, and no epsilon move leaves a
/// start node.
pub open spec fn name_nfa_ok(nfa: Nfa) -> bool {
    &&& forall|a: int|
        0 <= a < nfa.accepting@.len() ==> reach(nfa.edge_seq(), set![0usize], nfa.node_count()).contains(
            #[trigger] nfa.accepting@[a],
        )
    &&& forall|a: int, s: int|
        0 <= a < nfa.accepting@.len() && 0 <= s < nfa.start@.len() ==> #[trigger] nfa.accepting@[a]
            != #[trigger] nfa.start@[s]
    &&& forall|i: int|
        0 <= i < nfa.edge_seq().len() && (#[trigger] nfa.edge_seq()[i]).2 is None ==> !nfa.start@.contains(
            nfa.edge_seq()[i].0,
        )
}

proof fn lemma_literal_step(a: Nfa, b: Nfa, spot: usize, n: usize, x: Option<u32>)
    requires
        a.wf(),
        name_nfa_ok(a),
        a.node_count() >= 1,
        spot < a.node_count(),
        reach(a.edge_seq(), set![0usize], (a.node_count() - 1) as nat).contains(spot),
        n == a.node_count(),
        b.node_count() == a.node_count() + 1,
        b.edge_seq() == a.edge_seq().push((spot, n, x)),
        x is Some,
        b.start == a.start,
        b.accepting == a.accepting,
    ensures
        name_nfa_ok(b),
        reach(b.edge_seq(), set![0usize], (b.node_count() - 1) as nat).contains(n),
        !b.start@.contains(n),
{
    let ea = a.edge_seq();
    let eb = b.edge_seq();
    lemma_reach_edges(ea, eb, set![0usize], (a.node_count() - 1) as nat, spot);
    lemma_reach_edge(eb, set![0usize], (a.node_count() - 1) as nat, ea.len() as int);
    assert forall|k: int| 0 <= k < a.accepting@.len() implies reach(eb, set![0usize], b.node_count()).contains(
        #[trigger] b.accepting@[k],
    ) by {
        lemma_reach_edges(ea, eb, set![0usize], a.node_count(), a.accepting@[k]);
        lemma_reach_rounds(eb, set![0usize], a.node_count(), b.node_count(), a.accepting@[k]);
    }
    assert forall|i: int| 0 <= i < eb.len() && (#[trigger] eb[i]).2 is None implies !b.start@.contains(eb[i].0) by {
        assert(i < ea.len());
        assert(eb[i] == ea[i]);
    }
    if b.start@.contains(n) {
        let k = choose|k: int| 0 <= k < b.start@.len() && b.start@[k] == n;
        assert(a.start@[k] < a.node_count());
    }
}

proof fn lemma_person_step(a: Nfa, b: Nfa, spot: usize, es: Seq<u32>)
    requires
        a.wf(),
        name_nfa_ok(a),
        a.node_count() >= 1,
        a.node_count() + 2 * es.len() < u32::MAX,
        spot < a.node_count(),
        reach(a.edge_seq(), set![0usize], (a.node_count() - 1) as nat).contains(spot),
        es.len() >= 1,
        b.node_count() == a.node_count() + 2 * es.len(),
        b.edge_seq() == a.edge_seq() + name_edges(spot, a.node_count() as int, es),
        b.start@ == a.start@ + name_starts(a.node_count() as int, es.len() - 1),
        b.accepting == a.accepting,
    ensures
        name_nfa_ok(b),
        reach(b.edge_seq(), set![0usize], (b.node_count() - 1) as nat).contains(a.node_count() as usize),
        !b.start@.contains(a.node_count() as usize),
{
    let ea = a.edge_seq();
    let eb = b.edge_seq();
    let c = a.node_count() as int;
    let ne = name_edges(spot, c, es);
    let ns = name_starts(c, es.len() - 1);
    assert(eb[ea.len() as int] == ne[0]);
    assert(eb[ea.len() as int + 1] == ne[1]);
    assert(ne[0] == (spot, (c + 1) as usize, Some(es[0])));
    assert(ne[1] == ((c + 1) as usize, c as usize, None::<u32>));
    lemma_reach_edges(ea, eb, set![0usize], (c - 1) as nat, spot);
    lemma_reach_edge(eb, set![0usize], (c - 1) as nat, ea.len() as int);
    lemma_reach_edge(eb, set![0usize], c as nat, ea.len() as int + 1);
    lemma_reach_rounds(eb, set![0usize], (c + 1) as nat, (b.node_count() - 1) as nat, c as usize);
    assert forall|k: int| 0 <= k < b.accepting@.len() implies reach(eb, set![0usize], b.node_count()).contains(
        #[trigger] b.accepting@[k],
    ) by {
        assert(forall|i: int| 0 <= i < ea.len() ==> eb[i] == ea[i]);
        lemma_reach_edges(ea, eb, set![0usize], a.node_count(), a.accepting@[k]);
        lemma_reach_rounds(eb, set![0usize], a.node_count(), b.node_count(), a.accepting@[k]);
    }
    assert forall|k: int, s: int| 0 <= k < b.accepting@.len() && 0 <= s < b.start@.len() implies #[trigger] b.accepting@[k]
        != #[trigger] b.start@[s] by {
        assert(b.accepting@[k] == a.accepting@[k]);
        assert(a.accepting@[k] < a.node_count());
        if s >= a.start@.len() {
            assert(b.start@[s] == ns[s - a.start@.len()]);
        } else {
            assert(b.start@[s] == a.start@[s]);
        }
    }
    assert forall|i: int| 0 <= i < eb.len() && (#[trigger] eb[i]).2 is None implies !b.start@.contains(eb[i].0) by {
        if i < ea.len() {
            assert(eb[i] == ea[i]);
            assert(ea[i].0 < a.node_count());
        } else {
            let j = i - ea.len();
            assert(eb[i] == ne[j]);
            assert(j % 2 == 1);
            assert(eb[i].0 == (c + j) as usize);
        }
        if b.start@.contains(eb[i].0) {
            let s = choose|s: int| 0 <= s < b.start@.len() && b.start@[s] == eb[i].0;
            if s < a.start@.len() {
                assert(b.start@[s] == a.start@[s]);
                assert(a.start@[s] < a.node_count());
                if i < ea.len() {
                    assert(!a.start@.contains(ea[i].0));
                }
            } else {
                assert(b.start@[s] == ns[s - a.start@.len()]);
            }
        }
    }
    if b.start@.contains(c as usize) {
        let s = choose|s: int| 0 <= s < b.start@.len() && b.start@[s] == c as usize;
        if s < a.start@.len() {
            assert(b.start@[s] == a.start@[s]);
            assert(a.start@[s] < a.node_count());
        } else {
            assert(b.start@[s] == ns[s - a.start@.len()]);
        }
    }
}

proof fn lemma_mark_step(a: Nfa, b: Nfa, spot: usize)
    requires
        a.wf(),
        name_nfa_ok(a),
        a.node_count() >= 1,
        reach(a.edge_seq(), set![0usize], (a.node_count() - 1) as nat).contains(spot),
        !a.start@.contains(spot),
        b.graph == a.graph,
        b.start == a.start,
        b.accepting@ == a.accepting@.push(spot),
    ensures
        name_nfa_ok(b),
{
    lemma_reach_rounds(a.edge_seq(), set![0usize], (a.node_count() - 1) as nat, a.node_count(), spot);
    assert forall|k: int, s: int| 0 <= k < b.accepting@.len() && 0 <= s < b.start@.len() implies #[trigger] b.accepting@[k]
        != #[trigger] b.start@[s] by {
        if k == a.accepting@.len() {
            assert(b.start@[s] == a.start@[s]);
        } else {
            assert(b.accepting@[k] == a.accepting@[k]);
        }
    }
    assert forall|k: int| 0 <= k < b.accepting@.len() implies reach(b.edge_seq(), set![0usize], b.node_count()).contains(
        #[trigger] b.accepting@[k],
    ) by {
        if k < a.accepting@.len() {
            assert(b.accepting@[k] == a.accepting@[k]);
        }
    }
}

/// An automaton of the shape `names_ref_ir` builds accepts no empty stream.
proof fn lemma_no_empty_accept(nfa: Nfa)
    requires
        name_nfa_ok(nfa),
    ensures
        !nfa.accepts_spec(Seq::empty()),
{
    let e = nfa.edge_seq();
    let s = nfa.start@.to_set();
    assert(eps_step(e, s) =~= s) by {
        assert forall|t: usize| #[trigger] eps_step(e, s).contains(t) implies s.contains(t) by {
            if !s.contains(t) {
                let i = choose|i: int| 0 <= i < e.len() && (#[trigger] e[i]).1 == t && e[i].2 is None && s.contains(e[i].0);
                assert(!nfa.start@.contains(e[i].0));
            }
        }
    }
    lemma_eps_fixed(e, s, nfa.node_count());
    assert(run_nodes(nfa.node_count(), e, s, Seq::empty()) == s);
    if nfa.accepts_spec(Seq::empty()) {
        let a = choose|a: int| 0 <= a < nfa.accepting@.len() && run_nodes(nfa.node_count(), e, s, Seq::empty()).contains(
            #[trigger] nfa.accepting@[a],
        );
        let k = choose|k: int| 0 <= k < nfa.start@.len() && nfa.start@[k] == nfa.accepting@[a];
        assert(nfa.accepting@[a] != nfa.start@[k]);
    }
}

/// One token of a rendered name block: a fragment already interned as an
/// edge (a literal name, a delimiter, "et al."), or a person name, which may
/// render in any of its expansions.
pub enum NameToken {
    Literal(Edge),
    Person(DisambNameData),
}

/// The tokens in the first `b` runs.
pub open spec fn tokens_upto(runs: Seq<Vec<NameToken>>, b: int) -> int
    decreases b,
{
    if b <= 0 {
        0
    } else {
        tokens_upto(runs, b - 1) + runs[b - 1]@.len()
    }
}

proof fn lemma_tokens_upto_mono(runs: Seq<Vec<NameToken>>, a: int, b: int)
    requires
        0 <= a <= b,
    ensures
        tokens_upto(runs, a) <= tokens_upto(runs, b),
    decreases b,
{
    if a < b {
        lemma_tokens_upto_mono(runs, a, b - 1);
    }
}

/// How many runs are rendered: runs follow one another while each has more
/// tokens than the one before (the first more than none).
pub open spec fn runs_used(runs: Seq<Vec<NameToken>>, b: int) -> int
    decreases runs.len() - b,
{
    if b < 0 || b >= runs.len() {
        if b < 0 { 0 } else { b }
    } else if runs[b]@.len() <= (if b == 0 { 0 } else { runs[b - 1]@.len() as int }) {
        b
    } else {
        runs_used(runs, b + 1)
    }
}

proof fn lemma_runs_used(runs: Seq<Vec<NameToken>>, b: int)
    requires
        0 <= b <= runs.len(),
    ensures
        b <= runs_used(runs, b) <= runs.len(),
    decreases runs.len() - b,
{
    if b < runs.len() && !(runs[b]@.len() <= (if b == 0 { 0 } else { runs[b - 1]@.len() as int })) {
        lemma_runs_used(runs, b + 1);
    }
}

/// The reference-side automaton of one name block. `runs[b]` is the block as
/// rendered with `b` more names shown. Runs are added while their token count
/// keeps growing; each starts at node `0` and, if it read anything, its end
/// accepts. A block that renders no run yields no automaton and `OnlyEmpty`.
pub fn names_ref_ir(
    runs: &Vec<Vec<NameToken>>,
    rule: GivenNameDisambiguationRule,
    interner: &mut EdgeInterner,
) -> (r: (Option<Nfa>, crate::ir::GroupVars))
    requires
        old(interner).wf(),
        8 * tokens_upto(runs@, runs@.len() as int) + 8 < u32::MAX,
        old(interner).view_payloads().len() + 3 * tokens_upto(runs@, runs@.len() as int) + 3 < u32::MAX,
    ensures
        final(interner).wf(),
        extends(old(interner).view_payloads(), final(interner).view_payloads()),
        (r.0 is None) == (r.1 == crate::ir::GroupVars::OnlyEmpty),
        (r.0 is None) == (runs_used(runs@, 0) == 0),
        r.0 is None || r.1 == crate::ir::GroupVars::Important,
        match r.0 {
            Some(nfa) => {
                &&& nfa.wf()
                &&& nfa.start@.len() >= 1
                &&& nfa.start@[0] == 0
                &&& nfa.accepting@.len() == runs_used(runs@, 0)
                &&& forall|i: int| 0 <= i < nfa.accepting@.len() ==> #[trigger] nfa.accepting@[i] != 0
                &&& name_nfa_ok(nfa)
                &&& !nfa.accepts_spec(Seq::empty())
            },
            None => true,
        },
{
    let ghost total = tokens_upto(runs@, runs@.len() as int);
    let ghost istart = interner.view_payloads();
    let mut nfa = Nfa::new();
    let start = nfa.add_node();
    nfa.mark_start(start);
    proof {
        lemma_runs_used(runs@, 0);
        assert(nfa.start@ =~= seq![0usize]);
        assert(nfa.edge_seq().len() == 0);
        assert(name_nfa_ok(nfa));
        assert(istart.subrange(0, istart.len() as int) =~= istart);
    }
    let mut max_counted: usize = 0;
    let mut b: usize = 0;
    while b < runs.len() && runs[b].len() > max_counted
        invariant
            0 <= b <= runs@.len(),
            total == tokens_upto(runs@, runs@.len() as int),
            8 * total + 8 < u32::MAX,
            istart.len() + 3 * total + 3 < u32::MAX,
            istart == old(interner).view_payloads(),
            max_counted == (if b == 0 { 0 } else { runs@[b - 1]@.len() as int }),
            runs_used(runs@, 0) == runs_used(runs@, b as int),
            nfa.wf(),
            start == 0,
            nfa.start@.len() >= 1,
            nfa.start@[0] == 0,
            nfa.node_count() >= 1,
            nfa.node_count() <= 1 + 7 * tokens_upto(runs@, b as int),
            nfa.edge_seq().len() <= 6 * tokens_upto(runs@, b as int),
            nfa.accepting@.len() == b,
            forall|i: int| 0 <= i < nfa.accepting@.len() ==> #[trigger] nfa.accepting@[i] != 0,
            name_nfa_ok(nfa),
            interner.wf(),
            extends(istart, interner.view_payloads()),
            interner.view_payloads().len() <= istart.len() + 3 * tokens_upto(runs@, b as int),
        decreases runs@.len() - b,
    {
        proof {
            lemma_tokens_upto_mono(runs@, b + 1, runs@.len() as int);
        }
        let run = &runs[b];
        let mut spot: usize = start;
        let mut j: usize = 0;
        proof {
            assert(reach(nfa.edge_seq(), set![0usize], 0).contains(0usize));
            lemma_reach_rounds(nfa.edge_seq(), set![0usize], 0, (nfa.node_count() - 1) as nat, 0usize);
        }
        while j < run.len()
            invariant
                0 <= j <= run@.len(),
                run == runs@[b as int],
                b < runs@.len(),
                tokens_upto(runs@, b + 1) <= total,
                tokens_upto(runs@, b + 1) == tokens_upto(runs@, b as int) + run@.len(),
                8 * total + 8 < u32::MAX,
                istart.len() + 3 * total + 3 < u32::MAX,
                nfa.wf(),
                nfa.start@.len() >= 1,
                nfa.start@[0] == 0,
                spot < nfa.node_count(),
                j > 0 ==> spot != 0,
                j == 0 ==> spot == 0,
                nfa.node_count() >= 1,
                nfa.node_count() <= 1 + 7 * (tokens_upto(runs@, b as int) + j),
                nfa.edge_seq().len() <= 6 * (tokens_upto(runs@, b as int) + j),
                nfa.accepting@.len() == b,
                forall|i: int| 0 <= i < nfa.accepting@.len() ==> #[trigger] nfa.accepting@[i] != 0,
                name_nfa_ok(nfa),
                reach(nfa.edge_seq(), set![0usize], (nfa.node_count() - 1) as nat).contains(spot),
                j > 0 ==> !nfa.start@.contains(spot),
                interner.wf(),
                extends(istart, interner.view_payloads()),
                interner.view_payloads().len() <= istart.len() + 3 * (tokens_upto(runs@, b as int) + j),
            decreases run@.len() - j,
        {
            let ghost before = interner.view_payloads();
            let ghost acc0 = nfa.accepting;
            let ghost st0 = nfa.start@;
            match &run[j] {
                NameToken::Literal(e) => {
                    let ghost a = nfa;
                    let n = nfa.add_node();
                    nfa.add_edge(spot, n, NfaEdge::Token(*e));
                    proof {
                        lemma_literal_step(a, nfa, spot, n, Some(e.0));
                    }
                    spot = n;
                },
                NameToken::Person(d) => {
                    let ghost a = nfa;
                    let ghost spot0 = spot;
                    spot = add_expanded_name_to_graph(&mut nfa, d.duplicate(), spot, rule, interner);
                    proof {
                        crate::names::lemma_passes_len(*d, rule);
                        let es = choose|es: Seq<u32>| {
                            &&& es.len() == variant_texts(*d, rule).len()
                            &&& nfa.edge_seq() == a.edge_seq() + name_edges(spot0, spot as int, es)
                            &&& forall|k: int|
                                0 <= k < es.len() ==> #[trigger] edge_of_text(
                                    interner.view_payloads(),
                                    es[k],
                                    variant_texts(*d, rule)[k],
                                )
                        };
                        assert(es.len() - 1 == passes_of(*d, rule).len());
                        lemma_person_step(a, nfa, spot0, es);
                        assert(nfa.start@[0] == st0[0]);
                        crate::names::lemma_passes_len(*d, rule);
                        assert(interner.view_payloads().subrange(0, istart.len() as int)
                            =~= before.subrange(0, istart.len() as int));
                    }
                },
            }
            j = j + 1;
        }
        if spot != start {
            let ghost a = nfa;
            nfa.mark_accept(spot);
            proof {
                lemma_mark_step(a, nfa, spot);
            }
        } else {
            proof {
                assert(run@.len() == 0);
            }
        }
        max_counted = run.len();
        b = b + 1;
    }
    proof {
        if b < runs@.len() {
            assert(runs_used(runs@, b as int) == b);
        }
    }
    proof {
        lemma_no_empty_accept(nfa);
    }
    if nfa.accepting.len() == 0 {
        (None, crate::ir::GroupVars::OnlyEmpty)
    } else {
        (Some(nfa), crate::ir::GroupVars::Important)
    }
}

} // verus!
