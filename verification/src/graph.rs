//! Building a symmetric adjacency map from a sequence of edge records.

use vstd::prelude::*;
use std::collections::HashMap;
use crate::ParseError;

verus! {

broadcast use vstd::std_specs::hash::group_hash_axioms, vstd::set::group_set_axioms;

/// `b` is recorded as a neighbor of `a` in `m`.
pub open spec fn adjacent(m: Map<u32, Set<u32>>, a: u32, b: u32) -> bool {
    m.contains_key(a) && m[a].contains(b)
}

/// Every neighbor relation holds in both directions.
pub open spec fn symmetric(m: Map<u32, Set<u32>>) -> bool {
    forall|a: u32, b: u32| #[trigger] adjacent(m, a, b) ==> adjacent(m, b, a)
}

/// The adjacency map after inserting the directed half of an edge: `b` is
/// added to the neighbor set of `a`, which is created if `a` is new.
pub open spec fn add_dir(m: Map<u32, Set<u32>>, a: u32, b: u32) -> Map<u32, Set<u32>> {
    m.insert(a, (if m.contains_key(a) { m[a] } else { Set::empty() }).insert(b))
}

/// The adjacency map after inserting the undirected edge `(a, b)`:
/// both directions are recorded.
pub open spec fn add_edge(m: Map<u32, Set<u32>>, a: u32, b: u32) -> Map<u32, Set<u32>> {
    add_dir(add_dir(m, a, b), b, a)
}

/// Left fold of `add_edge` over the records of `s` starting from `m`,
/// stopped by the first record that is an error.
pub open spec fn build_from(
    m: Map<u32, Set<u32>>,
    s: Seq<Result<(u32, u32), ParseError>>,
) -> Result<Map<u32, Set<u32>>, ParseError>
    decreases s.len(),
{
    if s.len() == 0 {
        Ok(m)
    } else {
        match s[0] {
            Result::Err(e) => Err(e),
            Result::Ok(p) => build_from(add_edge(m, p.0, p.1), s.skip(1)),
        }
    }
}

/// The adjacency map that a record sequence denotes: every edge before the
/// first erroneous record inserted in both directions, or that first error.
pub open spec fn graph_of(
    s: Seq<Result<(u32, u32), ParseError>>,
) -> Result<Map<u32, Set<u32>>, ParseError> {
    build_from(Map::empty(), s)
}

/// The set view of a map whose neighbor collections are still lists.
spec fn sets_of(m: Map<u32, Vec<u32>>) -> Map<u32, Set<u32>> {
    Map::new(|k: u32| m.contains_key(k), |k: u32| m[k]@.to_set())
}

/// An undirected graph: every node that occurred as an edge endpoint maps
/// to the list of its neighbors, and every edge is stored in both
/// directions.
pub struct Graph {
    adj: HashMap<u32, Vec<u32>>,
}

impl View for Graph {
    type V = Map<u32, Set<u32>>;

    closed spec fn view(&self) -> Map<u32, Set<u32>> {
        sets_of(self.adj@)
    }
}

impl Graph {
    /// The neighbor lists hold no duplicates and every edge is recorded in
    /// both directions.
    pub closed spec fn wf(&self) -> bool {
        &&& symmetric(self@)
        &&& forall|k: u32|
            self.adj@.contains_key(k) ==> (#[trigger] self.adj@[k])@.no_duplicates()
    }

    /// Whether `n` occurred as an endpoint of some recorded edge.
    pub fn contains_node(&self, n: u32) -> (r: bool)
        ensures
            r == self@.contains_key(n),
    {
        self.adj.contains_key(&n)
    }

    /// The neighbor list of `n`, if `n` occurs in the graph.  The list
    /// carries each neighbor exactly once, in first-insertion order.
    pub fn neighbors(&self, n: u32) -> (r: Option<&Vec<u32>>)
        requires
            self.wf(),
        ensures
            match r {
                Some(v) => self@.contains_key(n) && v@.to_set() == self@[n]
                    && v@.no_duplicates(),
                None => !self@.contains_key(n),
            },
    {
        self.adj.get(&n)
    }

    /// Whether `b` is recorded as a neighbor of `a`.
    pub fn has_edge(&self, a: u32, b: u32) -> (r: bool)
        requires
            self.wf(),
        ensures
            r == adjacent(self@, a, b),
    {
        match self.neighbors(a) {
            Some(v) => {
                let r = vec_contains(v, b);
                proof {
                    assert(v@.to_set().contains(b) == v@.contains(b));
                }
                r
            },
            None => false,
        }
    }
}

/// Whether `x` occurs in `v`.
fn vec_contains(v: &Vec<u32>, x: u32) -> (r: bool)
    ensures
        r == v@.contains(x),
{
    let mut i: usize = 0;
    while i < v.len()
        invariant
            i <= v.len(),
            forall|j: int| 0 <= j < i ==> v@[j] != x,
        decreases v.len() - i,
    {
        if v[i] == x {
            return true;
        }
        i += 1;
    }
    false
}

/// Insert `b` into the neighbor list of `a`, creating the list if `a` is
/// new and leaving it unchanged if `b` is already present.
fn insert_dir(adj: &mut HashMap<u32, Vec<u32>>, a: u32, b: u32)
    requires
        forall|k: u32|
            old(adj)@.contains_key(k) ==> (#[trigger] old(adj)@[k])@.no_duplicates(),
    ensures
        forall|k: u32|
            final(adj)@.contains_key(k) ==> (#[trigger] final(adj)@[k])@.no_duplicates(),
        sets_of(final(adj)@) == add_dir(sets_of(old(adj)@), a, b),
{
    let ghost m0 = adj@;
    let mut v: Vec<u32> = match adj.remove(&a) {
        Some(v) => v,
        None => Vec::new(),
    };
    proof {
        assert(adj@ == m0.remove(a));
        assert(v@.no_duplicates());
        if m0.contains_key(a) {
            assert(v@.to_set() == sets_of(m0)[a]);
        } else {
            assert(v@ =~= Seq::<u32>::empty());
        }
    }
    let ghost v0 = v@;
    let present = vec_contains(&v, b);
    if !present {
        v.push(b);
        proof {
            assert forall|x: u32|
                v@.to_set().contains(x) == v0.to_set().insert(b).contains(x) by {
                assert(v0.to_set().insert(b).contains(x) == (v0.to_set().contains(x) || x
                    == b));
                if v@.contains(x) {
                    let idx = choose|idx: int| 0 <= idx < v@.len() && v@[idx] == x;
                    if idx < v0.len() {
                        assert(v0[idx] == x);
                        assert(v0.contains(x));
                    } else {
                        assert(x == b);
                    }
                }
                if v0.contains(x) {
                    let idx = choose|idx: int| 0 <= idx < v0.len() && v0[idx] == x;
                    assert(v@[idx] == x);
                    assert(v@.contains(x));
                }
                if x == b {
                    assert(v@[v0.len() as int] == b);
                    assert(v@.contains(x));
                }
            }
            assert(v@.to_set() =~= v0.to_set().insert(b));
            assert(v@.no_duplicates());
        }
    } else {
        proof {
            assert(v0.contains(b));
            assert(v0.to_set().contains(b));
            assert(v@.to_set() =~= v0.to_set().insert(b));
        }
    }
    adj.insert(a, v);
    proof {
        let before = sets_of(m0);
        let after = sets_of(adj@);
        assert(adj@ == m0.remove(a).insert(a, v));
        assert(v0.to_set() == (if before.contains_key(a) { before[a] } else { Set::empty() }));
        assert(after =~= add_dir(before, a, b));
    }
}

/// Build the adjacency map from a sequence of edge records, inserting both
/// directions of every edge and stopping at the first record that is an
/// error; in that case no graph is returned.
pub fn build_graph(edges: Vec<Result<(u32, u32), ParseError>>) -> (r: Result<Graph, ParseError>)
    ensures
        r matches Ok(g) ==> g.wf() && graph_of(edges@) == Ok::<Map<u32, Set<u32>>, ParseError>(g@),
        r matches Err(e) ==> graph_of(edges@) == Err::<Map<u32, Set<u32>>, ParseError>(e),
{
    let mut adj: HashMap<u32, Vec<u32>> = HashMap::new();
    proof {
        assert(sets_of(adj@) =~= Map::<u32, Set<u32>>::empty());
        assert(edges@.skip(0) =~= edges@);
    }
    let mut i: usize = 0;
    while i < edges.len()
        invariant
            i <= edges.len(),
            forall|k: u32| adj@.contains_key(k) ==> (#[trigger] adj@[k])@.no_duplicates(),
            symmetric(sets_of(adj@)),
            build_from(sets_of(adj@), edges@.skip(i as int)) == graph_of(edges@),
        decreases edges.len() - i,
    {
        let edge = edges[i];
        match edge {
            Ok(p) => {
                let ghost before = sets_of(adj@);
                insert_dir(&mut adj, p.0, p.1);
                insert_dir(&mut adj, p.1, p.0);
                proof {
                    assert(sets_of(adj@) == add_edge(before, p.0, p.1));
                    lemma_add_edge_symmetric(before, p.0, p.1);
                    assert(edges@.skip(i as int).skip(1) =~= edges@.skip(i + 1));
                    assert(edges@.skip(i as int)[0] == edges@[i as int]);
                }
            },
            Err(e) => {
                proof {
                    assert(edges@.skip(i as int)[0] == edges@[i as int]);
                }
                return Err(e);
            },
        }
        i += 1;
    }
    proof {
        assert(edges@.skip(edges@.len() as int) =~= Seq::<Result<(u32, u32), ParseError>>::empty());
    }
    Ok(Graph { adj })
}

/// Inserting one direction of an edge only grows the neighbor relation.
proof fn lemma_add_dir_monotone(m: Map<u32, Set<u32>>, a: u32, b: u32, x: u32, y: u32)
    requires
        adjacent(m, x, y),
    ensures
        adjacent(add_dir(m, a, b), x, y),
{
}

/// Inserting an edge preserves symmetry of the adjacency map.
proof fn lemma_add_edge_symmetric(m: Map<u32, Set<u32>>, a: u32, b: u32)
    requires
        symmetric(m),
    ensures
        symmetric(add_edge(m, a, b)),
{
    let m1 = add_dir(m, a, b);
    let m2 = add_dir(m1, b, a);
    assert forall|x: u32, y: u32| #[trigger] adjacent(m2, x, y) implies adjacent(m2, y, x) by {
        if adjacent(m, x, y) {
            assert(adjacent(m, y, x));
            lemma_add_dir_monotone(m, a, b, y, x);
            lemma_add_dir_monotone(m1, b, a, y, x);
        } else if x == a && y == b {
            assert(m2.contains_key(b) && m2[b].contains(a));
        } else if x == b && y == a {
            assert(m1.contains_key(a) && m1[a].contains(b));
            lemma_add_dir_monotone(m1, b, a, a, b);
        } else {
            assert(false);
        }
    }
}

/// Symmetry: in a well-formed graph every neighbor relation holds in both
/// directions.
pub proof fn lemma_graph_symmetric(g: &Graph, a: u32, b: u32)
    requires
        g.wf(),
        g@.contains_key(a),
        g@[a].contains(b),
    ensures
        g@.contains_key(b),
        g@[b].contains(a),
{
    assert(adjacent(g@, a, b));
    assert(adjacent(g@, b, a));
}

/// A graph holds finitely many nodes.
pub proof fn lemma_graph_finite(g: &Graph)
    ensures
        g@.dom().finite(),
{
    assert(g.adj@.dom().finite());
    assert(g@.dom() =~= g.adj@.dom());
}

/// A self-loop `(a, a)` makes `a` its own neighbor.
pub proof fn lemma_self_loop(m: Map<u32, Set<u32>>, a: u32)
    ensures
        adjacent(add_edge(m, a, a), a, a),
{
}

/// Inserting an edge a second time leaves the adjacency map unchanged.
pub proof fn lemma_add_edge_idempotent(m: Map<u32, Set<u32>>, a: u32, b: u32)
    ensures
        add_edge(add_edge(m, a, b), a, b) == add_edge(m, a, b),
{
    let m2 = add_edge(m, a, b);
    assert(m2[a].contains(b));
    assert(m2[b].contains(a));
    assert(m2[a].insert(b) =~= m2[a]);
    assert(add_dir(m2, a, b) =~= m2);
    assert(m2[b].insert(a) =~= m2[b]);
    assert(add_edge(m2, a, b) =~= m2);
}

} // verus!
