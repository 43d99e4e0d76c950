//! Breadth-first shortest-path search over a built graph.

use vstd::prelude::*;
use vstd::seq_lib::*;
use vstd::set_lib::lemma_len_subset;
use std::collections::HashMap;
use crate::SearchError;
use crate::graph::{Graph, adjacent, lemma_graph_symmetric, lemma_graph_finite};

verus! {

broadcast use vstd::std_specs::hash::group_hash_axioms, vstd::set::group_set_axioms;

/// Consecutive entries of `p` are neighbors in `m`.
pub open spec fn is_walk(m: Map<u32, Set<u32>>, p: Seq<u32>) -> bool {
    forall|i: int| 0 <= i < p.len() - 1 ==> adjacent(m, #[trigger] p[i], p[i + 1])
}

/// `p` is a walk through `m` that starts at `a` and ends at `b`.
pub open spec fn connects(m: Map<u32, Set<u32>>, p: Seq<u32>, a: u32, b: u32) -> bool {
    &&& p.len() > 0
    &&& p[0] == a
    &&& p[p.len() - 1] == b
    &&& is_walk(m, p)
}

/// Some walk through `m` leads from `a` to `b`.
pub open spec fn reachable(m: Map<u32, Set<u32>>, a: u32, b: u32) -> bool {
    exists|p: Seq<u32>| connects(m, p, a, b)
}

/// Every discovered node carries a level no larger than the length of any
/// walk that reaches it from `init`.
spec fn levels_minimal(g: Map<u32, Set<u32>>, lv: Map<u32, nat>, init: u32) -> bool {
    forall|n: u32, p: Seq<u32>|
        lv.contains_key(n) && #[trigger] connects(g, p, init, n) ==> p.len() >= lv[n] + 1
}

/// The parent map encodes, for every discovered node, one edge of a walk
/// back to `init`, descending one level per step.
spec fn parent_links_ok(
    g: Map<u32, Set<u32>>,
    pm: Map<u32, u32>,
    lv: Map<u32, nat>,
    init: u32,
) -> bool {
    &&& pm.contains_key(init)
    &&& pm[init] == init
    &&& lv.dom() == pm.dom()
    &&& lv[init] == 0
    &&& forall|n: u32|
        #[trigger] pm.contains_key(n) && n != init ==> pm.contains_key(pm[n])
            && adjacent(g, pm[n], n) && lv[n] == lv[pm[n]] + 1
}

/// A walk of at most `d` edges from `init` only reaches nodes that are
/// already discovered, at a level no larger than the walk's length, as long
/// as every discovered node below level `d` has all its neighbors
/// discovered one level further at most.
proof fn lemma_short_walk_discovered(
    g: Map<u32, Set<u32>>,
    lv: Map<u32, nat>,
    d: nat,
    p: Seq<u32>,
    init: u32,
    x: u32,
)
    requires
        lv.contains_key(init),
        lv[init] == 0,
        forall|n: u32, b: u32|
            lv.contains_key(n) && lv[n] < d && #[trigger] adjacent(g, n, b)
                ==> lv.contains_key(b) && lv[b] <= lv[n] + 1,
        connects(g, p, init, x),
        p.len() <= d + 1,
    ensures
        lv.contains_key(x),
        lv[x] <= p.len() - 1,
    decreases p.len(),
{
    if p.len() == 1 {
        assert(x == init);
    } else {
        let p2 = p.drop_last();
        let y = p2[p2.len() - 1];
        assert forall|i: int| 0 <= i < p2.len() - 1 implies
            adjacent(g, #[trigger] p2[i], p2[i + 1]) by {
            assert(adjacent(g, p[i], p[i + 1]));
        }
        assert(connects(g, p2, init, y));
        lemma_short_walk_discovered(g, lv, d, p2, init, y);
        assert(adjacent(g, p[p.len() - 2], p[p.len() - 1]));
        assert(lv[y] < d);
    }
}

/// A walk cannot leave a set of nodes that is closed under the neighbor
/// relation.
proof fn lemma_closed_set_blocks(
    g: Map<u32, Set<u32>>,
    s: Set<u32>,
    p: Seq<u32>,
    a: u32,
    b: u32,
)
    requires
        s.contains(a),
        forall|n: u32, c: u32|
            s.contains(n) && #[trigger] adjacent(g, n, c) ==> s.contains(c),
        connects(g, p, a, b),
    ensures
        s.contains(b),
    decreases p.len(),
{
    if p.len() == 1 {
        assert(b == a);
    } else {
        let p2 = p.drop_last();
        let y = p2[p2.len() - 1];
        assert forall|i: int| 0 <= i < p2.len() - 1 implies
            adjacent(g, #[trigger] p2[i], p2[i + 1]) by {
            assert(adjacent(g, p[i], p[i + 1]));
        }
        assert(connects(g, p2, a, y));
        lemma_closed_set_blocks(g, s, p2, a, y);
        assert(adjacent(g, p[p.len() - 2], p[p.len() - 1]));
    }
}

/// A node with a walk to some other node has a neighbor entry.
proof fn lemma_reachable_has_entry(g: Map<u32, Set<u32>>, a: u32, b: u32)
    requires
        reachable(g, a, b),
        a != b,
    ensures
        g.contains_key(a),
{
    let p = choose|p: Seq<u32>| connects(g, p, a, b);
    assert(p.len() >= 2);
    assert(adjacent(g, p[0], p[1]));
}

/// Appending to a sequence adds exactly one element to its set.
proof fn lemma_push_to_set(s: Seq<u32>, x: u32)
    ensures
        s.push(x).to_set() == s.to_set().insert(x),
{
    let s2 = s.push(x);
    assert forall|y: u32| s2.to_set().contains(y) == s.to_set().insert(x).contains(y) by {
        if s2.contains(y) {
            let idx = choose|idx: int| 0 <= idx < s2.len() && s2[idx] == y;
            if idx < s.len() {
                assert(s[idx] == y);
                assert(s.contains(y));
            }
        }
        if s.contains(y) {
            let idx = choose|idx: int| 0 <= idx < s.len() && s[idx] == y;
            assert(s2[idx] == y);
            assert(s2.contains(y));
        }
        if y == x {
            assert(s2[s.len() as int] == x);
            assert(s2.contains(y));
        }
    }
    assert(s2.to_set() =~= s.to_set().insert(x));
}

/// Walk the parent links back from `goal` and return the recorded walk
/// from `init` to `goal`, whose length is one more than the level of
/// `goal`.
fn rebuild_path(
    parents: &HashMap<u32, u32>,
    Ghost(g): Ghost<Map<u32, Set<u32>>>,
    Ghost(lv): Ghost<Map<u32, nat>>,
    init: u32,
    goal: u32,
) -> (path: Vec<u32>)
    requires
        parent_links_ok(g, parents@, lv, init),
        parents@.contains_key(goal),
    ensures
        connects(g, path@, init, goal),
        path@.len() == lv[goal] + 1,
{
    let mut rev: Vec<u32> = Vec::new();
    rev.push(goal);
    let mut cur: u32 = goal;
    while cur != init
        invariant
            parent_links_ok(g, parents@, lv, init),
            parents@.contains_key(cur),
            rev@.len() >= 1,
            rev@[0] == goal,
            rev@[rev@.len() - 1] == cur,
            forall|i: int|
                0 <= i < rev@.len() - 1 ==> adjacent(g, #[trigger] rev@[i + 1], rev@[i]),
            lv[cur] + rev@.len() == lv[goal] + 1,
        decreases lv[cur],
    {
        let p: u32 = match parents.get(&cur) {
            Some(x) => *x,
            None => {
                proof {
                    assert(false);
                }
                0
            },
        };
        rev.push(p);
        cur = p;
    }
    let ghost n = rev@.len();
    let mut path: Vec<u32> = Vec::new();
    let mut i: usize = rev.len();
    while i > 0
        invariant
            i <= rev@.len(),
            rev@.len() == n,
            path@.len() == n - i,
            forall|k: int| 0 <= k < path@.len() ==> path@[k] == rev@[n - 1 - k],
        decreases i,
    {
        i -= 1;
        let x = rev[i];
        path.push(x);
    }
    proof {
        assert(path@[0] == rev@[n - 1]);
        assert(path@[path@.len() - 1] == rev@[0]);
        assert forall|k: int| 0 <= k < path@.len() - 1 implies
            adjacent(g, #[trigger] path@[k], path@[k + 1]) by {
            let i2 = n - 2 - k;
            assert(path@[k] == rev@[i2 + 1]);
            assert(path@[k + 1] == rev@[i2]);
            assert(adjacent(g, rev@[i2 + 1], rev@[i2]));
        }
        assert(connects(g, path@, init, goal));
    }
    path
}

/// Breadth-first search for a shortest path from `init` to `goal`.
///
/// Returns the path (both endpoints included) with the fewest edges when
/// one exists, `Ok(None)` when `goal` cannot be reached, and
/// `UnknownNode(init)` when `init` never occurred as an edge endpoint and
/// differs from `goal`.  When `init == goal` the one-node path is returned
/// without consulting the graph.
///
/// When several paths share the fewest edges, which one comes back is a
/// tie-break the contract leaves open: the search expands each node's
/// neighbors in first-insertion order.
pub fn bfs(graph: &Graph, init: u32, goal: u32) -> (r: Result<Option<Vec<u32>>, SearchError>)
    requires
        graph.wf(),
    ensures
        r is Err <==> (init != goal && !graph@.contains_key(init)),
        r is Err ==> r->Err_0 == SearchError::UnknownNode(init),
        (r is Ok && r->Ok_0 is Some) <==> reachable(graph@, init, goal),
        r is Ok && r->Ok_0 is Some ==> connects(graph@, (r->Ok_0->Some_0)@, init, goal)
            && (forall|p: Seq<u32>|
                connects(graph@, p, init, goal) ==> p.len() >= (r->Ok_0->Some_0)@.len()),
        r is Ok && r->Ok_0 is None ==> !reachable(graph@, init, goal)
            && graph@.contains_key(init) && init != goal,
{
    let ghost g: Map<u32, Set<u32>> = graph@;
    let mut q: Vec<u32> = Vec::new();
    q.push(init);
    let mut head: usize = 0;
    let mut parents: HashMap<u32, u32> = HashMap::new();
    parents.insert(init, init);
    let ghost mut level: Map<u32, nat> = Map::<u32, nat>::empty().insert(init, 0nat);
    proof {
        assert(q@[0] == init);
        assert(q@.contains(init));
        assert(parents@.dom() =~= q@.to_set());
        assert(level.dom() =~= parents@.dom());
        assert forall|n: u32, p: Seq<u32>|
            level.contains_key(n) && #[trigger] connects(g, p, init, n) implies
            p.len() >= level[n] + 1 by {}
    }
    while head < q.len()
        invariant
            graph.wf(),
            g == graph@,
            head <= q@.len(),
            q@.len() >= 1,
            q@[0] == init,
            q@.no_duplicates(),
            parents@.dom() == q@.to_set(),
            q@.to_set().subset_of(g.dom().insert(init)),
            q@.len() <= g.dom().len() + 1,
            parent_links_ok(g, parents@, level, init),
            levels_minimal(g, level, init),
            forall|n: u32|
                #[trigger] parents@.contains_key(n) && n != init ==> g.contains_key(n),
            forall|i: int, j: int|
                0 <= i <= j < q@.len() ==> level[#[trigger] q@[i]] <= level[#[trigger] q@[j]],
            forall|i: int|
                head <= i < q@.len() ==> level[#[trigger] q@[i]] <= level[q@[head as int]] + 1,
            forall|i: int, b: u32|
                0 <= i < head && #[trigger] adjacent(g, q@[i], b)
                    ==> parents@.contains_key(b) && level[b] <= level[q@[i]] + 1,
            forall|i: int| 0 <= i < head ==> q@[i] != goal,
            head >= 1 ==> (init == goal || g.contains_key(init)),
        decreases g.dom().len() + 1 - head,
    {
        let node = q[head];
        proof {
            assert(q@.contains(node));
            assert(parents@.contains_key(node));
            if node != init {
                assert(q@[0] == init);
                assert(head >= 1);
            }
        }
        head = head + 1;
        if node == goal {
            let path = rebuild_path(&parents, Ghost(g), Ghost(level), init, goal);
            proof {
                assert(reachable(g, init, goal));
                assert forall|p: Seq<u32>| connects(g, p, init, goal) implies
                    p.len() >= path@.len() by {
                    assert(p.len() >= level[goal] + 1);
                }
            }
            return Ok(Some(path));
        }
        let ghost d: nat = level[node];
        match graph.neighbors(node) {
            None => {
                proof {
                    assert(node == init);
                    assert(init != goal);
                    if reachable(g, init, goal) {
                        lemma_reachable_has_entry(g, init, goal);
                        assert(false);
                    }
                }
                return Err(SearchError::UnknownNode(node));
            },
            Some(ns) => {
                proof {
                    if node == init {
                        assert(g.contains_key(init));
                    }
                }
                let mut j: usize = 0;
                while j < ns.len()
                    invariant
                        graph.wf(),
                        g == graph@,
                        j <= ns@.len(),
                        1 <= head <= q@.len(),
                        q@.len() >= 1,
                        q@[0] == init,
                        q@.no_duplicates(),
                        parents@.dom() == q@.to_set(),
                        q@.to_set().subset_of(g.dom().insert(init)),
                        q@.len() <= g.dom().len() + 1,
                        parent_links_ok(g, parents@, level, init),
                        levels_minimal(g, level, init),
                        forall|n: u32|
                            #[trigger] parents@.contains_key(n) && n != init
                                ==> g.contains_key(n),
                        forall|i: int, j2: int|
                            0 <= i <= j2 < q@.len() ==> level[#[trigger] q@[i]]
                                <= level[#[trigger] q@[j2]],
                        node == q@[head - 1],
                        level.contains_key(node),
                        level[node] == d,
                        node != goal,
                        g.contains_key(node),
                        ns@.to_set() == g[node],
                        ns@.no_duplicates(),
                        forall|i: int|
                            head - 1 <= i < q@.len() ==> level[#[trigger] q@[i]] <= d + 1,
                        forall|i: int, b: u32|
                            0 <= i < head - 1 && #[trigger] adjacent(g, q@[i], b)
                                ==> parents@.contains_key(b) && level[b] <= level[q@[i]] + 1,
                        forall|k: int|
                            0 <= k < j ==> parents@.contains_key(#[trigger] ns@[k])
                                && level[ns@[k]] <= d + 1,
                        forall|i: int| 0 <= i < head ==> q@[i] != goal,
                        init == goal || g.contains_key(init),
                    decreases ns@.len() - j,
                {
                    let child = ns[j];
                    proof {
                        assert(ns@.contains(child));
                        assert(g[node].contains(child));
                        assert(adjacent(g, node, child));
                        lemma_graph_symmetric(graph, node, child);
                    }
                    if !parents.contains_key(&child) {
                        proof {
                            // No walk of at most `d` edges reaches an
                            // undiscovered node, so `d + 1` is the exact
                            // level of `child`.
                            assert forall|n: u32, b: u32|
                                level.contains_key(n) && level[n] < d
                                    && #[trigger] adjacent(g, n, b) implies
                                level.contains_key(b) && level[b] <= level[n] + 1 by {
                                assert(parents@.contains_key(n));
                                assert(q@.to_set().contains(n));
                                assert(q@.contains(n));
                                let k = choose|k: int| 0 <= k < q@.len() && q@[k] == n;
                                if k >= head - 1 {
                                    assert(level[q@[head - 1]] <= level[q@[k]]);
                                    assert(false);
                                }
                            }
                            assert forall|p: Seq<u32>| #[trigger] connects(g, p, init, child)
                                implies p.len() >= d + 2 by {
                                if p.len() <= d + 1 {
                                    lemma_short_walk_discovered(g, level, d, p, init, child);
                                    assert(false);
                                }
                            }
                        }
                        let ghost q0 = q@;
                        let ghost pm0 = parents@;
                        let ghost lv0 = level;
                        parents.insert(child, node);
                        q.push(child);
                        proof {
                            level = level.insert(child, (d + 1) as nat);
                            lemma_push_to_set(q0, child);
                            assert(parents@.dom() =~= q@.to_set());
                            assert(level.dom() =~= parents@.dom());
                            // the queue stays sorted by level and within
                            // one level of the node being expanded
                            assert forall|i: int, j2: int|
                                0 <= i <= j2 < q@.len() implies level[#[trigger] q@[i]]
                                    <= level[#[trigger] q@[j2]] by {
                                if j2 < q@.len() - 1 {
                                    assert(q@[i] == q0[i]);
                                    assert(q@[j2] == q0[j2]);
                                } else if i < q@.len() - 1 {
                                    assert(q@[i] == q0[i]);
                                    assert(level[q0[i]] <= d + 1);
                                }
                            }
                            // the new node count still fits under the
                            // number of graph nodes plus the start
                            q0.unique_seq_to_set();
                            q@.unique_seq_to_set();
                            lemma_graph_finite(graph);
                            assert(g.dom().contains(child));
                            assert(q@.to_set().subset_of(g.dom().insert(init)));
                            lemma_len_subset(q@.to_set(), g.dom().insert(init));
                            assert(g.dom().insert(init).len() <= g.dom().len() + 1);
                            // parent links reach the new child
                            assert(parent_links_ok(g, parents@, level, init));
                            assert forall|n: u32, p: Seq<u32>|
                                level.contains_key(n) && #[trigger] connects(g, p, init, n)
                                implies p.len() >= level[n] + 1 by {
                                if n == child {
                                    assert(p.len() >= d + 2);
                                } else {
                                    assert(lv0.contains_key(n));
                                }
                            }
                        }
                    }
                    j += 1;
                }
                proof {
                    // every neighbor of `node` is now discovered, so the
                    // processed part of the queue is complete up to `head`
                    assert forall|i: int, b: u32|
                        0 <= i < head && #[trigger] adjacent(g, q@[i], b) implies
                        parents@.contains_key(b) && level[b] <= level[q@[i]] + 1 by {
                        if i == head - 1 {
                            assert(g[node].contains(b));
                            assert(ns@.to_set().contains(b));
                            assert(ns@.contains(b));
                            let k = choose|k: int| 0 <= k < ns@.len() && ns@[k] == b;
                            assert(parents@.contains_key(ns@[k]));
                        }
                    }
                    assert forall|i: int|
                        head <= i < q@.len() implies level[#[trigger] q@[i]]
                            <= level[q@[head as int]] + 1 by {
                        assert(level[q@[head - 1]] <= level[q@[head as int]]);
                        assert(level[q@[i]] <= d + 1);
                    }
                }
            },
        }
    }
    proof {
        let s = parents@.dom();
        assert forall|n: u32, c: u32| s.contains(n) && #[trigger] adjacent(g, n, c) implies
            s.contains(c) by {
            assert(q@.to_set().contains(n));
            assert(q@.contains(n));
            let k = choose|k: int| 0 <= k < q@.len() && q@[k] == n;
            assert(adjacent(g, q@[k], c));
        }
        assert(q@.contains(init));
        assert(s.contains(init));
        if reachable(g, init, goal) {
            let p = choose|p: Seq<u32>| connects(g, p, init, goal);
            lemma_closed_set_blocks(g, s, p, init, goal);
            assert(q@.to_set().contains(goal));
            assert(q@.contains(goal));
            let k = choose|k: int| 0 <= k < q@.len() && q@[k] == goal;
            assert(false);
        }
        if init == goal {
            let w = seq![init];
            assert(w[0] == init);
            assert(w.len() == 1);
            assert(connects(g, w, init, goal));
            assert(false);
        }
        assert(g.contains_key(init));
    }
    Ok(None)
}

} // verus!
