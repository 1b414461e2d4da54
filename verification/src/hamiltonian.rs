//! Enumeration of the Hamiltonian cycles of a directed graph through a
//! given start node, by depth-first extension of a path.
use vstd::prelude::*;

verus! {

/// A directed graph on the nodes `0 .. adjacency.len()`; `adjacency[v]`
/// lists the nodes that `v` has an edge to, and a Hamiltonian cycle visits
/// `total_nodes` nodes.
pub struct Graph {
    pub adjacency: Vec<Vec<usize>>,
    pub total_nodes: usize,
}

/// The adjacency lists of a graph as sequences. This is not a view of the
/// whole graph: contracts read its other field, `total_nodes`, directly.
pub open spec fn adj_of(g: &Graph) -> Seq<Seq<usize>> {
    g.adjacency@.map_values(|l: Vec<usize>| l@)
}

/// The lists of a vector of paths as sequences.
pub open spec fn paths_of(r: &Vec<Vec<usize>>) -> Seq<Seq<usize>> {
    r@.map_values(|p: Vec<usize>| p@)
}

impl Graph {
    /// The graph with these adjacency lists; it has one node per list.
    pub fn new(adjacency: Vec<Vec<usize>>) -> (g: Graph)
        ensures
            g.adjacency@ == adjacency@,
            g.total_nodes == adjacency@.len(),
    {
        let total_nodes = adjacency.len();
        Graph { adjacency, total_nodes }
    }
}

/// Whether the node numbered `x` is on `path`.
pub open spec fn on_path(path: Seq<usize>, x: int) -> bool {
    exists|k: int| 0 <= k < path.len() && path[k] as int == x
}

/// The number of nodes below `v` that are neither on `path` nor `node`.
pub open spec fn fresh_count(path: Seq<usize>, node: usize, v: nat) -> nat
    decreases v,
{
    if v == 0 {
        0
    } else {
        fresh_count(path, node, (v - 1) as nat) + if !on_path(path, v - 1) && v - 1 != node {
            1nat
        } else {
            0nat
        }
    }
}

/// How far the search from `node` along `path` can still go: twice the
/// nodes neither on the path nor `node`, plus one while `node` is not yet on
/// the path. Each step of the search lowers it.
pub open spec fn search_measure(adj: Seq<Seq<usize>>, path: Seq<usize>, node: usize) -> nat {
    2 * fresh_count(path, node, adj.len()) + if path.contains(node) {
        0nat
    } else {
        1nat
    }
}

proof fn lemma_fresh_count_step(path: Seq<usize>, node: usize, nb: usize, v: nat)
    requires
        !path.contains(nb),
    ensures
        fresh_count(path.push(node), nb, v) + (if nb < v && nb != node {
            1nat
        } else {
            0nat
        }) == fresh_count(path, node, v),
    decreases v,
{
    if v > 0 {
        lemma_fresh_count_step(path, node, nb, (v - 1) as nat);
        let x = v - 1;
        assert(on_path(path.push(node), x) <==> on_path(path, x) || x == node) by {
            if on_path(path.push(node), x) {
                let k = choose|k: int|
                    0 <= k < path.push(node).len() && path.push(node)[k] as int == x;
                if k < path.len() {
                    assert(path[k] == path.push(node)[k]);
                }
            }
            if on_path(path, x) {
                let k = choose|k: int| 0 <= k < path.len() && path[k] as int == x;
                assert(path.push(node)[k] == path[k]);
            }
            if x == node {
                assert(path.push(node)[path.len() as int] == node);
            }
        }
        assert(on_path(path, nb as int) == path.contains(nb)) by {
            if on_path(path, nb as int) {
                let k = choose|k: int| 0 <= k < path.len() && path[k] as int == nb;
                assert(path[k] == nb);
            }
        }
    }
}

/// A step of the search to a neighbour off the path, within the graph,
/// lowers the measure.
pub proof fn lemma_search_measure_step(adj: Seq<Seq<usize>>, path: Seq<usize>, node: usize, nb: usize)
    requires
        nb < adj.len(),
        !path.contains(nb),
    ensures
        search_measure(adj, path.push(node), nb) < search_measure(adj, path, node),
{
    lemma_fresh_count_step(path, node, nb, adj.len());
    assert(path.push(node)[path.len() as int] == node);
    if nb != node {
        assert(!path.push(node).contains(nb)) by {
            if path.push(node).contains(nb) {
                let k = choose|k: int| 0 <= k < path.push(node).len() && path.push(node)[k] == nb;
                if k < path.len() {
                    assert(path[k] == nb);
                }
            }
        }
    }
}

/// The cycles found from `node`, reached along `path`, in the order the
/// search finds them: once the path and `node` make `total` nodes, the path
/// closed through `node` back to `start` if `node` has an edge to `start`;
/// otherwise the cycles found from each neighbour of `node` that is not on
/// the path, neighbour by neighbour.
pub open spec fn cycles_from(
    adj: Seq<Seq<usize>>,
    total: nat,
    start: usize,
    node: usize,
    path: Seq<usize>,
) -> Seq<Seq<usize>>
    decreases search_measure(adj, path, node), adj[node as int].len() + 1,
{
    if path.len() + 1 == total {
        if adj[node as int].contains(start) {
            seq![path.push(node).push(start)]
        } else {
            Seq::empty()
        }
    } else {
        cycles_over(adj, total, start, node, path, adj[node as int].len())
    }
}

/// The cycles found from the first `i` neighbours of `node`; neighbours
/// outside the graph are not followed.
pub open spec fn cycles_over(
    adj: Seq<Seq<usize>>,
    total: nat,
    start: usize,
    node: usize,
    path: Seq<usize>,
    i: nat,
) -> Seq<Seq<usize>>
    decreases search_measure(adj, path, node), i,
{
    if i == 0 || i > adj[node as int].len() {
        Seq::empty()
    } else {
        let nb = adj[node as int][i - 1];
        cycles_over(adj, total, start, node, path, (i - 1) as nat) + if path.contains(nb) || nb
            >= adj.len() {
            Seq::empty()
        } else {
            proof {
                lemma_search_measure_step(adj, path, node, nb);
            }
            cycles_from(adj, total, start, nb, path.push(node))
        }
    }
}

/// Whether every node the search from `node` along `path` reaches, `node`
/// included, has an adjacency list: the search never looks up a node outside
/// the graph.
pub open spec fn reaches_only_nodes(
    adj: Seq<Seq<usize>>,
    total: nat,
    node: usize,
    path: Seq<usize>,
) -> bool
    decreases search_measure(adj, path, node),
{
    &&& node < adj.len()
    &&& (path.len() + 1 == total || forall|i: int|
        #![trigger adj[node as int][i]]
        0 <= i < adj[node as int].len() ==> {
            let nb = adj[node as int][i];
            path.contains(nb) || (nb < adj.len() && {
                proof {
                    lemma_search_measure_step(adj, path, node, nb);
                }
                reaches_only_nodes(adj, total, nb, path.push(node))
            })
        })
}

/// When every adjacency list names only nodes that have a list, the search
/// only reaches nodes of the graph.
pub proof fn lemma_wf_reaches_only_nodes(adj: Seq<Seq<usize>>, total: nat, node: usize, path: Seq<usize>)
    requires
        node < adj.len(),
        forall|v: int, k: int| 0 <= v < adj.len() && 0 <= k < adj[v].len() ==> #[trigger] adj[v][k] < adj.len(),
    ensures
        reaches_only_nodes(adj, total, node, path),
    decreases search_measure(adj, path, node),
{
    if path.len() + 1 != total {
        assert forall|i: int|
            #![trigger adj[node as int][i]]
            0 <= i < adj[node as int].len() implies {
            let nb = adj[node as int][i];
            path.contains(nb) || (nb < adj.len() && reaches_only_nodes(adj, total, nb, path.push(node)))
        } by {
            let nb = adj[node as int][i];
            if !path.contains(nb) {
                lemma_search_measure_step(adj, path, node, nb);
                lemma_wf_reaches_only_nodes(adj, total, nb, path.push(node));
            }
        }
    }
}

/// Whether `x` occurs in `v`.
fn contains_node(v: &Vec<usize>, x: usize) -> (r: bool)
    ensures
        r == v@.contains(x),
{
    let mut i: usize = 0;
    while i < v.len()
        invariant
            i <= v.len(),
            forall|j: int| 0 <= j < i ==> v@[j] != x,
        decreases v.len() - i,
    {
        if v[i] == x {
            return true;
        }
        i += 1;
    }
    false
}

/// Appends to `results` every cycle through `start` of `total_nodes` nodes
/// that continues `path` with `node`: depth first, a neighbour is followed
/// when it is not yet on the path, and once the path and the current node
/// make `total_nodes` nodes, the cycle is closed when the current node has
/// an edge back to `start`. Every node the search reaches must have an
/// adjacency list; in a well-formed graph every node does
/// (`lemma_wf_reaches_only_nodes`).
pub fn get_hamiltonian_cycles(
    node: usize,
    start: usize,
    graph: &Graph,
    path: Vec<usize>,
    results: &mut Vec<Vec<usize>>,
)
    requires
        reaches_only_nodes(adj_of(graph), graph.total_nodes as nat, node, path@),
    ensures
        paths_of(final(results)) == paths_of(old(results)) + cycles_from(
            adj_of(graph),
            graph.total_nodes as nat,
            start,
            node,
            path@,
        ),
    decreases search_measure(adj_of(graph), path@, node),
{
    let ghost adj = adj_of(graph);
    let ghost total = graph.total_nodes as nat;
    assert(adj[node as int] == graph.adjacency@[node as int]@);
    if graph.total_nodes > 0 && path.len() == graph.total_nodes - 1 {
        if contains_node(&graph.adjacency[node], start) {
            let mut closed = path;
            closed.push(node);
            closed.push(start);
            let ghost before = paths_of(results);
            results.push(closed);
            assert(paths_of(results) =~= before + cycles_from(adj, total, start, node, path@));
        }
        return;
    }
    let neighbours = &graph.adjacency[node];
    let ghost before = paths_of(results);
    let mut i: usize = 0;
    while i < neighbours.len()
        invariant
            reaches_only_nodes(adj, total, node, path@),
            adj == adj_of(graph),
            total == graph.total_nodes,
            node < adj.len(),
            neighbours@ == adj[node as int],
            path@.len() + 1 != total,
            i <= neighbours.len(),
            paths_of(results) == before + cycles_over(adj, total, start, node, path@, i as nat),
        decreases neighbours.len() - i,
    {
        let neighbour = neighbours[i];
        assert(graph.adjacency@[node as int]@[i as int] == neighbour);
        assert(adj[node as int][i as int] == neighbour);
        if !contains_node(&path, neighbour) {
            let mut new_path = path.clone();
            new_path.push(node);
            proof {
                lemma_search_measure_step(adj, path@, node, neighbour);
            }
            get_hamiltonian_cycles(neighbour, start, graph, new_path, results);
        }
        i += 1;
        assert(paths_of(results) =~= before + cycles_over(adj, total, start, node, path@, i as nat));
    }
}

/// Whether `c` is a cycle that the search from `node` along `path` can
/// produce: it has `total + 1` entries, starts with `path` then `node`,
/// ends at `start` through an edge from its node at position `total - 1`,
/// and each later step follows an edge to a node that is not on the path
/// before the step.
pub open spec fn extends(
    adj: Seq<Seq<usize>>,
    total: nat,
    start: usize,
    node: usize,
    path: Seq<usize>,
    c: Seq<usize>,
) -> bool {
    &&& c.len() == total + 1
    &&& c.take(path.len() as int) == path
    &&& c[path.len() as int] == node
    &&& c[total as int] == start
    &&& adj[c[total - 1] as int].contains(start)
    &&& forall|k: int|
        #![trigger c[k + 1]]
        path.len() <= k < total - 1 ==> adj[c[k] as int].contains(c[k + 1]) && !c.take(k).contains(
            c[k + 1],
        )
}

/// A cycle found from the first `i` neighbours comes from one of them.
proof fn lemma_cycles_over_members(
    adj: Seq<Seq<usize>>,
    total: nat,
    start: usize,
    node: usize,
    path: Seq<usize>,
    i: nat,
    c: Seq<usize>,
)
    requires
        node < adj.len(),
        forall|v: int, k: int| 0 <= v < adj.len() && 0 <= k < adj[v].len() ==> #[trigger] adj[v][k] < adj.len(),
        i <= adj[node as int].len(),
    ensures
        cycles_over(adj, total, start, node, path, i).contains(c) <==> exists|j: int|
            0 <= j < i && !path.contains(#[trigger] adj[node as int][j]) && cycles_from(
                adj,
                total,
                start,
                adj[node as int][j],
                path.push(node),
            ).contains(c),
    decreases i,
{
    if i > 0 {
        lemma_cycles_over_members(adj, total, start, node, path, (i - 1) as nat, c);
        let nb = adj[node as int][i - 1];
        let prev = cycles_over(adj, total, start, node, path, (i - 1) as nat);
        let last = if path.contains(nb) || nb >= adj.len() {
            Seq::empty()
        } else {
            cycles_from(adj, total, start, nb, path.push(node))
        };
        vstd::seq_lib::lemma_seq_concat_contains_all_elements(prev, last, c);
        if cycles_over(adj, total, start, node, path, i).contains(c) {
            if !prev.contains(c) {
                assert(last.contains(c));
                assert(!path.contains(adj[node as int][i - 1]));
            }
        }
    }
}

/// Closing the path or taking one more step: a cycle extends `path` with
/// `node` exactly when its next node is a neighbour of `node` off the path
/// and the cycle extends the longer path with that neighbour.
proof fn lemma_extends_step(
    adj: Seq<Seq<usize>>,
    total: nat,
    start: usize,
    node: usize,
    path: Seq<usize>,
    c: Seq<usize>,
)
    requires
        path.len() + 1 < total,
    ensures
        extends(adj, total, start, node, path, c) <==> {
            &&& c.len() > path.len() + 1
            &&& adj[node as int].contains(c[path.len() + 1int])
            &&& !path.contains(c[path.len() + 1int])
            &&& extends(adj, total, start, c[path.len() + 1int], path.push(node), c)
        },
{
    let pl = path.len() as int;
    if extends(adj, total, start, node, path, c) {
        assert(c.take(pl + 1) =~= path.push(node)) by {
            assert(c.take(pl) == path);
        }
        assert(c.take(pl) =~= path);
        assert(adj[c[pl] as int].contains(c[pl + 1]));
        assert(!c.take(pl).contains(c[pl + 1]));
        assert(c[pl] == node);
        let nb = c[pl + 1];
        assert(c.take(path.push(node).len() as int) == path.push(node));
        assert(c[path.push(node).len() as int] == nb);
        assert forall|k: int|
            #![trigger c[k + 1]]
            path.push(node).len() <= k < total - 1 implies adj[c[k] as int].contains(c[k + 1])
            && !c.take(k).contains(c[k + 1]) by {
            assert(pl <= k);
        }
        assert(extends(adj, total, start, nb, path.push(node), c));
    }
    if c.len() > path.len() + 1 && adj[node as int].contains(c[pl + 1]) && !path.contains(c[pl + 1])
        && extends(adj, total, start, c[pl + 1], path.push(node), c) {
        assert(c.take(pl) =~= c.take(pl + 1).take(pl));
        assert(path.push(node).take(pl) =~= path);
        assert(c.take(pl) == path);
        assert(c[pl] == c.take(pl + 1)[pl]);
        assert(c[pl] == node);
        assert forall|k: int|
            #![trigger c[k + 1]]
            pl <= k < total - 1 implies adj[c[k] as int].contains(c[k + 1]) && !c.take(k).contains(
                c[k + 1],
            ) by {
            if k == pl {
                assert(c.take(k) =~= path);
            } else {
                assert(pl + 1 <= k);
            }
        }
    }
}

/// The search finds exactly the cycles that extend the path: a sequence is
/// among the cycles found from `node` along `path` if and only if it
/// starts with `path` and `node`, has `total + 1` entries, steps along edges
/// to nodes that were not yet on the path, and closes with an edge back to
/// `start`.
pub proof fn lemma_cycles_from_members(
    adj: Seq<Seq<usize>>,
    total: nat,
    start: usize,
    node: usize,
    path: Seq<usize>,
    c: Seq<usize>,
)
    requires
        path.len() < total,
        node < adj.len(),
        forall|v: int, k: int| 0 <= v < adj.len() && 0 <= k < adj[v].len() ==> #[trigger] adj[v][k] < adj.len(),
    ensures
        cycles_from(adj, total, start, node, path).contains(c) <==> extends(
            adj,
            total,
            start,
            node,
            path,
            c,
        ),
    decreases total - path.len(),
{
    let pl = path.len() as int;
    if path.len() + 1 == total {
        let closed = path.push(node).push(start);
        assert(closed.take(pl) =~= path);
        assert(closed[pl] == node);
        assert(closed[total as int] == start);
        if extends(adj, total, start, node, path, c) {
            assert(c =~= closed) by {
                assert(c.take(pl) == path);
                assert forall|k: int| 0 <= k < c.len() implies c[k] == closed[k] by {
                    if k < pl {
                        assert(c.take(pl)[k] == c[k]);
                    }
                }
            }
            assert(adj[node as int].contains(start));
            assert(cycles_from(adj, total, start, node, path) == seq![closed]);
            assert(seq![closed][0] == closed);
        }
        if cycles_from(adj, total, start, node, path).contains(c) {
            assert(adj[node as int].contains(start));
            assert(cycles_from(adj, total, start, node, path) == seq![closed]);
            assert(c == closed);
            assert(extends(adj, total, start, node, path, c));
        }
    } else {
        lemma_cycles_over_members(adj, total, start, node, path, adj[node as int].len(), c);
        lemma_extends_step(adj, total, start, node, path, c);
        if cycles_from(adj, total, start, node, path).contains(c) {
            let j = choose|j: int|
                0 <= j < adj[node as int].len() && !path.contains(#[trigger] adj[node as int][j])
                    && cycles_from(
                    adj,
                    total,
                    start,
                    adj[node as int][j],
                    path.push(node),
                ).contains(c);
            let nb = adj[node as int][j];
            lemma_cycles_from_members(adj, total, start, nb, path.push(node), c);
            assert(c[pl + 1] == nb);
            assert(adj[node as int].contains(nb));
        }
        if extends(adj, total, start, node, path, c) {
            let nb = c[pl + 1];
            let j = choose|j: int| 0 <= j < adj[node as int].len() && adj[node as int][j] == nb;
            lemma_cycles_from_members(adj, total, start, nb, path.push(node), c);
            assert(!path.contains(adj[node as int][j]));
        }
    }
}

/// The cycles found from the first `i` neighbours of `node` are distinct,
/// and each continues the path with one of those neighbours.
proof fn lemma_cycles_over_distinct(
    adj: Seq<Seq<usize>>,
    total: nat,
    start: usize,
    node: usize,
    path: Seq<usize>,
    i: nat,
)
    requires
        path.len() + 1 < total,
        node < adj.len(),
        i <= adj[node as int].len(),
        forall|v: int, k: int| 0 <= v < adj.len() && 0 <= k < adj[v].len() ==> #[trigger] adj[v][k] < adj.len(),
        forall|v: int| 0 <= v < adj.len() ==> #[trigger] adj[v].no_duplicates(),
    ensures
        cycles_over(adj, total, start, node, path, i).no_duplicates(),
    decreases total - path.len(), i,
{
    if i > 0 {
        let pl = path.len() as int;
        let nb = adj[node as int][i - 1];
        let prev = cycles_over(adj, total, start, node, path, (i - 1) as nat);
        let last = if path.contains(nb) || nb >= adj.len() {
            Seq::empty()
        } else {
            cycles_from(adj, total, start, nb, path.push(node))
        };
        lemma_cycles_over_distinct(adj, total, start, node, path, (i - 1) as nat);
        if !(path.contains(nb) || nb >= adj.len()) {
            lemma_cycles_from_distinct(adj, total, start, nb, path.push(node));
        }
        let all = cycles_over(adj, total, start, node, path, i);
        assert(all == prev + last);
        assert forall|p: int, q: int| 0 <= p < q < all.len() implies all[p] != all[q] by {
            if p < prev.len() && q >= prev.len() {
                let c = all[q];
                assert(last.contains(c)) by {
                    assert(last[q - prev.len()] == c);
                }
                lemma_cycles_from_members(adj, total, start, nb, path.push(node), c);
                assert(c[pl + 1] == nb);
                if all[p] == c {
                    assert(prev.contains(c)) by {
                        assert(prev[p] == c);
                    }
                    lemma_cycles_over_members(adj, total, start, node, path, (i - 1) as nat, c);
                    let j = choose|j: int|
                        0 <= j < i - 1 && !path.contains(#[trigger] adj[node as int][j]) && cycles_from(
                            adj,
                            total,
                            start,
                            adj[node as int][j],
                            path.push(node),
                        ).contains(c);
                    lemma_cycles_from_members(adj, total, start, adj[node as int][j], path.push(node), c);
                    assert(adj[node as int][j] == nb);
                    assert(adj[node as int].no_duplicates());
                }
            } else if p < prev.len() {
                assert(prev[p] != prev[q]);
            } else {
                assert(last[p - prev.len()] != last[q - prev.len()]);
            }
        }
    }
}

/// The search from `node` along `path` never finds a cycle twice.
proof fn lemma_cycles_from_distinct(
    adj: Seq<Seq<usize>>,
    total: nat,
    start: usize,
    node: usize,
    path: Seq<usize>,
)
    requires
        path.len() < total,
        node < adj.len(),
        forall|v: int, k: int| 0 <= v < adj.len() && 0 <= k < adj[v].len() ==> #[trigger] adj[v][k] < adj.len(),
        forall|v: int| 0 <= v < adj.len() ==> #[trigger] adj[v].no_duplicates(),
    ensures
        cycles_from(adj, total, start, node, path).no_duplicates(),
    decreases total - path.len(), adj[node as int].len() + 1,
{
    if path.len() + 1 != total {
        lemma_cycles_over_distinct(adj, total, start, node, path, adj[node as int].len());
    }
}

/// When no adjacency list names a node twice, the cycles found from the
/// start node are pairwise distinct: each Hamiltonian cycle is listed
/// exactly once.
pub proof fn lemma_found_cycles_distinct(adj: Seq<Seq<usize>>, total: nat, start: usize)
    requires
        total > 0,
        start < adj.len(),
        forall|v: int, k: int| 0 <= v < adj.len() && 0 <= k < adj[v].len() ==> #[trigger] adj[v][k] < adj.len(),
        forall|v: int| 0 <= v < adj.len() ==> #[trigger] adj[v].no_duplicates(),
    ensures
        cycles_from(adj, total, start, start, Seq::empty()).no_duplicates(),
{
    lemma_cycles_from_distinct(adj, total, start, start, Seq::empty());
}

/// On a graph without self loops, every cycle the search finds from the
/// start node is Hamiltonian: it visits each of the `total` nodes exactly
/// once before returning to the start.
pub proof fn lemma_found_cycles_are_hamiltonian(
    adj: Seq<Seq<usize>>,
    total: nat,
    start: usize,
    c: Seq<usize>,
)
    requires
        total > 0,
        forall|v: int, i: int|
            0 <= v < adj.len() && 0 <= i < adj[v].len() ==> #[trigger] adj[v][i] != v,
        adj.len() == total,
        forall|v: int, i: int|
            0 <= v < adj.len() && 0 <= i < adj[v].len() ==> #[trigger] adj[v][i] < total,
        start < total,
        total <= usize::MAX,
        cycles_from(adj, total, start, start, Seq::empty()).contains(c),
    ensures
        c.len() == total + 1,
        c[0] == start,
        c[total as int] == start,
        forall|i: int, j: int| 0 <= i < j < total ==> c[i] != c[j],
        forall|v: usize| v < total ==> #[trigger] c.take(total as int).contains(v),
{
    lemma_cycles_from_members(adj, total, start, start, Seq::empty(), c);
    assert forall|i: int, j: int| 0 <= i < j < total implies c[i] != c[j] by {
        let k = j - 1;
        assert(adj[c[k] as int].contains(c[k + 1]));
        assert(!c.take(k).contains(c[k + 1]));
        if i < k {
            assert(c.take(k)[i] == c[i]);
        } else {
            lemma_cycle_nodes_in_range(adj, total, start, c, k);
            let t = choose|t: int|
                0 <= t < adj[c[k] as int].len() && adj[c[k] as int][t] == c[k + 1];
            assert(adj[c[k] as int][t] != c[k]);
        }
    }
    assert forall|i: int| 0 <= i < total implies c.take(total as int)[i] < total by {
        lemma_cycle_nodes_in_range(adj, total, start, c, i);
    }
    lemma_distinct_cover(c.take(total as int), total);
}

/// The first `k + 1` nodes of a found cycle are nodes of the graph.
proof fn lemma_cycle_nodes_in_range(adj: Seq<Seq<usize>>, total: nat, start: usize, c: Seq<usize>, k: int)
    requires
        start < total,
        adj.len() == total,
        forall|v: int, i: int|
            0 <= v < adj.len() && 0 <= i < adj[v].len() ==> #[trigger] adj[v][i] < total,
        extends(adj, total, start, start, Seq::empty(), c),
        0 <= k < total,
    ensures
        c[k] < total,
    decreases k,
{
    if k > 0 {
        lemma_cycle_nodes_in_range(adj, total, start, c, k - 1);
        let k0 = k - 1;
        assert(adj[c[k0] as int].contains(c[k0 + 1]));
        let t = choose|t: int| 0 <= t < adj[c[k0] as int].len() && adj[c[k0] as int][t] == c[k0 + 1];
    }
}

/// `n` distinct values below `n` are all the values below `n`.
proof fn lemma_distinct_cover(s: Seq<usize>, n: nat)
    requires
        n <= usize::MAX + 1,
        s.len() == n,
        forall|i: int| 0 <= i < n ==> s[i] < n,
        forall|i: int, j: int| 0 <= i < j < n ==> s[i] != s[j],
    ensures
        forall|v: usize| v < n ==> #[trigger] s.contains(v),
{
    let set_s = s.to_set();
    let full = Set::new(|v: usize| v < n);
    assert(set_s.subset_of(full));
    assert(s.no_duplicates());
    s.unique_seq_to_set();
    lemma_full_len(n);
    assert forall|v: usize| v < n implies #[trigger] s.contains(v) by {
        if !s.contains(v) {
            assert(set_s.subset_of(full.remove(v)));
            vstd::set_lib::lemma_len_subset(set_s, full.remove(v));
        }
    }
}

/// There are `n` values of `usize` below `n`.
proof fn lemma_full_len(n: nat)
    requires
        n <= usize::MAX + 1,
    ensures
        Set::new(|v: usize| v < n).finite(),
        Set::new(|v: usize| v < n).len() == n,
    decreases n,
{
    let full = Set::new(|v: usize| v < n);
    if n == 0 {
        assert(full =~= Set::empty());
    } else {
        lemma_full_len((n - 1) as nat);
        let smaller = Set::new(|v: usize| v < (n - 1) as nat);
        let top = (n - 1) as usize;
        assert(full =~= smaller.insert(top));
        assert(!smaller.contains(top));
    }
}

} // verus!
