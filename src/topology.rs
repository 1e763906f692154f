//! Simple graphs: every slot of every neighbour list has its link, no node
//! is its own neighbour, and every link has its reverse. The store's
//! operations are shown here to keep such a graph simple, with the effect
//! of each on the set of links.

use vstd::prelude::*;
use crate::graph::{GraphView, NodeView};

verus! {

impl GraphView {
    /// Each slot `k` of the neighbour list of `u` has its link `(u, ns[k]) -> k`.
    pub open spec fn links_exact(self) -> bool {
        forall|u: Seq<char>, k: int|
            self.nodes.contains_key(u) && 0 <= k < self.nodes[u].neighbours.len() ==> {
                &&& self.links.contains_key((u, #[trigger] self.nodes[u].neighbours[k]))
                &&& self.links[(u, self.nodes[u].neighbours[k])] == k
            }
    }

    /// Links go both ways between distinct nodes that are present.
    pub open spec fn links_symmetric(self) -> bool {
        forall|k: (Seq<char>, Seq<char>)| #[trigger]
            self.links.contains_key(k) ==> {
                &&& k.0 != k.1
                &&& self.nodes.contains_key(k.1)
                &&& self.links.contains_key((k.1, k.0))
            }
    }

    /// A simple undirected graph held in the store.
    pub open spec fn is_simple(self) -> bool {
        &&& self.links_consistent()
        &&& self.ids_match()
        &&& self.links_exact()
        &&& self.links_symmetric()
    }

    /// The directed links.
    pub open spec fn edges(self) -> Set<(Seq<char>, Seq<char>)> {
        self.links.dom()
    }

    /// `later` holds the nodes of `self` that it still has with their id and
    /// coordinate unchanged; only neighbour lists may differ.
    pub open spec fn keeps_node_data(self, later: GraphView) -> bool {
        forall|u: Seq<char>|
            self.nodes.contains_key(u) && #[trigger] later.nodes.contains_key(u) ==> later.nodes[u]
                == self.nodes[u].with_neighbours(later.nodes[u].neighbours)
    }

    /// The number of neighbours of `u`.
    pub open spec fn degree(self, u: Seq<char>) -> nat {
        self.nodes[u].neighbours.len()
    }
}

/// The links of `e` that neither start nor end at `x`.
pub open spec fn edges_without(e: Set<(Seq<char>, Seq<char>)>, x: Seq<char>) -> Set<(Seq<char>, Seq<char>)> {
    e.filter(|k: (Seq<char>, Seq<char>)| k.0 != x && k.1 != x)
}

/// Both directions of the links between distinct members of `s`.
pub open spec fn clique(s: Set<Seq<char>>) -> Set<(Seq<char>, Seq<char>)> {
    Set::new(|k: (Seq<char>, Seq<char>)| s.contains(k.0) && s.contains(k.1) && k.0 != k.1)
}

/// The nodes that `x` has links to in `e`.
pub open spec fn neighbour_set(e: Set<(Seq<char>, Seq<char>)>, x: Seq<char>) -> Set<Seq<char>> {
    Set::new(|v: Seq<char>| e.contains((x, v)))
}

/// The links after a splice of `x`: its links go, and its neighbours are
/// linked pairwise.
pub open spec fn spliced(e: Set<(Seq<char>, Seq<char>)>, x: Seq<char>) -> Set<(Seq<char>, Seq<char>)> {
    edges_without(e, x) + clique(neighbour_set(e, x))
}

/// Removing one link keeps a graph exact, and takes just that link out.
pub proof fn lemma_unlink_exact(g: GraphView, s: Seq<char>, t: Seq<char>)
    requires
        g.links_consistent(),
        g.ids_match(),
        g.links_exact(),
        g.links.contains_key((s, t)),
    ensures
        g.unlink(s, t).links_consistent(),
        g.unlink(s, t).ids_match(),
        g.unlink(s, t).links_exact(),
        g.unlink(s, t).links.dom() == g.links.dom().remove((s, t)),
        g.unlink(s, t).nodes.dom() == g.nodes.dom(),
        g.keeps_node_data(g.unlink(s, t)),
        forall|u: Seq<char>| u != s ==> #[trigger] g.unlink(s, t).nodes[u] == g.nodes[u],
        g.unlink(s, t).nodes[s].neighbours.len() + 1 == g.nodes[s].neighbours.len(),
{
    let h = g.unlink(s, t);
    let k = g.links[(s, t)] as int;
    let ns = g.nodes[s].neighbours;
    let last = ns.len() - 1;
    let ns2 = h.nodes[s].neighbours;
    assert(ns[k] == t);
    assert(g.links.contains_key((s, ns[last])));
    assert forall|j: int| 0 <= j < ns.len() && j != k implies #[trigger] ns[j] != t by {
        assert(g.links.contains_key((s, ns[j])));
    }
    assert forall|j: int| 0 <= j < last implies #[trigger] ns[j] != ns[last] by {
        assert(g.links.contains_key((s, ns[j])));
    }
    assert forall|u: Seq<char>, j: int|
        h.nodes.contains_key(u) && 0 <= j < h.nodes[u].neighbours.len() implies {
            &&& h.links.contains_key((u, #[trigger] h.nodes[u].neighbours[j]))
            &&& h.links[(u, h.nodes[u].neighbours[j])] == j
        } by {
        if u == s {
            if j == k {
                assert(ns2[j] == ns[last]);
            } else {
                assert(ns2[j] == ns[j]);
                assert(g.links.contains_key((s, ns[j])));
            }
        } else {
            assert(g.links.contains_key((u, g.nodes[u].neighbours[j])));
        }
    }
    assert forall|q: (Seq<char>, Seq<char>)| #[trigger] h.links.contains_key(q) implies {
        &&& h.nodes.contains_key(q.0)
        &&& h.links[q] < h.nodes[q.0].neighbours.len()
        &&& h.nodes[q.0].neighbours[h.links[q] as int] == q.1
    } by {
        if !(k != last && q == (s, ns[last])) {
            assert(g.links.contains_key(q));
            if q.0 == s {
                assert(g.links[q] != k);
                if g.links[q] == last {
                    assert(q.1 == ns[last]);
                }
            }
        }
    }
    assert(h.links.dom() =~= g.links.dom().remove((s, t)));
    assert(h.nodes.dom() =~= g.nodes.dom());
}

/// Adding one link that is not there keeps a graph exact, and adds just that link.
pub proof fn lemma_link_exact(g: GraphView, s: Seq<char>, t: Seq<char>)
    requires
        g.links_consistent(),
        g.ids_match(),
        g.links_exact(),
        g.nodes.contains_key(s),
        !g.links.contains_key((s, t)),
    ensures
        g.with_link(s, t).links_consistent(),
        g.with_link(s, t).ids_match(),
        g.with_link(s, t).links_exact(),
        g.with_link(s, t).links.dom() == g.links.dom().insert((s, t)),
        g.with_link(s, t).nodes.dom() == g.nodes.dom(),
        g.keeps_node_data(g.with_link(s, t)),
        forall|u: Seq<char>| u != s ==> #[trigger] g.with_link(s, t).nodes[u] == g.nodes[u],
        g.with_link(s, t).nodes[s].neighbours.len() == g.nodes[s].neighbours.len() + 1,
{
    let h = g.with_link(s, t);
    let ns = g.nodes[s].neighbours;
    assert forall|u: Seq<char>, j: int|
        h.nodes.contains_key(u) && 0 <= j < h.nodes[u].neighbours.len() implies {
            &&& h.links.contains_key((u, #[trigger] h.nodes[u].neighbours[j]))
            &&& h.links[(u, h.nodes[u].neighbours[j])] == j
        } by {
        if u == s {
            if j < ns.len() {
                assert(h.nodes[u].neighbours[j] == ns[j]);
                assert(g.links.contains_key((s, ns[j])));
            }
        } else {
            assert(g.links.contains_key((u, g.nodes[u].neighbours[j])));
        }
    }
    assert forall|q: (Seq<char>, Seq<char>)| #[trigger] h.links.contains_key(q) implies {
        &&& h.nodes.contains_key(q.0)
        &&& h.links[q] < h.nodes[q.0].neighbours.len()
        &&& h.nodes[q.0].neighbours[h.links[q] as int] == q.1
    } by {
        if q != (s, t) {
            assert(g.links.contains_key(q));
        }
    }
    assert(h.links.dom() =~= g.links.dom().insert((s, t)));
    assert(h.nodes.dom() =~= g.nodes.dom());
}

pub proof fn lemma_push_contains(s: Seq<Seq<char>>, x: Seq<char>, y: Seq<char>)
    ensures
        s.push(x).contains(y) <==> (s.contains(y) || y == x),
{
    if s.push(x).contains(y) {
        let i = choose|i: int| 0 <= i < s.push(x).len() && s.push(x)[i] == y;
        if i < s.len() {
            assert(s[i] == y);
        }
    }
    if s.contains(y) {
        let i = choose|i: int| 0 <= i < s.len() && s[i] == y;
        assert(s.push(x)[i] == y);
    }
    if y == x {
        assert(s.push(x)[s.len() as int] == y);
    }
}

/// In a simple graph, unlinking `id` from its first `j` neighbours takes out
/// exactly the links between them, both ways, and keeps the graph exact.
proof fn lemma_unlink_first(g: GraphView, id: Seq<char>, j: nat)
    requires
        g.is_simple(),
        g.nodes.contains_key(id),
        j <= g.nodes[id].neighbours.len(),
    ensures
        ({
            let ns = g.nodes[id].neighbours;
            let h = g.unlink_first(id, ns, j);
            &&& h.links_consistent()
            &&& h.ids_match()
            &&& h.links_exact()
            &&& h.nodes.dom() == g.nodes.dom()
            &&& g.keeps_node_data(h)
            &&& forall|u: Seq<char>|
                g.nodes.contains_key(u) && u != id && !ns.take(j as int).contains(u) ==> #[trigger] h.nodes[u] == g.nodes[u]
            &&& forall|k: (Seq<char>, Seq<char>)|
                #[trigger] h.links.contains_key(k) <==> (g.links.contains_key(k) && !(k.0 == id
                    && ns.take(j as int).contains(k.1)) && !(k.1 == id && ns.take(j as int).contains(
                    k.0,
                )))
        }),
    decreases j,
{
    let ns = g.nodes[id].neighbours;
    if j == 0 {
        assert(ns.take(0) =~= Seq::<Seq<char>>::empty());
        assert(g.nodes.dom() =~= g.nodes.dom());
    } else {
        let i = (j - 1) as nat;
        lemma_unlink_first(g, id, i);
        let h = g.unlink_first(id, ns, i);
        let n = ns[i as int];
        assert(ns.take(j as int) =~= ns.take(i as int).push(n));
        assert(g.links.contains_key((id, ns[i as int])));
        assert(n != id);
        assert forall|m: int| 0 <= m < i implies #[trigger] ns.take(i as int)[m] != n by {
            assert(g.links.contains_key((id, ns[m])));
        }
        assert(!ns.take(i as int).contains(n));
        assert(h.links.contains_key((id, n)));
        lemma_unlink_exact(h, id, n);
        let a = h.unlink(id, n);
        assert(g.links.contains_key((n, id)));
        assert(a.links.contains_key((n, id)));
        lemma_unlink_exact(a, n, id);
        let b = a.unlink(n, id);
        assert(b == g.unlink_first(id, ns, j));
        assert forall|u: Seq<char>| g.nodes.contains_key(u) && #[trigger] b.nodes.contains_key(u) implies b.nodes[u]
            == g.nodes[u].with_neighbours(b.nodes[u].neighbours) by {
            assert(h.nodes.contains_key(u));
            assert(a.nodes.contains_key(u));
        }
        assert forall|k: (Seq<char>, Seq<char>)|
            #[trigger] b.links.contains_key(k) <==> (g.links.contains_key(k) && !(k.0 == id
                && ns.take(j as int).contains(k.1)) && !(k.1 == id && ns.take(j as int).contains(
                k.0,
            ))) by {
            assert(b.links.contains_key(k) <==> (h.links.contains_key(k) && k != (id, n) && k != (n, id)));
            assert(h.links.contains_key(k) <==> (g.links.contains_key(k) && !(k.0 == id
                && ns.take(i as int).contains(k.1)) && !(k.1 == id && ns.take(i as int).contains(
                k.0,
            ))));
            lemma_push_contains(ns.take(i as int), n, k.0);
            lemma_push_contains(ns.take(i as int), n, k.1);
        }
        assert forall|u: Seq<char>|
            g.nodes.contains_key(u) && u != id && !ns.take(j as int).contains(u) implies #[trigger] b.nodes[u] == g.nodes[u] by {
            lemma_push_contains(ns.take(i as int), n, u);
            assert(u != n);
            assert(!ns.take(i as int).contains(u));
            assert(h.nodes[u] == g.nodes[u]);
        }
    }
}

/// Removing a node of a simple graph is possible, keeps the graph simple,
/// and takes out just the links that touch the node.
pub proof fn lemma_remove_node_simple(g: GraphView, id: Seq<char>)
    requires
        g.is_simple(),
        g.nodes.contains_key(id),
    ensures
        g.removable(id),
        g.without_node(id).is_simple(),
        g.without_node(id).nodes.dom() == g.nodes.dom().remove(id),
        g.without_node(id).edges() == edges_without(g.edges(), id),
        g.keeps_node_data(g.without_node(id)),
        forall|u: Seq<char>|
            g.nodes.contains_key(u) && u != id && !g.links.contains_key((id, u)) ==> #[trigger] g.without_node(id).nodes[u] == g.nodes[u],
{
    let ns = g.nodes[id].neighbours;
    assert forall|a: int, b: int| 0 <= a < ns.len() && 0 <= b < ns.len() && a != b implies ns[a] != ns[b] by {
        assert(g.links.contains_key((id, ns[a])));
        assert(g.links.contains_key((id, ns[b])));
    }
    assert forall|k: int| 0 <= k < ns.len() implies {
        &&& #[trigger] ns[k] != id
        &&& g.links.contains_key((id, ns[k]))
        &&& g.links.contains_key((ns[k], id))
    } by {
        assert(g.links.contains_key((id, ns[k])));
    }
    lemma_unlink_first(g, id, ns.len());
    let h = g.unlink_first(id, ns, ns.len());
    let r = g.without_node(id);
    assert(ns.take(ns.len() as int) =~= ns);
    assert forall|x: Seq<char>| g.links.contains_key((id, x)) implies ns.contains(x) by {
        assert(ns[g.links[(id, x)] as int] == x);
    }
    assert forall|x: Seq<char>| g.links.contains_key((x, id)) implies ns.contains(x) by {
        assert(g.links.contains_key((id, x)));
        assert(ns[g.links[(id, x)] as int] == x);
    }
    assert forall|k: (Seq<char>, Seq<char>)| #[trigger] r.links.contains_key(k) <==> (g.links.contains_key(k) && k.0 != id && k.1 != id) by {
        if g.links.contains_key(k) && k.0 == id {
            assert(ns.contains(k.1));
        }
        if g.links.contains_key(k) && k.1 == id {
            assert(ns.contains(k.0));
        }
        if g.links.contains_key(k) && k.0 != id && k.1 == id {
            assert(ns.contains(k.0));
        }
    }
    assert(r.edges() =~= edges_without(g.edges(), id));
    assert(r.nodes.dom() =~= g.nodes.dom().remove(id));
    assert forall|k: (Seq<char>, Seq<char>)| #[trigger] r.links.contains_key(k) implies {
        &&& r.nodes.contains_key(k.0)
        &&& r.links[k] < r.nodes[k.0].neighbours.len()
        &&& r.nodes[k.0].neighbours[r.links[k] as int] == k.1
    } by {
        assert(h.links.contains_key(k));
    }
    assert forall|u: Seq<char>, k: int|
        r.nodes.contains_key(u) && 0 <= k < r.nodes[u].neighbours.len() implies {
            &&& r.links.contains_key((u, #[trigger] r.nodes[u].neighbours[k]))
            &&& r.links[(u, r.nodes[u].neighbours[k])] == k
        } by {
        assert(h.nodes.contains_key(u));
        assert(h.links.contains_key((u, h.nodes[u].neighbours[k])));
    }
    assert forall|k: (Seq<char>, Seq<char>)| #[trigger] r.links.contains_key(k) implies {
        &&& k.0 != k.1
        &&& r.nodes.contains_key(k.1)
        &&& r.links.contains_key((k.1, k.0))
    } by {
        assert(g.links.contains_key(k));
        assert(g.links.contains_key((k.1, k.0)));
    }
    assert forall|u: Seq<char>| g.nodes.contains_key(u) && u != id && !g.links.contains_key((id, u)) implies #[trigger] r.nodes[u] == g.nodes[u] by {
        if ns.contains(u) {
            let m = choose|m: int| 0 <= m < ns.len() && ns[m] == u;
            assert(g.links.contains_key((id, ns[m])));
        }
        assert(h.nodes[u] == g.nodes[u]);
    }
}

/// Linking two distinct nodes of a simple graph that are not linked, both
/// ways, keeps it simple and adds just those two links.
pub proof fn lemma_link_pair_simple(g: GraphView, a: Seq<char>, b: Seq<char>)
    requires
        g.is_simple(),
        g.nodes.contains_key(a),
        g.nodes.contains_key(b),
        a != b,
        !g.links.contains_key((a, b)),
    ensures
        g.with_link(a, b).with_link(b, a).is_simple(),
        g.with_link(a, b).with_link(b, a).edges() == g.edges().insert((a, b)).insert((b, a)),
        g.with_link(a, b).with_link(b, a).nodes.dom() == g.nodes.dom(),
        g.keeps_node_data(g.with_link(a, b).with_link(b, a)),
        forall|u: Seq<char>| u != a && u != b ==> #[trigger] g.with_link(a, b).with_link(b, a).nodes[u] == g.nodes[u],
        g.with_link(a, b).with_link(b, a).degree(a) == g.degree(a) + 1,
        g.with_link(a, b).with_link(b, a).degree(b) == g.degree(b) + 1,
{
    assert(!g.links.contains_key((b, a)));
    lemma_link_exact(g, a, b);
    let h = g.with_link(a, b);
    lemma_link_exact(h, b, a);
    let r = h.with_link(b, a);
    assert forall|k: (Seq<char>, Seq<char>)| #[trigger] r.links.contains_key(k) implies {
        &&& k.0 != k.1
        &&& r.nodes.contains_key(k.1)
        &&& r.links.contains_key((k.1, k.0))
    } by {
        if k != (a, b) && k != (b, a) {
            assert(g.links.contains_key(k));
        }
    }
    assert forall|u: Seq<char>| g.nodes.contains_key(u) && #[trigger] r.nodes.contains_key(u) implies r.nodes[u]
        == g.nodes[u].with_neighbours(r.nodes[u].neighbours) by {
        assert(h.nodes.contains_key(u));
    }
}

/// Adding a node without neighbours under its own id keeps a graph simple.
pub proof fn lemma_add_isolated_simple(g: GraphView, n: NodeView)
    requires
        g.is_simple(),
        !g.nodes.contains_key(n.id),
        n.neighbours.len() == 0,
    ensures
        (GraphView { nodes: g.nodes.insert(n.id, n), links: g.links }).is_simple(),
        g.keeps_node_data(GraphView { nodes: g.nodes.insert(n.id, n), links: g.links }),
{
    let h = GraphView { nodes: g.nodes.insert(n.id, n), links: g.links };
    assert forall|k: (Seq<char>, Seq<char>)| #[trigger] h.links.contains_key(k) implies {
        &&& h.nodes.contains_key(k.0)
        &&& h.links[k] < h.nodes[k.0].neighbours.len()
        &&& h.nodes[k.0].neighbours[h.links[k] as int] == k.1
    } by {
        assert(g.links.contains_key(k));
    }
    assert forall|u: Seq<char>, k: int|
        h.nodes.contains_key(u) && 0 <= k < h.nodes[u].neighbours.len() implies {
            &&& h.links.contains_key((u, #[trigger] h.nodes[u].neighbours[k]))
            &&& h.links[(u, h.nodes[u].neighbours[k])] == k
        } by {
        assert(g.links.contains_key((u, g.nodes[u].neighbours[k])));
    }
}

/// Links from `w` to the members of `s`, both ways.
pub open spec fn star(w: Seq<char>, s: Set<Seq<char>>) -> Set<(Seq<char>, Seq<char>)> {
    Set::new(|k: (Seq<char>, Seq<char>)| (k.0 == w && s.contains(k.1)) || (k.1 == w && s.contains(k.0)))
}

/// The links after contracting `u` and `v` into `w`: the links of `u` and
/// `v` go, and `w` is linked with their other neighbours.
pub open spec fn contracted(
    e: Set<(Seq<char>, Seq<char>)>,
    u: Seq<char>,
    v: Seq<char>,
    w: Seq<char>,
) -> Set<(Seq<char>, Seq<char>)> {
    edges_without(edges_without(e, u), v) + star(
        w,
        neighbour_set(e, u).union(neighbour_set(e, v)).remove(u).remove(v).remove(w),
    )
}

/// In a simple graph the neighbour list of `x` holds just the nodes it links to.
pub proof fn lemma_neighbour_list(g: GraphView, x: Seq<char>)
    requires
        g.is_simple(),
        g.nodes.contains_key(x),
    ensures
        forall|y: Seq<char>| #[trigger] neighbour_set(g.edges(), x).contains(y) <==> g.nodes[x].neighbours.contains(y),
        forall|y: Seq<char>| g.nodes[x].neighbours.contains(y) ==> #[trigger] g.nodes.contains_key(y) && y != x,
{
    let ns = g.nodes[x].neighbours;
    assert forall|y: Seq<char>| #[trigger] neighbour_set(g.edges(), x).contains(y) <==> ns.contains(y) by {
        if g.links.contains_key((x, y)) {
            assert(ns[g.links[(x, y)] as int] == y);
        }
        if ns.contains(y) {
            let m = choose|m: int| 0 <= m < ns.len() && ns[m] == y;
            assert(g.links.contains_key((x, ns[m])));
        }
    }
    assert forall|y: Seq<char>| ns.contains(y) implies #[trigger] g.nodes.contains_key(y) && y != x by {
        let m = choose|m: int| 0 <= m < ns.len() && ns[m] == y;
        assert(g.links.contains_key((x, ns[m])));
    }
}

/// Removing both directions of a link of a simple graph keeps it simple,
/// takes out just those two links, and leaves each end one neighbour less.
pub proof fn lemma_unlink_pair_simple(g: GraphView, a: Seq<char>, b: Seq<char>)
    requires
        g.is_simple(),
        g.links.contains_key((a, b)),
    ensures
        g.unlink(a, b).unlink(b, a).is_simple(),
        g.unlink(a, b).unlink(b, a).edges() == g.edges().remove((a, b)).remove((b, a)),
        g.unlink(a, b).unlink(b, a).nodes.dom() == g.nodes.dom(),
        g.keeps_node_data(g.unlink(a, b).unlink(b, a)),
        forall|u: Seq<char>| u != a && u != b ==> #[trigger] g.unlink(a, b).unlink(b, a).nodes[u] == g.nodes[u],
        g.unlink(a, b).unlink(b, a).degree(a) + 1 == g.degree(a),
        g.unlink(a, b).unlink(b, a).degree(b) + 1 == g.degree(b),
{
    lemma_unlink_exact(g, a, b);
    let h = g.unlink(a, b);
    assert(h.links.contains_key((b, a)));
    lemma_unlink_exact(h, b, a);
    let r = h.unlink(b, a);
    assert forall|k: (Seq<char>, Seq<char>)| #[trigger] r.links.contains_key(k) implies {
        &&& k.0 != k.1
        &&& r.nodes.contains_key(k.1)
        &&& r.links.contains_key((k.1, k.0))
    } by {
        assert(g.links.contains_key(k));
        assert(g.links.contains_key((k.1, k.0)));
    }
    assert forall|u: Seq<char>| g.nodes.contains_key(u) && #[trigger] r.nodes.contains_key(u) implies r.nodes[u]
        == g.nodes[u].with_neighbours(r.nodes[u].neighbours) by {
        assert(h.nodes.contains_key(u));
    }
}

/// `p` is a walk along the links of `e`.
pub open spec fn is_walk(e: Set<(Seq<char>, Seq<char>)>, p: Seq<Seq<char>>) -> bool {
    &&& p.len() >= 1
    &&& forall|i: int| 0 <= i < p.len() - 1 ==> e.contains((#[trigger] p[i], p[i + 1]))
}

/// Some walk along the links of `e` leads from `a` to `b`.
pub open spec fn reachable(e: Set<(Seq<char>, Seq<char>)>, a: Seq<char>, b: Seq<char>) -> bool {
    exists|p: Seq<Seq<char>>| #[trigger] is_walk(e, p) && p[0] == a && p.last() == b
}

/// The connected component of `a`: the nodes that `a` reaches.
pub open spec fn component(g: GraphView, a: Seq<char>) -> Set<Seq<char>> {
    Set::new(|u: Seq<char>| reachable(g.edges(), a, u))
}

/// Every node reaches itself.
pub proof fn lemma_reach_refl(e: Set<(Seq<char>, Seq<char>)>, a: Seq<char>)
    ensures
        reachable(e, a, a),
{
    let p = seq![a];
    assert(is_walk(e, p));
}

/// One more link extends what a node reaches.
pub proof fn lemma_reach_step(e: Set<(Seq<char>, Seq<char>)>, a: Seq<char>, b: Seq<char>, c: Seq<char>)
    requires
        reachable(e, a, b),
        e.contains((b, c)),
    ensures
        reachable(e, a, c),
{
    let p = choose|p: Seq<Seq<char>>| #[trigger] is_walk(e, p) && p[0] == a && p.last() == b;
    let q = p.push(c);
    assert forall|i: int| 0 <= i < q.len() - 1 implies e.contains((#[trigger] q[i], q[i + 1])) by {
        if i < p.len() - 1 {
            assert(q[i] == p[i] && q[i + 1] == p[i + 1]);
        }
    }
    assert(is_walk(e, q));
}

/// Reaching is transitive.
pub proof fn lemma_reach_trans(e: Set<(Seq<char>, Seq<char>)>, a: Seq<char>, b: Seq<char>, c: Seq<char>)
    requires
        reachable(e, a, b),
        reachable(e, b, c),
    ensures
        reachable(e, a, c),
{
    let q = choose|q: Seq<Seq<char>>| #[trigger] is_walk(e, q) && q[0] == b && q.last() == c;
    lemma_reach_along(e, a, q, q.len() - 1);
}

proof fn lemma_reach_along(e: Set<(Seq<char>, Seq<char>)>, a: Seq<char>, q: Seq<Seq<char>>, i: int)
    requires
        is_walk(e, q),
        reachable(e, a, q[0]),
        0 <= i < q.len(),
    ensures
        reachable(e, a, q[i]),
    decreases i,
{
    if i > 0 {
        lemma_reach_along(e, a, q, i - 1);
        lemma_reach_step(e, a, q[i - 1], q[i]);
    }
}

/// Over links that go both ways, reaching is symmetric.
pub proof fn lemma_reach_sym(e: Set<(Seq<char>, Seq<char>)>, a: Seq<char>, b: Seq<char>)
    requires
        forall|l: (Seq<char>, Seq<char>)| #[trigger] e.contains(l) ==> e.contains((l.1, l.0)),
        reachable(e, a, b),
    ensures
        reachable(e, b, a),
{
    let p = choose|p: Seq<Seq<char>>| #[trigger] is_walk(e, p) && p[0] == a && p.last() == b;
    let n = p.len() as int;
    let q = Seq::new(p.len(), |i: int| p[n - 1 - i]);
    assert forall|i: int| 0 <= i < q.len() - 1 implies e.contains((#[trigger] q[i], q[i + 1])) by {
        let j = n - 2 - i;
        assert(e.contains((p[j], p[j + 1])));
    }
    assert(is_walk(e, q));
}

/// A set closed under the links of `e` holds every node that its members reach.
pub proof fn lemma_closed_reach(e: Set<(Seq<char>, Seq<char>)>, k: Set<Seq<char>>, a: Seq<char>, b: Seq<char>)
    requires
        forall|l: (Seq<char>, Seq<char>)| #[trigger] e.contains(l) && k.contains(l.0) ==> k.contains(l.1),
        k.contains(a),
        reachable(e, a, b),
    ensures
        k.contains(b),
{
    let p = choose|p: Seq<Seq<char>>| #[trigger] is_walk(e, p) && p[0] == a && p.last() == b;
    lemma_closed_walk(e, k, p, p.len() - 1);
}

proof fn lemma_closed_walk(e: Set<(Seq<char>, Seq<char>)>, k: Set<Seq<char>>, p: Seq<Seq<char>>, i: int)
    requires
        forall|l: (Seq<char>, Seq<char>)| #[trigger] e.contains(l) && k.contains(l.0) ==> k.contains(l.1),
        is_walk(e, p),
        k.contains(p[0]),
        0 <= i < p.len(),
    ensures
        k.contains(p[i]),
    decreases i,
{
    if i > 0 {
        lemma_closed_walk(e, k, p, i - 1);
        assert(e.contains((p[i - 1], p[i])));
    }
}

} // verus!
