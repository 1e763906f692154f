//! Topology rewrites on a simple graph: largest-component extraction,
//! splicing out nodes, contracting links, and the threshold-driven passes
//! built on them.

use vstd::prelude::*;
use crate::graph::{copy_strings, texts, Graph, GraphView, Node, NodeView};
use crate::order::random_order;
use rand::rngs::StdRng;
use crate::ids::{canonical, deterministic_link, lemma_merged_id_symmetric, merge_id, merged_id};
use crate::topology::{
    clique, contracted, edges_without, lemma_add_isolated_simple, lemma_link_pair_simple,
    lemma_neighbour_list, lemma_push_contains, lemma_remove_node_simple, neighbour_set, spliced, star,
    component, lemma_closed_reach, lemma_reach_refl, lemma_reach_step, lemma_reach_sym, lemma_reach_trans, reachable,
};

verus! {

/// Pair `(a, b)` of slots, `a < b`, comes before the position `(i, j)` of a
/// scan over all such pairs.
spec fn pair_done(a: int, b: int, i: int, j: int) -> bool {
    a < i || (a == i && b < j)
}

/// The links between the members of `ns` at the slot pairs scanned before `(i, j)`.
spec fn pair_links(ns: Seq<Seq<char>>, i: int, j: int) -> Set<(Seq<char>, Seq<char>)> {
    Set::new(
        |k: (Seq<char>, Seq<char>)|
            exists|a: int, b: int|
                0 <= a < b < ns.len() && #[trigger] pair_done(a, b, i, j) && (k == (ns[a], ns[b])
                    || k == (ns[b], ns[a])),
    )
}

/// Links the members of `ns` pairwise where they are not yet linked.
#[verifier::spinoff_prover]
fn link_pairwise(graph: &mut Graph, ns: &Vec<String>)
    requires
        old(graph).wf(),
        old(graph)@.is_simple(),
        texts(ns@).no_duplicates(),
        forall|a: int| 0 <= a < ns.len() ==> old(graph)@.nodes.contains_key(#[trigger] ns@[a]@),
    ensures
        final(graph).wf(),
        final(graph)@.is_simple(),
        final(graph)@.nodes.dom() == old(graph)@.nodes.dom(),
        old(graph)@.keeps_node_data(final(graph)@),
        final(graph)@.edges() == old(graph)@.edges() + pair_links(texts(ns@), ns.len() as int, ns.len() as int + 1),
{
    let ghost g0 = graph@;
    let ghost nv = texts(ns@);
    let n = ns.len();
    let mut i: usize = 0;
    while i < n
        invariant
            n == ns.len(),
            nv == texts(ns@),
            nv.no_duplicates(),
            forall|a: int| 0 <= a < n ==> g0.nodes.contains_key(#[trigger] ns@[a]@),
            i <= n,
            graph.wf(),
            graph@.is_simple(),
            graph@.nodes.dom() == g0.nodes.dom(),
            g0.keeps_node_data(graph@),
            graph@.edges() == g0.edges() + pair_links(nv, i as int, i as int + 1),
        decreases n - i,
    {
        let mut j: usize = i + 1;
        assert(pair_links(nv, i as int, i as int + 1) =~= pair_links(nv, i as int, j as int));
        while j < n
            invariant
                n == ns.len(),
                nv == texts(ns@),
                nv.no_duplicates(),
                forall|a: int| 0 <= a < n ==> g0.nodes.contains_key(#[trigger] ns@[a]@),
                i < n,
                i < j <= n,
                graph.wf(),
                graph@.is_simple(),
                graph@.nodes.dom() == g0.nodes.dom(),
                g0.keeps_node_data(graph@),
                graph@.edges() == g0.edges() + pair_links(nv, i as int, j as int),
            decreases n - j,
        {
            let ghost before = graph@;
            let ghost x = nv[i as int];
            let ghost y = nv[j as int];
            assert(ns@[i as int]@ == x);
            assert(ns@[j as int]@ == y);
            if !graph.contains_link(&ns[i], &ns[j]) && !graph.contains_link(&ns[j], &ns[i]) {
                assert(x != y);
                proof {
                    lemma_link_pair_simple(graph@, x, y);
                }
                graph.insert_link((ns[i].clone(), ns[j].clone()));
                graph.insert_link((ns[j].clone(), ns[i].clone()));
                assert forall|u: Seq<char>|
                    g0.nodes.contains_key(u) && #[trigger] graph@.nodes.contains_key(u) implies graph@.nodes[u]
                        == g0.nodes[u].with_neighbours(graph@.nodes[u].neighbours) by {
                    assert(before.nodes.contains_key(u));
                }
            } else {
                assert(graph@.links.contains_key((x, y)));
            }
            assert forall|k: (Seq<char>, Seq<char>)|
                pair_links(nv, i as int, j as int + 1).contains(k) <==> (pair_links(nv, i as int, j as int).contains(k)
                    || k == (x, y) || k == (y, x)) by {
                if pair_links(nv, i as int, j as int + 1).contains(k) {
                    let (a, b) = choose|a: int, b: int|
                        0 <= a < b < nv.len() && #[trigger] pair_done(a, b, i as int, j as int + 1) && (k == (nv[a], nv[b])
                            || k == (nv[b], nv[a]));
                    if !(a == i && b == j) {
                        assert(pair_done(a, b, i as int, j as int));
                    }
                }
                if k == (x, y) || k == (y, x) {
                    assert(pair_done(i as int, j as int, i as int, j as int + 1));
                }
                if pair_links(nv, i as int, j as int).contains(k) {
                    let (a, b) = choose|a: int, b: int|
                        0 <= a < b < nv.len() && #[trigger] pair_done(a, b, i as int, j as int) && (k == (nv[a], nv[b])
                            || k == (nv[b], nv[a]));
                    assert(pair_done(a, b, i as int, j as int + 1));
                }
            }
            assert(graph@.edges() =~= g0.edges() + pair_links(nv, i as int, j as int + 1));
            j = j + 1;
        }
        assert forall|k: (Seq<char>, Seq<char>)|
            pair_links(nv, i as int + 1, i as int + 2).contains(k) <==> pair_links(nv, i as int, n as int).contains(k) by {
            if pair_links(nv, i as int + 1, i as int + 2).contains(k) {
                let (a, b) = choose|a: int, b: int|
                    0 <= a < b < nv.len() && #[trigger] pair_done(a, b, i as int + 1, i as int + 2) && (k == (nv[a], nv[b])
                        || k == (nv[b], nv[a]));
                assert(pair_done(a, b, i as int, n as int));
            }
            if pair_links(nv, i as int, n as int).contains(k) {
                let (a, b) = choose|a: int, b: int|
                    0 <= a < b < nv.len() && #[trigger] pair_done(a, b, i as int, n as int) && (k == (nv[a], nv[b])
                        || k == (nv[b], nv[a]));
                assert(pair_done(a, b, i as int + 1, i as int + 2));
            }
        }
        assert(pair_links(nv, i as int + 1, i as int + 2) =~= pair_links(nv, i as int, n as int));
        i = i + 1;
    }
}

/// All slot pairs of the neighbour list of `id` give both directions of the
/// links between its distinct neighbours.
proof fn lemma_all_pairs(g: GraphView, id: Seq<char>)
    requires
        g.is_simple(),
        g.nodes.contains_key(id),
    ensures
        g.nodes[id].neighbours.no_duplicates(),
        pair_links(g.nodes[id].neighbours, g.nodes[id].neighbours.len() as int, g.nodes[id].neighbours.len() as int + 1)
            == clique(neighbour_set(g.edges(), id)),
{
    let ns = g.nodes[id].neighbours;
    let n = ns.len() as int;
    assert forall|a: int, b: int| 0 <= a < n && 0 <= b < n && a != b implies ns[a] != ns[b] by {
        assert(g.links.contains_key((id, ns[a])));
        assert(g.links.contains_key((id, ns[b])));
    }
    assert forall|k: (Seq<char>, Seq<char>)|
        pair_links(ns, n, n + 1).contains(k) <==> clique(neighbour_set(g.edges(), id)).contains(k) by {
        if pair_links(ns, n, n + 1).contains(k) {
            let (a, b) = choose|a: int, b: int|
                0 <= a < b < ns.len() && #[trigger] pair_done(a, b, n, n + 1) && (k == (ns[a], ns[b])
                    || k == (ns[b], ns[a]));
            assert(g.links.contains_key((id, ns[a])));
            assert(g.links.contains_key((id, ns[b])));
        }
        if clique(neighbour_set(g.edges(), id)).contains(k) {
            assert(g.links.contains_key((id, k.0)));
            assert(g.links.contains_key((id, k.1)));
            let a = g.links[(id, k.0)] as int;
            let b = g.links[(id, k.1)] as int;
            assert(ns[a] == k.0);
            assert(ns[b] == k.1);
            if a < b {
                assert(pair_done(a, b, n, n + 1));
            } else {
                assert(pair_done(b, a, n, n + 1));
            }
        }
    }
    assert(pair_links(ns, n, n + 1) =~= clique(neighbour_set(g.edges(), id)));
}

/// Removes `node_id` and links its former neighbours pairwise where they
/// are not linked yet.
pub fn replace_node_by_links(graph: Graph, node_id: &str) -> (r: Graph)
    requires
        graph.wf(),
        graph@.is_simple(),
        graph@.nodes.contains_key(node_id@),
    ensures
        r.wf(),
        r@.is_simple(),
        r@.nodes.dom() == graph@.nodes.dom().remove(node_id@),
        r@.edges() == spliced(graph@.edges(), node_id@),
        graph@.keeps_node_data(r@),
{
    let mut graph = graph;
    let ghost g = graph@;
    let ghost id = node_id@;
    let neighbours = copy_strings(&graph.get_node(node_id).neighbours);
    proof {
        lemma_remove_node_simple(g, id);
        lemma_all_pairs(g, id);
        assert forall|a: int| 0 <= a < neighbours.len() implies g.without_node(id).nodes.contains_key(
            #[trigger] neighbours@[a]@,
        ) by {
            assert(texts(neighbours@)[a] == g.nodes[id].neighbours[a]);
            assert(g.links.contains_key((id, g.nodes[id].neighbours[a])));
        }
    }
    graph.remove_node(node_id);
    let ghost h = graph@;
    link_pairwise(&mut graph, &neighbours);
    assert forall|u: Seq<char>|
        g.nodes.contains_key(u) && #[trigger] graph@.nodes.contains_key(u) implies graph@.nodes[u]
            == g.nodes[u].with_neighbours(graph@.nodes[u].neighbours) by {
        assert(h.nodes.contains_key(u));
    }
    graph
}

/// The links after splicing out the nodes of `order`, first to last.
pub open spec fn splice_all(e: Set<(Seq<char>, Seq<char>)>, order: Seq<Seq<char>>) -> Set<(Seq<char>, Seq<char>)>
    decreases order.len(),
{
    if order.len() == 0 {
        e
    } else {
        spliced(splice_all(e, order.drop_last()), order.last())
    }
}

/// The two neighbours of `x` in `e`, if it has exactly two, are not linked.
pub open spec fn meets_unlinked(e: Set<(Seq<char>, Seq<char>)>, x: Seq<char>) -> bool {
    forall|a: Seq<char>, b: Seq<char>|
        a != b && #[trigger] e.contains((x, a)) && #[trigger] e.contains((x, b)) ==> !e.contains((a, b))
}

/// The links present in both directions: the ones a search may follow.
pub open spec fn both_ways(g: GraphView) -> Set<(Seq<char>, Seq<char>)> {
    Set::new(|k: (Seq<char>, Seq<char>)| g.links.contains_key(k) && g.links.contains_key((k.1, k.0)))
}

/// The nodes that `a` reaches along links present in both directions.
pub open spec fn traversable_component(g: GraphView, a: Seq<char>) -> Set<Seq<char>> {
    Set::new(|u: Seq<char>| reachable(both_ways(g), a, u))
}

/// Links that go both ways between distinct nodes, each node with
/// finitely many.
spec fn tidy(e: Set<(Seq<char>, Seq<char>)>) -> bool {
    &&& forall|k: (Seq<char>, Seq<char>)| #[trigger] e.contains(k) ==> k.0 != k.1 && e.contains((k.1, k.0))
    &&& forall|y: Seq<char>| #[trigger] neighbour_set(e, y).finite()
}

proof fn lemma_two_elements(s: Set<Seq<char>>)
    requires
        s.finite(),
        s.len() == 2,
    ensures
        exists|a: Seq<char>, b: Seq<char>| a != b && s == set![a, b],
{
    if !(exists|a: Seq<char>| s.contains(a)) {
        assert(s =~= Set::<Seq<char>>::empty());
    }
    let a = s.choose();
    let s1 = s.remove(a);
    assert(s1.len() == 1);
    if !(exists|b: Seq<char>| s1.contains(b)) {
        assert(s1 =~= Set::<Seq<char>>::empty());
    }
    let b = s1.choose();
    assert(s1.remove(b).len() == 0);
    s1.remove(b).lemma_len0_is_empty();
    assert(s =~= set![a, b]) by {
        assert forall|y: Seq<char>| s.contains(y) implies y == a || y == b by {
            if y != a && y != b {
                assert(s1.remove(b).contains(y));
            }
        }
    }
}

/// Splicing a node with two unlinked neighbours leaves every other node
/// with as many neighbours as before.
proof fn lemma_splice_keeps_degrees(e: Set<(Seq<char>, Seq<char>)>, x: Seq<char>)
    requires
        tidy(e),
        neighbour_set(e, x).len() == 2,
        meets_unlinked(e, x),
    ensures
        tidy(spliced(e, x)),
        forall|y: Seq<char>| y != x ==> #[trigger] neighbour_set(spliced(e, x), y).len() == neighbour_set(e, y).len(),
{
    let n = neighbour_set(e, x);
    lemma_two_elements(n);
    let (a, b) = choose|a: Seq<char>, b: Seq<char>| a != b && n == set![a, b];
    assert(n.contains(a) && n.contains(b));
    assert(e.contains((x, a)) && e.contains((x, b)));
    assert(!e.contains((a, b)) && !e.contains((b, a)));
    let f = spliced(e, x);
    assert forall|k: (Seq<char>, Seq<char>)| #[trigger] f.contains(k) implies k.0 != k.1 && f.contains((k.1, k.0)) by {
        if e.contains(k) && k.0 != x && k.1 != x {
            assert(e.contains((k.1, k.0)));
        }
    }
    assert forall|y: Seq<char>| y != x implies #[trigger] neighbour_set(f, y) == if y == a {
        neighbour_set(e, y).remove(x).insert(b)
    } else if y == b {
        neighbour_set(e, y).remove(x).insert(a)
    } else {
        neighbour_set(e, y)
    } by {
        if y != a && y != b {
            assert(!e.contains((y, x))) by {
                if e.contains((y, x)) {
                    assert(e.contains((x, y)));
                    assert(n.contains(y));
                }
            }
        }
        assert(neighbour_set(f, y) =~= if y == a {
            neighbour_set(e, y).remove(x).insert(b)
        } else if y == b {
            neighbour_set(e, y).remove(x).insert(a)
        } else {
            neighbour_set(e, y)
        });
    }
    assert(e.contains((a, x)) && e.contains((b, x)));
    assert(neighbour_set(e, a).contains(x) && !neighbour_set(e, a).contains(b));
    assert(neighbour_set(e, b).contains(x) && !neighbour_set(e, b).contains(a));
    assert forall|y: Seq<char>| #[trigger] neighbour_set(f, y).finite() by {
        if y == x {
            assert(neighbour_set(f, y) =~= Set::<Seq<char>>::empty());
        } else {
            assert(neighbour_set(e, y).finite());
        }
    }
}

/// When every splice meets two unlinked neighbours, the nodes not spliced
/// keep their number of neighbours.
proof fn lemma_splices_keep_degrees(e: Set<(Seq<char>, Seq<char>)>, order: Seq<Seq<char>>, t: int)
    requires
        tidy(e),
        order.no_duplicates(),
        forall|m: int| 0 <= m < order.len() ==> neighbour_set(e, #[trigger] order[m]).len() == 2,
        forall|m: int| 0 <= m < order.len() ==> meets_unlinked(splice_all(e, order.take(m)), #[trigger] order[m]),
        0 <= t <= order.len(),
    ensures
        tidy(splice_all(e, order.take(t))),
        forall|y: Seq<char>| !order.take(t).contains(y) ==> #[trigger] neighbour_set(splice_all(e, order.take(t)), y).len() == neighbour_set(e, y).len(),
    decreases t,
{
    if t == 0 {
        assert(order.take(0) =~= Seq::<Seq<char>>::empty());
    } else {
        lemma_splices_keep_degrees(e, order, t - 1);
        let x = order[t - 1];
        let p = splice_all(e, order.take(t - 1));
        assert(order.take(t).drop_last() =~= order.take(t - 1));
        assert(order.take(t).last() == x);
        assert(!order.take(t - 1).contains(x)) by {
            if order.take(t - 1).contains(x) {
                let m = choose|m: int| 0 <= m < t - 1 && #[trigger] order.take(t - 1)[m] == x;
                assert(order[m] == order[t - 1]);
            }
        }
        assert(neighbour_set(p, x).len() == 2);
        lemma_splice_keeps_degrees(p, x);
        assert forall|y: Seq<char>| !order.take(t).contains(y) implies #[trigger] neighbour_set(splice_all(e, order.take(t)), y).len() == neighbour_set(e, y).len() by {
            lemma_push_contains(order.take(t - 1), x, y);
            assert(order.take(t) =~= order.take(t - 1).push(x));
            assert(y != x);
            assert(neighbour_set(spliced(p, x), y).len() == neighbour_set(p, y).len());
        }
    }
}

/// In a simple graph a node's number of neighbours is the size of the set
/// of nodes it links to.
proof fn lemma_degree_is_neighbour_count(g: GraphView, u: Seq<char>)
    requires
        g.is_simple(),
    ensures
        neighbour_set(g.edges(), u).finite(),
        g.nodes.contains_key(u) ==> g.degree(u) == neighbour_set(g.edges(), u).len(),
{
    if g.nodes.contains_key(u) {
        crate::topology::lemma_neighbour_list(g, u);
        let ns = g.nodes[u].neighbours;
        assert forall|a: int, b: int| 0 <= a < ns.len() && 0 <= b < ns.len() && a != b implies ns[a] != ns[b] by {
            assert(g.links.contains_key((u, ns[a])));
            assert(g.links.contains_key((u, ns[b])));
        }
        ns.unique_seq_to_set();
        assert(neighbour_set(g.edges(), u) =~= ns.to_set());
    } else {
        assert(neighbour_set(g.edges(), u) =~= Set::<Seq<char>>::empty()) by {
            assert forall|v: Seq<char>| !neighbour_set(g.edges(), u).contains(v) by {
                if g.links.contains_key((u, v)) {
                    assert(g.nodes.contains_key(u));
                }
            }
        }
    }
}

/// Splices out every node that has exactly two neighbours in the input,
/// one after the other, in the order of a snapshot taken first.
#[verifier::spinoff_prover]
pub fn remove_degree_two_nodes(graph: Graph) -> (r: Graph)
    requires
        graph.wf(),
        graph@.is_simple(),
    ensures
        r.wf(),
        r@.is_simple(),
        graph@.keeps_node_data(r@),
        r@.nodes.dom() == graph@.nodes.dom().filter(|u: Seq<char>| graph@.degree(u) != 2),
        (forall|u: Seq<char>| #[trigger] graph@.nodes.contains_key(u) ==> graph@.degree(u) != 2) ==> r@ == graph@,
        exists|order: Seq<Seq<char>>|
            {
                &&& order.no_duplicates()
                &&& forall|u: Seq<char>|
                    #[trigger] order.contains(u) <==> (graph@.nodes.contains_key(u) && graph@.degree(u) == 2)
                &&& r@.edges() == splice_all(graph@.edges(), order)
                &&& (forall|t: int| 0 <= t < order.len() ==> meets_unlinked(splice_all(graph@.edges(), order.take(t)), #[trigger] order[t]))
                    ==> forall|u: Seq<char>| #[trigger] r@.nodes.contains_key(u) ==> r@.degree(u) != 2
            },
{
    let mut graph = graph;
    let ghost g = graph@;
    let ids = graph.node_ids();
    let mut twos: Vec<String> = Vec::new();
    let mut i: usize = 0;
    while i < ids.len()
        invariant
            graph@ == g,
            graph.wf(),
            i <= ids.len(),
            texts(ids@).no_duplicates(),
            forall|m: int| 0 <= m < ids.len() ==> g.nodes.contains_key(#[trigger] ids@[m]@),
            forall|id: Seq<char>| #[trigger] g.nodes.contains_key(id) ==> texts(ids@).contains(id),
            texts(twos@).no_duplicates(),
            forall|a: int| 0 <= a < twos.len() ==> exists|m: int| 0 <= m < i && #[trigger] texts(twos@)[a] == texts(ids@)[m],
            forall|a: int| 0 <= a < twos.len() ==> g.nodes.contains_key(#[trigger] texts(twos@)[a]) && g.degree(texts(twos@)[a]) == 2,
            forall|m: int| 0 <= m < i && g.degree(#[trigger] texts(ids@)[m]) == 2 ==> texts(twos@).contains(texts(ids@)[m]),
        decreases ids.len() - i,
    {
        assert(texts(ids@)[i as int] == ids@[i as int]@);
        if graph.get_node(&ids[i]).neighbours.len() == 2 {
            let ghost t0 = texts(twos@);
            let ghost x = texts(ids@)[i as int];
            assert forall|a: int| 0 <= a < t0.len() implies t0[a] != x by {
                let m = choose|m: int| 0 <= m < i && #[trigger] t0[a] == texts(ids@)[m];
            }
            twos.push(ids[i].clone());
            assert(texts(twos@) =~= t0.push(x));
            assert forall|a: int| 0 <= a < twos.len() implies exists|m: int| 0 <= m < i + 1 && #[trigger] texts(twos@)[a] == texts(ids@)[m] by {
                if a < t0.len() {
                    let m = choose|m: int| 0 <= m < i && #[trigger] t0[a] == texts(ids@)[m];
                    assert(texts(twos@)[a] == texts(ids@)[m]);
                } else {
                    assert(texts(twos@)[a] == texts(ids@)[i as int]);
                }
            }
            assert forall|m: int| 0 <= m < i + 1 && g.degree(#[trigger] texts(ids@)[m]) == 2 implies texts(twos@).contains(texts(ids@)[m]) by {
                lemma_push_contains(t0, x, texts(ids@)[m]);
            }
        }
        i = i + 1;
    }
    let ghost order = texts(twos@);
    assert forall|u: Seq<char>| #[trigger] order.contains(u) <==> (g.nodes.contains_key(u) && g.degree(u) == 2) by {
        if g.nodes.contains_key(u) && g.degree(u) == 2 {
            assert(texts(ids@).contains(u));
            let m = choose|m: int| 0 <= m < ids.len() && texts(ids@)[m] == u;
        }
    }
    let mut k: usize = 0;
    while k < twos.len()
        invariant
            graph.wf(),
            graph@.is_simple(),
            g.keeps_node_data(graph@),
            order == texts(twos@),
            order.no_duplicates(),
            forall|a: int| 0 <= a < twos.len() ==> g.nodes.contains_key(#[trigger] order[a]),
            k <= twos.len(),
            graph@.nodes.dom() == g.nodes.dom().filter(|u: Seq<char>| !order.take(k as int).contains(u)),
            graph@.edges() == splice_all(g.edges(), order.take(k as int)),
            k == 0 ==> graph@ == g,
        decreases twos.len() - k,
    {
        let ghost before = graph@;
        let ghost x = order[k as int];
        assert(twos@[k as int]@ == x);
        assert(!order.take(k as int).contains(x)) by {
            if order.take(k as int).contains(x) {
                let m = choose|m: int| 0 <= m < k && order.take(k as int)[m] == x;
                assert(order[m] == order[k as int]);
            }
        }
        assert(graph@.nodes.contains_key(x));
        graph = replace_node_by_links(graph, &twos[k]);
        assert(order.take(k + 1) =~= order.take(k as int).push(x));
        assert(order.take(k + 1).drop_last() =~= order.take(k as int));
        assert forall|u: Seq<char>| g.nodes.contains_key(u) && #[trigger] graph@.nodes.contains_key(u) implies graph@.nodes[u]
            == g.nodes[u].with_neighbours(graph@.nodes[u].neighbours) by {
            assert(before.nodes.contains_key(u));
        }
        assert forall|u: Seq<char>| #[trigger] graph@.nodes.dom().contains(u) <==> g.nodes.dom().filter(|u: Seq<char>| !order.take(k + 1).contains(u)).contains(u) by {
            lemma_push_contains(order.take(k as int), x, u);
        }
        assert(graph@.nodes.dom() =~= g.nodes.dom().filter(|u: Seq<char>| !order.take(k + 1).contains(u)));
        k = k + 1;
    }
    assert(order.take(twos.len() as int) =~= order);
    assert(graph@.nodes.dom() =~= g.nodes.dom().filter(|u: Seq<char>| g.degree(u) != 2));
    if twos.len() > 0 {
        assert(g.nodes.contains_key(order[0]) && g.degree(order[0]) == 2);
    }
    proof {
        if forall|t: int| 0 <= t < order.len() ==> meets_unlinked(splice_all(g.edges(), order.take(t)), #[trigger] order[t]) {
            assert forall|y: Seq<char>| #[trigger] neighbour_set(g.edges(), y).finite() by {
                lemma_degree_is_neighbour_count(g, y);
            }
            assert forall|m: int| 0 <= m < order.len() implies neighbour_set(g.edges(), #[trigger] order[m]).len() == 2 by {
                lemma_degree_is_neighbour_count(g, order[m]);
            }
            lemma_splices_keep_degrees(g.edges(), order, order.len() as int);
            assert forall|u: Seq<char>| #[trigger] graph@.nodes.contains_key(u) implies graph@.degree(u) != 2 by {
                lemma_degree_is_neighbour_count(g, u);
                lemma_degree_is_neighbour_count(graph@, u);
                assert(g.degree(u) != 2);
                assert(!order.contains(u));
            }
        }
    }
    graph
}

/// `lon` and `lat` came back from `midpoint` on nodes with the data of `a` and `b`.
pub open spec fn midpoint_of<M: Fn(&Node, &Node) -> (String, String)>(
    midpoint: M,
    a: NodeView,
    b: NodeView,
    lon: Seq<char>,
    lat: Seq<char>,
) -> bool {
    exists|x: Node, y: Node, m: (String, String)|
        #[trigger] midpoint.ensures((&x, &y), m) && x@.id == a.id && x@.longitude == a.longitude
            && x@.latitude == a.latitude && y@.id == b.id && y@.longitude == b.longitude
            && y@.latitude == b.latitude && m.0@ == lon && m.1@ == lat
}

/// The members of `ns` other than `u`, `v` and `w`.
spec fn others(ns: Seq<Seq<char>>, u: Seq<char>, v: Seq<char>, w: Seq<char>) -> Set<Seq<char>> {
    Set::new(|x: Seq<char>| ns.contains(x) && x != u && x != v && x != w)
}

/// Links `w` with each member of `ns` other than `u`, `v` and `w`, both
/// ways, where they are not linked yet.
fn link_star(graph: &mut Graph, w: &String, ns: &Vec<String>, u: &String, v: &String)
    requires
        old(graph).wf(),
        old(graph)@.is_simple(),
        old(graph)@.nodes.contains_key(w@),
        forall|a: int|
            0 <= a < ns.len() && #[trigger] ns@[a]@ != u@ && ns@[a]@ != v@ ==> old(graph)@.nodes.contains_key(
                ns@[a]@,
            ),
    ensures
        final(graph).wf(),
        final(graph)@.is_simple(),
        final(graph)@.nodes.dom() == old(graph)@.nodes.dom(),
        old(graph)@.keeps_node_data(final(graph)@),
        final(graph)@.edges() == old(graph)@.edges() + star(w@, others(texts(ns@), u@, v@, w@)),
{
    let ghost g0 = graph@;
    let ghost nv = texts(ns@);
    let mut i: usize = 0;
    while i < ns.len()
        invariant
            nv == texts(ns@),
            i <= ns.len(),
            graph.wf(),
            graph@.is_simple(),
            graph@.nodes.dom() == g0.nodes.dom(),
            g0.nodes.contains_key(w@),
            forall|a: int|
                0 <= a < ns.len() && #[trigger] ns@[a]@ != u@ && ns@[a]@ != v@ ==> g0.nodes.contains_key(ns@[a]@),
            g0.keeps_node_data(graph@),
            graph@.edges() == g0.edges() + star(w@, others(nv.take(i as int), u@, v@, w@)),
        decreases ns.len() - i,
    {
        let ghost before = graph@;
        let ghost x = nv[i as int];
        assert(ns@[i as int]@ == x);
        if ns[i] != *u && ns[i] != *v && ns[i] != *w && !graph.contains_link(w, &ns[i]) {
            proof {
                lemma_link_pair_simple(graph@, w@, x);
            }
            graph.insert_link((w.clone(), ns[i].clone()));
            graph.insert_link((ns[i].clone(), w.clone()));
            assert forall|y: Seq<char>|
                g0.nodes.contains_key(y) && #[trigger] graph@.nodes.contains_key(y) implies graph@.nodes[y]
                    == g0.nodes[y].with_neighbours(graph@.nodes[y].neighbours) by {
                assert(before.nodes.contains_key(y));
            }
        } else {
            proof {
                if x != u@ && x != v@ && x != w@ {
                    assert(graph@.links.contains_key((w@, x)));
                    assert(graph@.links.contains_key((x, w@)));
                }
            }
        }
        assert forall|y: Seq<char>| #[trigger] others(nv.take(i + 1), u@, v@, w@).contains(y) <==> (others(nv.take(i as int), u@, v@, w@).contains(y) || (y == x && x != u@ && x != v@ && x != w@)) by {
            assert(nv.take(i + 1) =~= nv.take(i as int).push(x));
            lemma_push_contains(nv.take(i as int), x, y);
        }
        assert(graph@.edges() =~= g0.edges() + star(w@, others(nv.take(i + 1), u@, v@, w@)));
        i = i + 1;
    }
    assert(nv.take(ns.len() as int) =~= nv);
}

/// Contracts `u` and `v` into one node: both go, and the node
/// `merged_id(u, v)` (placed at the midpoint of the two, unless a node of
/// that id is already there) is linked with their other neighbours.
#[verifier::spinoff_prover]
pub fn replace_link_by_node<M: Fn(&Node, &Node) -> (String, String)>(
    graph: Graph,
    link: &(String, String),
    midpoint: &M,
) -> (r: Graph)
    requires
        graph.wf(),
        graph@.is_simple(),
        graph@.nodes.contains_key(link.0@),
        graph@.nodes.contains_key(link.1@),
        link.0@ != link.1@,
        forall|a: &Node, b: &Node| midpoint.requires((a, b)),
    ensures
        r.wf(),
        r@.is_simple(),
        r@.nodes.dom() == graph@.nodes.dom().remove(link.0@).remove(link.1@).insert(
            merged_id(link.0@, link.1@),
        ),
        r@.edges() == contracted(graph@.edges(), link.0@, link.1@, merged_id(link.0@, link.1@)),
        graph@.keeps_node_data(r@),
        !graph@.nodes.contains_key(merged_id(link.0@, link.1@)) ==> midpoint_of(
            *midpoint,
            graph@.nodes[canonical(link.0@, link.1@).0],
            graph@.nodes[canonical(link.0@, link.1@).1],
            r@.nodes[merged_id(link.0@, link.1@)].longitude,
            r@.nodes[merged_id(link.0@, link.1@)].latitude,
        ),
{
    let mut graph = graph;
    let ghost g = graph@;
    let u = &link.0;
    let v = &link.1;
    let (first, second) = deterministic_link(u, v);
    let w = merge_id(u, v);
    let a = graph.get_node(&first);
    let b = graph.get_node(&second);
    let mp = midpoint(a, b);
    let ghost ga = *a;
    let ghost gb = *b;
    let ghost gm = mp;
    assert(midpoint.ensures((&ga, &gb), gm));
    let (longitude, latitude) = mp;
    let ns_u = copy_strings(&graph.get_node(u).neighbours);
    let ns_v = copy_strings(&graph.get_node(v).neighbours);
    proof {
        lemma_neighbour_list(g, u@);
        lemma_neighbour_list(g, v@);
        lemma_remove_node_simple(g, u@);
    }
    graph.remove_node(u);
    let ghost g1 = graph@;
    proof {
        lemma_remove_node_simple(g1, v@);
    }
    graph.remove_node(v);
    let ghost g2 = graph@;
    let ghost had_w = g2.nodes.contains_key(w@);
    let node = Node { id: w.clone(), longitude, latitude, neighbours: Vec::new() };
    assert(node@.neighbours =~= Seq::<Seq<char>>::empty());
    proof {
        if !had_w {
            lemma_add_isolated_simple(g2, node@);
        }
    }
    graph.insert_node(node);
    let ghost g3 = graph@;
    assert(g3.edges() == g2.edges());
    assert forall|a: int| 0 <= a < ns_u.len() && #[trigger] ns_u@[a]@ != u@ && ns_u@[a]@ != v@ implies g3.nodes.contains_key(ns_u@[a]@) by {
        assert(texts(ns_u@)[a] == ns_u@[a]@);
        assert(g.nodes[u@].neighbours.contains(ns_u@[a]@));
    }
    assert forall|a: int| 0 <= a < ns_v.len() && #[trigger] ns_v@[a]@ != u@ && ns_v@[a]@ != v@ implies g3.nodes.contains_key(ns_v@[a]@) by {
        assert(texts(ns_v@)[a] == ns_v@[a]@);
        assert(g.nodes[v@].neighbours.contains(ns_v@[a]@));
    }
    link_star(&mut graph, &w, &ns_u, u, v);
    let ghost g4 = graph@;
    link_star(&mut graph, &w, &ns_v, u, v);
    assert forall|y: Seq<char>|
        g.nodes.contains_key(y) && #[trigger] graph@.nodes.contains_key(y) implies graph@.nodes[y]
            == g.nodes[y].with_neighbours(graph@.nodes[y].neighbours) by {
        assert(g1.nodes.contains_key(y));
        assert(g2.nodes.contains_key(y));
        assert(g3.nodes.contains_key(y));
        assert(g4.nodes.contains_key(y));
    }
    assert(graph@.nodes.dom() =~= g.nodes.dom().remove(u@).remove(v@).insert(w@));
    assert(graph@.edges() =~= contracted(g.edges(), u@, v@, w@)) by {
        assert forall|y: Seq<char>| #[trigger] neighbour_set(g.edges(), u@).union(neighbour_set(g.edges(), v@)).remove(u@).remove(v@).remove(w@).contains(y) <==> (others(texts(ns_u@), u@, v@, w@).contains(y) || others(texts(ns_v@), u@, v@, w@).contains(y)) by {
            assert(neighbour_set(g.edges(), u@).contains(y) <==> texts(ns_u@).contains(y));
            assert(neighbour_set(g.edges(), v@).contains(y) <==> texts(ns_v@).contains(y));
        }
    }
    proof {
        if !g.nodes.contains_key(w@) {
            assert(!had_w);
            assert(g4.nodes.contains_key(w@));
            assert(graph@.nodes.contains_key(w@));
            assert(graph@.nodes[w@].longitude == g3.nodes[w@].longitude);
            assert(graph@.nodes[w@].latitude == g3.nodes[w@].latitude);
            assert(ga@.id == g.nodes[canonical(u@, v@).0].id);
        }
    }
    graph
}

/// Contracting the link `(u, v)` or `(v, u)` gives the same node id, the
/// same nodes and the same links, and hands the midpoint the same two nodes
/// in the same order.
pub proof fn lemma_contraction_symmetric(g: GraphView, u: Seq<char>, v: Seq<char>)
    ensures
        merged_id(u, v) == merged_id(v, u),
        canonical(u, v) == canonical(v, u),
        g.nodes.dom().remove(u).remove(v).insert(merged_id(u, v)) == g.nodes.dom().remove(v).remove(u).insert(
            merged_id(v, u),
        ),
        contracted(g.edges(), u, v, merged_id(u, v)) == contracted(g.edges(), v, u, merged_id(v, u)),
{
    lemma_merged_id_symmetric(u, v);
    crate::ids::lemma_canonical_symmetric(u, v);
    let w = merged_id(u, v);
    let e = g.edges();
    assert(g.nodes.dom().remove(u).remove(v).insert(w) =~= g.nodes.dom().remove(v).remove(u).insert(w));
    assert(edges_without(edges_without(e, u), v) =~= edges_without(edges_without(e, v), u));
    assert(neighbour_set(e, u).union(neighbour_set(e, v)).remove(u).remove(v).remove(w)
        =~= neighbour_set(e, v).union(neighbour_set(e, u)).remove(v).remove(u).remove(w));
}

/// `f` answered `r` on nodes with the id and coordinate of `a` and `b`.
pub open spec fn judged<F: Fn(&Node, &Node) -> bool>(f: F, a: NodeView, b: NodeView, r: bool) -> bool {
    exists|x: Node, y: Node|
        #[trigger] f.ensures((&x, &y), r) && x@.id == a.id && x@.longitude == a.longitude
            && x@.latitude == a.latitude && y@.id == b.id && y@.longitude == b.longitude
            && y@.latitude == b.latitude
}

/// Whether `is_short` holds of some link; `false` only when it answered
/// `false` on every link.
fn any_short<S: Fn(&Node, &Node) -> bool>(graph: &Graph, is_short: &S) -> (r: bool)
    requires
        graph.wf(),
        graph@.is_simple(),
        forall|a: &Node, b: &Node| is_short.requires((a, b)),
    ensures
        !r ==> forall|k: (Seq<char>, Seq<char>)| #[trigger]
            graph@.links.contains_key(k) ==> judged(*is_short, graph@.nodes[k.0], graph@.nodes[k.1], false),
{
    let keys = graph.link_keys();
    let mut i: usize = 0;
    while i < keys.len()
        invariant
            graph.wf(),
            graph@.is_simple(),
            forall|a: &Node, b: &Node| is_short.requires((a, b)),
            i <= keys.len(),
            forall|m: int| 0 <= m < keys.len() ==> graph@.links.contains_key((#[trigger] keys@[m].0@, keys@[m].1@)),
            forall|m: int| 0 <= m < i ==> judged(*is_short, graph@.nodes[#[trigger] keys@[m].0@], graph@.nodes[keys@[m].1@], false),
        decreases keys.len() - i,
    {
        assert(graph@.links.contains_key((keys@[i as int].0@, keys@[i as int].1@)));
        let a = graph.get_node(&keys[i].0);
        let b = graph.get_node(&keys[i].1);
        let ghost (ga, gb) = (*a, *b);
        if is_short(a, b) {
            return true;
        }
        assert(is_short.ensures((&ga, &gb), false));
        i = i + 1;
    }
    assert forall|k: (Seq<char>, Seq<char>)| #[trigger] graph@.links.contains_key(k) implies judged(*is_short, graph@.nodes[k.0], graph@.nodes[k.1], false) by {
        let m = choose|m: int| 0 <= m < keys.len() && #[trigger] keys@[m].0@ == k.0 && keys@[m].1@ == k.1;
    }
    false
}

/// The coordinate of each node, by id.
pub open spec fn places(g: GraphView) -> Map<Seq<char>, (Seq<char>, Seq<char>)> {
    Map::new(|id: Seq<char>| g.nodes.contains_key(id), |id: Seq<char>| (g.nodes[id].longitude, g.nodes[id].latitude))
}

/// A node with id `id` at the place that `d` gives it.
pub open spec fn placed(id: Seq<char>, d: Map<Seq<char>, (Seq<char>, Seq<char>)>) -> NodeView {
    NodeView { id, longitude: d[id].0, latitude: d[id].1, neighbours: Seq::empty() }
}

/// Links and places after contracting `s.0` and `s.1` into
/// `merged_id(s.0, s.1)`, placed at `(s.2, s.3)` unless a node of that id
/// remains.
pub open spec fn contract_step(
    st: (Set<(Seq<char>, Seq<char>)>, Map<Seq<char>, (Seq<char>, Seq<char>)>),
    s: (Seq<char>, Seq<char>, Seq<char>, Seq<char>),
) -> (Set<(Seq<char>, Seq<char>)>, Map<Seq<char>, (Seq<char>, Seq<char>)>) {
    let w = merged_id(s.0, s.1);
    let d1 = st.1.remove(s.0).remove(s.1);
    (contracted(st.0, s.0, s.1, w), if d1.contains_key(w) { d1 } else { d1.insert(w, (s.2, s.3)) })
}

/// Links and places after the contractions `steps`, in order.
pub open spec fn contract_all(
    st: (Set<(Seq<char>, Seq<char>)>, Map<Seq<char>, (Seq<char>, Seq<char>)>),
    steps: Seq<(Seq<char>, Seq<char>, Seq<char>, Seq<char>)>,
) -> (Set<(Seq<char>, Seq<char>)>, Map<Seq<char>, (Seq<char>, Seq<char>)>)
    decreases steps.len(),
{
    if steps.len() == 0 {
        st
    } else {
        contract_step(contract_all(st, steps.drop_last()), steps.last())
    }
}

/// Contraction `s`, made in state `st`, was of a present link on which
/// `is_short` answered `true`, and a new node got the place that `midpoint`
/// gave for the two ends in id order.
pub open spec fn contraction_justified<S: Fn(&Node, &Node) -> bool, M: Fn(&Node, &Node) -> (String, String)>(
    is_short: S,
    midpoint: M,
    st: (Set<(Seq<char>, Seq<char>)>, Map<Seq<char>, (Seq<char>, Seq<char>)>),
    s: (Seq<char>, Seq<char>, Seq<char>, Seq<char>),
) -> bool {
    let w = merged_id(s.0, s.1);
    let c = canonical(s.0, s.1);
    &&& st.0.contains((s.0, s.1))
    &&& judged(is_short, placed(s.0, st.1), placed(s.1, st.1), true)
    &&& !st.1.remove(s.0).remove(s.1).contains_key(w) ==> midpoint_of(midpoint, placed(c.0, st.1), placed(c.1, st.1), s.2, s.3)
}

/// Each of `steps` is justified in the state the earlier ones left.
pub open spec fn contractions_justified<S: Fn(&Node, &Node) -> bool, M: Fn(&Node, &Node) -> (String, String)>(
    is_short: S,
    midpoint: M,
    st: (Set<(Seq<char>, Seq<char>)>, Map<Seq<char>, (Seq<char>, Seq<char>)>),
    steps: Seq<(Seq<char>, Seq<char>, Seq<char>, Seq<char>)>,
) -> bool {
    forall|t: int| 0 <= t < steps.len() ==> contraction_justified(is_short, midpoint, contract_all(st, steps.take(t)), #[trigger] steps[t])
}

proof fn lemma_merged_id_new(u: Seq<char>, v: Seq<char>)
    ensures
        merged_id(u, v) != u,
        merged_id(u, v) != v,
{
    crate::ids::lemma_text_lt_total(u, v);
    assert(merged_id(u, v).len() == u.len() + v.len() + 1);
}

proof fn lemma_contract_all_append(
    st: (Set<(Seq<char>, Seq<char>)>, Map<Seq<char>, (Seq<char>, Seq<char>)>),
    s1: Seq<(Seq<char>, Seq<char>, Seq<char>, Seq<char>)>,
    s2: Seq<(Seq<char>, Seq<char>, Seq<char>, Seq<char>)>,
)
    ensures
        contract_all(st, s1 + s2) == contract_all(contract_all(st, s1), s2),
    decreases s2.len(),
{
    if s2.len() == 0 {
        assert(s1 + s2 =~= s1);
    } else {
        assert((s1 + s2).drop_last() =~= s1 + s2.drop_last());
        lemma_contract_all_append(st, s1, s2.drop_last());
    }
}

proof fn lemma_justified_append<S: Fn(&Node, &Node) -> bool, M: Fn(&Node, &Node) -> (String, String)>(
    is_short: S,
    midpoint: M,
    st: (Set<(Seq<char>, Seq<char>)>, Map<Seq<char>, (Seq<char>, Seq<char>)>),
    s1: Seq<(Seq<char>, Seq<char>, Seq<char>, Seq<char>)>,
    s2: Seq<(Seq<char>, Seq<char>, Seq<char>, Seq<char>)>,
)
    requires
        contractions_justified(is_short, midpoint, st, s1),
        contractions_justified(is_short, midpoint, contract_all(st, s1), s2),
    ensures
        contractions_justified(is_short, midpoint, st, s1 + s2),
{
    let s = s1 + s2;
    assert forall|t: int| 0 <= t < s.len() implies contraction_justified(is_short, midpoint, contract_all(st, s.take(t)), #[trigger] s[t]) by {
        if t < s1.len() {
            assert(s.take(t) =~= s1.take(t));
            assert(s[t] == s1[t]);
        } else {
            let t2 = t - s1.len();
            assert(s.take(t) =~= s1 + s2.take(t2));
            lemma_contract_all_append(st, s1, s2.take(t2));
            assert(s[t] == s2[t2]);
        }
    }
}

/// One pass of link contraction over `order`: each link of `order` still
/// present (in its reverse too) on which `is_short` answers `true` is
/// contracted. The flag says whether any was.
#[verifier::spinoff_prover]
#[verifier::rlimit(100)]
pub fn contract_links_in_order<S: Fn(&Node, &Node) -> bool, M: Fn(&Node, &Node) -> (String, String)>(
    graph: Graph,
    order: &Vec<(String, String)>,
    is_short: &S,
    midpoint: &M,
) -> (r: (Graph, bool))
    requires
        graph.wf(),
        graph@.is_simple(),
        forall|a: &Node, b: &Node| is_short.requires((a, b)),
        forall|a: &Node, b: &Node| midpoint.requires((a, b)),
    ensures
        r.0.wf(),
        r.0@.is_simple(),
        r.0@.nodes.dom().len() <= graph@.nodes.dom().len(),
        r.1 ==> r.0@.nodes.dom().len() < graph@.nodes.dom().len(),
        exists|steps: Seq<(Seq<char>, Seq<char>, Seq<char>, Seq<char>)>|
            {
                &&& (steps.len() > 0) == r.1
                &&& (r.0@.edges(), places(r.0@)) == contract_all((graph@.edges(), places(graph@)), steps)
                &&& contractions_justified(*is_short, *midpoint, (graph@.edges(), places(graph@)), steps)
            },
        !r.1 ==> r.0@ == graph@ && forall|m: int|
            0 <= m < order.len() && #[trigger] graph@.links.contains_key((order@[m].0@, order@[m].1@))
                ==> judged(*is_short, graph@.nodes[order@[m].0@], graph@.nodes[order@[m].1@], false),
{
    let mut graph = graph;
    let ghost g = graph@;
    let ghost start = (g.edges(), places(g));
    let ghost mut steps: Seq<(Seq<char>, Seq<char>, Seq<char>, Seq<char>)> = Seq::empty();
    proof {
        graph.lemma_nodes_finite();
        assert(places(graph@) =~= start.1);
    }
    let mut contracted = false;
    let mut i: usize = 0;
    while i < order.len()
        invariant
            graph.wf(),
            graph@.is_simple(),
            forall|a: &Node, b: &Node| is_short.requires((a, b)),
            forall|a: &Node, b: &Node| midpoint.requires((a, b)),
            i <= order.len(),
            g.nodes.dom().finite(),
            start == (g.edges(), places(g)),
            graph@.nodes.dom().finite(),
            graph@.nodes.dom().len() <= g.nodes.dom().len(),
            contracted ==> graph@.nodes.dom().len() < g.nodes.dom().len(),
            contracted == (steps.len() > 0),
            (graph@.edges(), places(graph@)) == contract_all(start, steps),
            contractions_justified(*is_short, *midpoint, start, steps),
            !contracted ==> graph@ == g,
            !contracted ==> forall|m: int|
                0 <= m < i && #[trigger] g.links.contains_key((order@[m].0@, order@[m].1@))
                    ==> judged(*is_short, g.nodes[order@[m].0@], g.nodes[order@[m].1@], false),
        decreases order.len() - i,
    {
        let link = &order[i];
        if graph.contains_link(&link.1, &link.0) {
            let ghost before = graph@;
            let ghost u = link.0@;
            let ghost v = link.1@;
            assert(graph@.links.contains_key((u, v)));
            assert(u != v);
            let a = graph.get_node(&link.0);
            let b = graph.get_node(&link.1);
            let ghost (ga, gb) = (*a, *b);
            if is_short(a, b) {
                graph = replace_link_by_node(graph, link, midpoint);
                proof {
                    let w = merged_id(u, v);
                    lemma_merged_id_new(u, v);
                    let d = places(before);
                    let s = (u, v, graph@.nodes[w].longitude, graph@.nodes[w].latitude);
                    let dom = before.nodes.dom();
                    assert(dom.remove(u).len() == dom.len() - 1);
                    assert(dom.remove(u).remove(v).len() == dom.len() - 2);
                    graph.lemma_nodes_finite();
                    assert(places(graph@) =~= contract_step((before.edges(), d), s).1) by {
                        assert forall|x: Seq<char>| #[trigger] graph@.nodes.contains_key(x) && before.nodes.contains_key(x) implies graph@.nodes[x] == before.nodes[x].with_neighbours(graph@.nodes[x].neighbours) by {}
                    }
                    assert(judged(*is_short, placed(u, d), placed(v, d), true)) by {
                        assert(is_short.ensures((&ga, &gb), true));
                    }
                    let steps2 = steps.push(s);
                    assert(steps2.drop_last() =~= steps);
                    assert(contract_all(start, steps2) == contract_step(contract_all(start, steps), s));
                    assert forall|t: int| 0 <= t < steps2.len() implies contraction_justified(*is_short, *midpoint, contract_all(start, steps2.take(t)), #[trigger] steps2[t]) by {
                        if t < steps.len() {
                            assert(steps2.take(t) =~= steps.take(t));
                            assert(steps2[t] == steps[t]);
                        } else {
                            assert(steps2.take(t) =~= steps);
                            assert(steps2[t] == s);
                        }
                    }
                    steps = steps2;
                }
                contracted = true;
            } else {
                assert(is_short.ensures((&ga, &gb), false));
            }
        }
        i = i + 1;
    }
    (graph, contracted)
}

/// Contracts links on which `is_short` holds until it holds on none: each
/// pass visits the links in a random order drawn from `rng` and contracts
/// each one still present that is short; passes repeat while some link is
/// short.
#[verifier::spinoff_prover]
pub fn remove_under_delta_links<S: Fn(&Node, &Node) -> bool, M: Fn(&Node, &Node) -> (String, String)>(
    graph: Graph,
    is_short: &S,
    midpoint: &M,
    rng: &mut StdRng,
) -> (r: Graph)
    requires
        graph.wf(),
        graph@.is_simple(),
        forall|a: &Node, b: &Node| is_short.requires((a, b)),
        forall|a: &Node, b: &Node| midpoint.requires((a, b)),
    ensures
        r.wf(),
        r@.is_simple(),
        forall|k: (Seq<char>, Seq<char>)| #[trigger]
            r@.links.contains_key(k) ==> judged(*is_short, r@.nodes[k.0], r@.nodes[k.1], false),
        r@.nodes.dom().len() <= graph@.nodes.dom().len(),
        exists|steps: Seq<(Seq<char>, Seq<char>, Seq<char>, Seq<char>)>|
            {
                &&& (r@.edges(), places(r@)) == contract_all((graph@.edges(), places(graph@)), steps)
                &&& contractions_justified(*is_short, *midpoint, (graph@.edges(), places(graph@)), steps)
                &&& steps.len() == 0 ==> r@ == graph@
            },
        (forall|k: (Seq<char>, Seq<char>)| #[trigger] graph@.links.contains_key(k)
            ==> !judged(*is_short, graph@.nodes[k.0], graph@.nodes[k.1], true)) ==> r@ == graph@,
{
    let mut graph = graph;
    let ghost g = graph@;
    let ghost start = (g.edges(), places(g));
    let ghost mut all: Seq<(Seq<char>, Seq<char>, Seq<char>, Seq<char>)> = Seq::empty();
    proof {
        graph.lemma_nodes_finite();
        assert(places(graph@) =~= start.1);
    }
    loop
        invariant
            graph.wf(),
            graph@.is_simple(),
            start == (g.edges(), places(g)),
            graph@.nodes.dom().len() <= g.nodes.dom().len(),
            (graph@.edges(), places(graph@)) == contract_all(start, all),
            contractions_justified(*is_short, *midpoint, start, all),
            all.len() == 0 ==> graph@ == g,
            forall|a: &Node, b: &Node| is_short.requires((a, b)),
            forall|a: &Node, b: &Node| midpoint.requires((a, b)),
        ensures
            graph.wf(),
            graph@.is_simple(),
            graph@.nodes.dom().len() <= g.nodes.dom().len(),
            (graph@.edges(), places(graph@)) == contract_all(start, all),
            contractions_justified(*is_short, *midpoint, start, all),
            all.len() == 0 ==> graph@ == g,
            forall|k: (Seq<char>, Seq<char>)| #[trigger]
                graph@.links.contains_key(k) ==> judged(*is_short, graph@.nodes[k.0], graph@.nodes[k.1], false),
        decreases graph@.nodes.dom().len(),
    {
        let ghost before = graph@;
        let keys = graph.link_keys();
        let perm = random_order(keys.len(), rng);
        let mut order: Vec<(String, String)> = Vec::new();
        let mut j: usize = 0;
        while j < keys.len()
            invariant
                j <= keys.len(),
                perm.len() == keys.len(),
                forall|m: int| 0 <= m < keys.len() ==> #[trigger] perm@[m] < keys.len(),
                order.len() == j,
                forall|m: int| 0 <= m < j ==> #[trigger] order@[m].0@ == keys@[perm@[m] as int].0@ && order@[m].1@ == keys@[perm@[m] as int].1@,
            decreases keys.len() - j,
        {
            let p = perm[j];
            order.push((keys[p].0.clone(), keys[p].1.clone()));
            j = j + 1;
        }
        let (next, contracted) = contract_links_in_order(graph, &order, is_short, midpoint);
        graph = next;
        let ghost pass = choose|steps: Seq<(Seq<char>, Seq<char>, Seq<char>, Seq<char>)>|
            {
                &&& (steps.len() > 0) == contracted
                &&& (graph@.edges(), places(graph@)) == contract_all((before.edges(), places(before)), steps)
                &&& contractions_justified(*is_short, *midpoint, (before.edges(), places(before)), steps)
            };
        proof {
            lemma_contract_all_append(start, all, pass);
            lemma_justified_append(*is_short, *midpoint, start, all, pass);
            if !contracted {
                assert(all + pass =~= all);
            }
            all = all + pass;
        }
        if !contracted {
            assert forall|k: (Seq<char>, Seq<char>)| #[trigger] graph@.links.contains_key(k) implies judged(*is_short, graph@.nodes[k.0], graph@.nodes[k.1], false) by {
                let jj = choose|jj: int| 0 <= jj < keys.len() && #[trigger] keys@[jj].0@ == k.0 && keys@[jj].1@ == k.1;
                assert(perm@.contains(jj as usize));
                let m = choose|m: int| 0 <= m < order.len() && perm@[m] == jj as usize;
                assert(graph@.links.contains_key((order@[m].0@, order@[m].1@)));
            }
            break;
        }
        if !any_short(&graph, is_short) {
            break;
        }
    }
    proof {
        if forall|k: (Seq<char>, Seq<char>)| #[trigger] g.links.contains_key(k)
            ==> !judged(*is_short, g.nodes[k.0], g.nodes[k.1], true) {
            if all.len() > 0 {
                assert(contraction_justified(*is_short, *midpoint, contract_all(start, all.take(0)), all[0]));
                assert(all.take(0) =~= Seq::<(Seq<char>, Seq<char>, Seq<char>, Seq<char>)>::empty());
                let u = all[0].0;
                let v = all[0].1;
                assert(g.links.contains_key((u, v)));
                assert(g.nodes.contains_key(u) && g.nodes.contains_key(v));
                assert(placed(u, places(g)).id == g.nodes[u].id);
            }
        }
    }
    graph
}

/// The links after the first `i` steps of a collapse pass over `order`,
/// where step `m` splices out `order[m]` unless `keep[m]`.
pub open spec fn collapse_steps(
    e: Set<(Seq<char>, Seq<char>)>,
    order: Seq<Seq<char>>,
    keep: Seq<bool>,
    i: nat,
) -> Set<(Seq<char>, Seq<char>)>
    decreases i,
{
    if i == 0 {
        e
    } else {
        let p = collapse_steps(e, order, keep, (i - 1) as nat);
        if keep[i - 1] {
            p
        } else {
            spliced(p, order[i - 1])
        }
    }
}

/// Step `m` of a collapse pass decided by `within`: a node goes when
/// `within` held on each of its links at that moment, and stays when it
/// failed on one.
pub open spec fn collapse_step_decided<F: Fn(&Node, &Node) -> bool>(
    within: F,
    g: GraphView,
    order: Seq<Seq<char>>,
    keep: Seq<bool>,
    m: int,
) -> bool {
    let p = collapse_steps(g.edges(), order, keep, m as nat);
    let x = order[m];
    if keep[m] {
        exists|y: Seq<char>| #[trigger] p.contains((x, y)) && judged(within, g.nodes[x], g.nodes[y], false)
    } else {
        forall|y: Seq<char>| #[trigger] p.contains((x, y)) ==> judged(within, g.nodes[x], g.nodes[y], true)
    }
}

/// Visits the nodes of `order` in that order and splices out each node on
/// all of whose links `within_delta` holds at that moment.
#[verifier::spinoff_prover]
pub fn collapse_nodes_in_order<F: Fn(&Node, &Node) -> bool>(
    graph: Graph,
    ov: &Vec<String>,
    within_delta: &F,
) -> (r: Graph)
    requires
        graph.wf(),
        graph@.is_simple(),
        forall|a: &Node, b: &Node| within_delta.requires((a, b)),
        texts(ov@).no_duplicates(),
        forall|m: int| 0 <= m < ov.len() ==> graph@.nodes.contains_key(#[trigger] ov@[m]@),
    ensures
        r.wf(),
        r@.is_simple(),
        graph@.keeps_node_data(r@),
        forall|u: Seq<char>| #[trigger] r@.nodes.contains_key(u) ==> graph@.nodes.contains_key(u),
        forall|u: Seq<char>| graph@.nodes.contains_key(u) && !texts(ov@).contains(u) ==> #[trigger] r@.nodes.contains_key(u),
        exists|keep: Seq<bool>|
            {
                &&& keep.len() == ov.len()
                &&& forall|m: int|
                    0 <= m < ov.len() ==> collapse_step_decided(*within_delta, graph@, texts(ov@), keep, m)
                &&& forall|m: int|
                    0 <= m < ov.len() ==> r@.nodes.contains_key(#[trigger] texts(ov@)[m]) == keep[m]
                &&& r@.edges() == collapse_steps(graph@.edges(), texts(ov@), keep, ov.len() as nat)
            },
{
    let mut graph = graph;
    let ghost g = graph@;
    let n = ov.len();
    let ghost order = texts(ov@);
    assert forall|m: int| 0 <= m < n implies g.nodes.contains_key(#[trigger] order[m]) by {
        assert(order[m] == ov@[m]@);
    }
    let ghost mut keep: Seq<bool> = Seq::empty();
    let mut i: usize = 0;
    while i < n
        invariant
            n == ov.len(),
            order == texts(ov@),
            order.len() == n,
            order.no_duplicates(),
            forall|m: int| 0 <= m < n ==> g.nodes.contains_key(#[trigger] order[m]),
            forall|u: Seq<char>| g.nodes.contains_key(u) && !order.contains(u) ==> #[trigger] graph@.nodes.contains_key(u),
            forall|a: &Node, b: &Node| within_delta.requires((a, b)),
            i <= n,
            keep.len() == i,
            graph.wf(),
            graph@.is_simple(),
            g.keeps_node_data(graph@),
            forall|m: int| 0 <= m < i ==> collapse_step_decided(*within_delta, g, order, keep, m),
            forall|m: int| 0 <= m < i ==> graph@.nodes.contains_key(#[trigger] order[m]) == keep[m],
            forall|m: int| i <= m < n ==> graph@.nodes.contains_key(#[trigger] order[m]),
            forall|u: Seq<char>| #[trigger] graph@.nodes.contains_key(u) ==> g.nodes.contains_key(u),
            graph@.edges() == collapse_steps(g.edges(), order, keep, i as nat),
        decreases n - i,
    {
        let id = &ov[i];
        let ghost x = order[i as int];
        assert(id@ == x);
        assert(graph@.nodes.contains_key(x));
        let ns = copy_strings(&graph.get_node(id).neighbours);
        proof {
            lemma_neighbour_list(graph@, x);
        }
        let mut remove = true;
        let mut j: usize = 0;
        while j < ns.len() && remove
            invariant
                graph.wf(),
                graph@.nodes.contains_key(x),
                id@ == x,
                texts(ns@) == graph@.nodes[x].neighbours,
                forall|y: Seq<char>| graph@.nodes[x].neighbours.contains(y) ==> #[trigger] graph@.nodes.contains_key(y),
                forall|a: &Node, b: &Node| within_delta.requires((a, b)),
                j <= ns.len(),
                remove ==> forall|q: int| 0 <= q < j ==> judged(*within_delta, graph@.nodes[x], graph@.nodes[#[trigger] texts(ns@)[q]], true),
                !remove ==> exists|q: int| 0 <= q < ns.len() && judged(*within_delta, graph@.nodes[x], graph@.nodes[#[trigger] texts(ns@)[q]], false),
            decreases ns.len() - j,
        {
            assert(texts(ns@)[j as int] == ns@[j as int]@);
            assert(graph@.nodes[x].neighbours.contains(ns@[j as int]@));
            let a = graph.get_node(id);
            let b = graph.get_node(&ns[j]);
            let ghost (ga, gb) = (*a, *b);
            let ok = within_delta(a, b);
            assert(within_delta.ensures((&ga, &gb), ok));
            if !ok {
                remove = false;
                assert(judged(*within_delta, graph@.nodes[x], graph@.nodes[texts(ns@)[j as int]], false));
            }
            j = j + 1;
        }
        let ghost before = graph@;
        let ghost p = collapse_steps(g.edges(), order, keep, i as nat);
        if remove {
            graph = replace_node_by_links(graph, id);
            assert forall|u: Seq<char>|
                g.nodes.contains_key(u) && #[trigger] graph@.nodes.contains_key(u) implies graph@.nodes[u]
                    == g.nodes[u].with_neighbours(graph@.nodes[u].neighbours) by {
                assert(before.nodes.contains_key(u));
            }
        }
        proof {
            let keep2 = keep.push(!remove);
            assert forall|m: int| 0 <= m <= i implies #[trigger] collapse_steps(g.edges(), order, keep2, m as nat) == collapse_steps(g.edges(), order, keep, m as nat) by {
                lemma_collapse_steps_prefix(g.edges(), order, keep, keep2, m as nat);
            }
            lemma_collapse_steps_prefix(g.edges(), order, keep, keep2, i as nat);
            assert(collapse_steps(g.edges(), order, keep2, i as nat) == p);
            assert(keep2[i as int] == !remove);
            assert(collapse_steps(g.edges(), order, keep2, (i + 1) as nat) == (if remove { spliced(p, x) } else { p }));
            assert forall|m: int| 0 <= m < i + 1 implies collapse_step_decided(*within_delta, g, order, keep2, m) by {
                assert(collapse_steps(g.edges(), order, keep2, m as nat) == collapse_steps(g.edges(), order, keep, m as nat));
                if m == i {
                    if remove {
                        assert forall|y: Seq<char>| #[trigger] p.contains((x, y)) implies judged(*within_delta, g.nodes[x], g.nodes[y], true) by {
                            assert(before.nodes[x].neighbours.contains(y));
                            let q = choose|q: int| 0 <= q < ns.len() && texts(ns@)[q] == y;
                            assert(judged(*within_delta, before.nodes[x], before.nodes[texts(ns@)[q]], true));
                            assert(before.nodes.contains_key(y));
                        }
                    } else {
                        let q = choose|q: int| 0 <= q < ns.len() && judged(*within_delta, before.nodes[x], before.nodes[#[trigger] texts(ns@)[q]], false);
                        let y = texts(ns@)[q];
                        assert(before.nodes[x].neighbours.contains(y));
                        assert(p.contains((x, y)));
                        assert(before.nodes.contains_key(y));
                    }
                } else {
                    assert(keep2[m] == keep[m]);
                    assert(collapse_step_decided(*within_delta, g, order, keep, m));
                }
            }
            assert forall|m: int| 0 <= m < i + 1 implies graph@.nodes.contains_key(#[trigger] order[m]) == keep2[m] by {
                if m < i {
                    assert(order[m] != x);
                    assert(before.nodes.contains_key(order[m]) == keep[m]);
                }
            }
            assert forall|u: Seq<char>| g.nodes.contains_key(u) && !order.contains(u) implies #[trigger] graph@.nodes.contains_key(u) by {
                assert(before.nodes.contains_key(u));
                assert(u != x);
            }
            assert forall|m: int| i + 1 <= m < n implies graph@.nodes.contains_key(#[trigger] order[m]) by {
                assert(order[m] != x);
                assert(before.nodes.contains_key(order[m]));
            }
            keep = keep2;
        }
        i = i + 1;
    }
    assert(forall|m: int| 0 <= m < order.len() ==> graph@.nodes.contains_key(#[trigger] order[m]) == keep[m]);
    graph
}

/// Visits the nodes once, in a random order drawn from `rng`, and splices
/// out each node on all of whose links `within_delta` holds at that moment.
pub fn remove_under_delta_nodes<F: Fn(&Node, &Node) -> bool>(
    graph: Graph,
    within_delta: &F,
    rng: &mut StdRng,
) -> (r: Graph)
    requires
        graph.wf(),
        graph@.is_simple(),
        forall|a: &Node, b: &Node| within_delta.requires((a, b)),
    ensures
        r.wf(),
        r@.is_simple(),
        graph@.keeps_node_data(r@),
        exists|order: Seq<Seq<char>>, keep: Seq<bool>|
            {
                &&& order.len() == keep.len()
                &&& order.no_duplicates()
                &&& forall|u: Seq<char>| #[trigger] order.contains(u) <==> graph@.nodes.contains_key(u)
                &&& forall|m: int|
                    0 <= m < order.len() ==> collapse_step_decided(*within_delta, graph@, order, keep, m)
                &&& forall|m: int|
                    0 <= m < order.len() ==> r@.nodes.contains_key(#[trigger] order[m]) == keep[m]
                &&& forall|u: Seq<char>| #[trigger] r@.nodes.contains_key(u) ==> graph@.nodes.contains_key(u)
                &&& r@.edges() == collapse_steps(graph@.edges(), order, keep, order.len())
            },
{
    let ghost g = graph@;
    let ids = graph.node_ids();
    let perm = random_order(ids.len(), rng);
    let n = ids.len();
    let mut ov: Vec<String> = Vec::new();
    let mut i: usize = 0;
    while i < n
        invariant
            n == ids.len(),
            n == perm.len(),
            forall|m: int| 0 <= m < n ==> #[trigger] perm@[m] < n,
            i <= n,
            ov.len() == i,
            forall|m: int| 0 <= m < i ==> #[trigger] ov@[m]@ == ids@[perm@[m] as int]@,
        decreases n - i,
    {
        ov.push(ids[perm[i]].clone());
        i = i + 1;
    }
    let ghost order = texts(ov@);
    assert forall|a: int, b: int| 0 <= a < n && 0 <= b < n && a != b implies order[a] != order[b] by {
        assert(perm@[a] != perm@[b]);
        assert(order[a] == ov@[a]@ && order[b] == ov@[b]@);
        assert(texts(ids@)[perm@[a] as int] != texts(ids@)[perm@[b] as int]);
    }
    assert forall|u: Seq<char>| #[trigger] order.contains(u) <==> g.nodes.contains_key(u) by {
        if g.nodes.contains_key(u) {
            let j = choose|j: int| 0 <= j < n && texts(ids@)[j] == u;
            assert(perm@.contains(j as usize));
            let m = choose|m: int| 0 <= m < n && perm@[m] == j as usize;
            assert(order[m] == ov@[m]@);
            assert(order[m] == u);
        }
        if order.contains(u) {
            let m = choose|m: int| 0 <= m < n && order[m] == u;
            assert(order[m] == ov@[m]@);
            assert(ids@[perm@[m] as int]@ == u);
        }
    }
    assert forall|m: int| 0 <= m < ov.len() implies g.nodes.contains_key(#[trigger] ov@[m]@) by {
        assert(ids@[perm@[m] as int]@ == ov@[m]@);
    }
    let r = collapse_nodes_in_order(graph, &ov, within_delta);
    r
}

proof fn lemma_collapse_steps_prefix(
    e: Set<(Seq<char>, Seq<char>)>,
    order: Seq<Seq<char>>,
    keep: Seq<bool>,
    keep2: Seq<bool>,
    m: nat,
)
    requires
        m <= keep.len(),
        keep.len() <= keep2.len(),
        forall|a: int| 0 <= a < keep.len() ==> keep2[a] == keep[a],
    ensures
        collapse_steps(e, order, keep2, m) == collapse_steps(e, order, keep, m),
    decreases m,
{
    if m > 0 {
        lemma_collapse_steps_prefix(e, order, keep, keep2, (m - 1) as nat);
    }
}

/// The position of `name` in `ids`.
fn index_of(ids: &Vec<String>, name: &String) -> (r: usize)
    requires
        texts(ids@).contains(name@),
    ensures
        r < ids.len(),
        ids@[r as int]@ == name@,
{
    let mut i: usize = 0;
    while i < ids.len()
        invariant
            texts(ids@).contains(name@),
            i <= ids.len(),
            forall|j: int| 0 <= j < i ==> ids@[j]@ != name@,
        decreases ids.len() - i,
    {
        if ids[i] == *name {
            return i;
        }
        i = i + 1;
    }
    proof {
        let j = choose|j: int| 0 <= j < ids.len() && texts(ids@)[j] == name@;
        assert(ids@[j]@ == name@);
    }
    0
}

/// Labels the connected components in turn by breadth-first search: each
/// label's nodes are reached from the node where its search started, and
/// linked nodes carry the same label.
#[verifier::rlimit(100)]
#[verifier::spinoff_prover]
fn label_components(graph: &Graph, ids: &Vec<String>) -> (r: (Vec<usize>, usize, Ghost<Seq<usize>>))
    requires
        graph.wf(),
        texts(ids@).no_duplicates(),
        forall|m: int| 0 <= m < ids.len() ==> graph@.nodes.contains_key(#[trigger] ids@[m]@),
        forall|id: Seq<char>| #[trigger] graph@.nodes.contains_key(id) ==> texts(ids@).contains(id),
    ensures
        r.0.len() == ids.len(),
        ids.len() > 0 ==> r.1 > 0,
        forall|x: int| 0 <= x < ids.len() ==> #[trigger] r.0@[x] < r.1,
        r.2@.len() == r.1,
        forall|j: int| 0 <= j < r.1 ==> #[trigger] r.2@[j] < ids.len(),
        forall|x: int| 0 <= x < ids.len() ==> reachable(both_ways(graph@), texts(ids@)[r.2@[#[trigger] r.0@[x] as int] as int], texts(ids@)[x]),
        forall|x: int, z: int|
            0 <= x < ids.len() && 0 <= z < ids.len() && #[trigger] both_ways(graph@).contains((ids@[x]@, ids@[z]@))
                ==> r.0@[z] == r.0@[x],
{
    let ghost g = graph@;
    let ghost tv = texts(ids@);
    let n = ids.len();
    let mut visited: Vec<bool> = Vec::new();
    let mut done: Vec<bool> = Vec::new();
    let mut comp: Vec<usize> = Vec::new();
    let mut k: usize = 0;
    while k < n
        invariant
            k <= n,
            visited.len() == k,
            done.len() == k,
            comp.len() == k,
            forall|x: int| 0 <= x < k ==> !visited@[x] && !done@[x] && comp@[x] == 0,
        decreases n - k,
    {
        visited.push(false);
        done.push(false);
        comp.push(0);
        k = k + 1;
    }
    let mut c: usize = 0;
    let ghost mut starts: Seq<usize> = Seq::empty();
    let mut s: usize = 0;
    while s < n
        invariant
            n == ids.len(),
            tv == texts(ids@),
            tv.no_duplicates(),
            forall|m: int| 0 <= m < n ==> g.nodes.contains_key(#[trigger] ids@[m]@),
            forall|id: Seq<char>| #[trigger] g.nodes.contains_key(id) ==> tv.contains(id),
            graph@ == g,
            graph.wf(),
            g.links_consistent(),
            s <= n,
            c <= s,
            visited.len() == n,
            done.len() == n,
            comp.len() == n,
            forall|x: int| 0 <= x < n ==> visited@[x] == done@[x],
            forall|x: int| 0 <= x < s ==> visited@[x],
            forall|x: int| 0 <= x < n && visited@[x] ==> #[trigger] comp@[x] < c,
            forall|x: int, z: int|
                0 <= x < n && 0 <= z < n && done@[x] && #[trigger] both_ways(g).contains((ids@[x]@, ids@[z]@))
                    ==> done@[z] && comp@[z] == comp@[x],
            starts.len() == c,
            s > 0 ==> c > 0,
            forall|j: int| 0 <= j < c ==> #[trigger] starts[j] < n,
            forall|y: int| #![trigger visited@[y]] 0 <= y < n && visited@[y] ==> comp@[y] < starts.len() && reachable(both_ways(g), tv[starts[comp@[y] as int] as int], tv[y]),
        decreases n - s,
    {
        if !visited[s] {
            let ghost vis0 = visited@;
            let ghost comp0 = comp@;
            let mut queue: Vec<usize> = Vec::new();
            queue.push(s);
            visited.set(s, true);
            comp.set(s, c);
            proof {
                starts = starts.push(s);
                lemma_reach_refl(both_ways(g), tv[s as int]);
            }
            assert(queue@[0] == s);
            assert forall|y: int| 0 <= y < n && visited@[y] && #[trigger] comp@[y] == c implies queue@.contains(y as usize) by {
                if y != s {
                    assert(comp@[y] < c);
                }
            }
            let mut head: usize = 0;
            while head < queue.len()
                invariant
                    n == ids.len(),
                    tv == texts(ids@),
                    tv.no_duplicates(),
                    forall|m: int| 0 <= m < n ==> g.nodes.contains_key(#[trigger] ids@[m]@),
                    forall|id: Seq<char>| #[trigger] g.nodes.contains_key(id) ==> tv.contains(id),
                    graph@ == g,
                    graph.wf(),
                    g.links_consistent(),
                    s < n,
                    c <= s,
                    visited.len() == n,
                    done.len() == n,
                    comp.len() == n,
                    visited@[s as int],
                    comp@[s as int] == c,
                    forall|y: int| 0 <= y < s ==> visited@[y],
                    forall|y: int| 0 <= y < n && vis0[y] ==> visited@[y] && comp@[y] == comp0[y],
                    starts.len() == c + 1,
                    starts[c as int] == s,
                    forall|j: int| 0 <= j <= c ==> #[trigger] starts[j] < n,
                    forall|y: int| #![trigger visited@[y]] 0 <= y < n && visited@[y] ==> comp@[y] < starts.len() && reachable(both_ways(g), tv[starts[comp@[y] as int] as int], tv[y]),
                    head <= queue.len(),
                    queue.len() <= n,
                    queue@.no_duplicates(),
                    forall|q: int| 0 <= q < queue.len() ==> #[trigger] queue@[q] < n && visited@[queue@[q] as int] && comp@[queue@[q] as int] == c,
                    forall|q: int| 0 <= q < queue.len() ==> done@[#[trigger] queue@[q] as int] == (q < head),
                    forall|x: int| 0 <= x < n && visited@[x] && #[trigger] comp@[x] == c ==> queue@.contains(x as usize),
                    forall|x: int| 0 <= x < n && visited@[x] && comp@[x] < c ==> done@[x],
                    forall|x: int| 0 <= x < n && done@[x] ==> visited@[x],
                    forall|x: int| 0 <= x < n && visited@[x] ==> #[trigger] comp@[x] <= c,
                    forall|x: int, z: int|
                        0 <= x < n && 0 <= z < n && done@[x] && #[trigger] both_ways(g).contains((ids@[x]@, ids@[z]@))
                            ==> visited@[z] && comp@[z] == comp@[x],
                    forall|x: int, z: int|
                        0 <= x < n && 0 <= z < n && done@[x] && comp@[x] < c && #[trigger] both_ways(g).contains((ids@[x]@, ids@[z]@))
                            ==> done@[z],
                decreases n - head,
            {
                let x = queue[head];
                assert(g.nodes.contains_key(ids@[x as int]@));
                let ns = copy_strings(&graph.get_node(&ids[x]).neighbours);
                let mut q: usize = 0;
                while q < ns.len()
                    invariant
                        n == ids.len(),
                        tv == texts(ids@),
                        tv.no_duplicates(),
                        forall|m: int| 0 <= m < n ==> g.nodes.contains_key(#[trigger] ids@[m]@),
                        forall|id: Seq<char>| #[trigger] g.nodes.contains_key(id) ==> tv.contains(id),
                        g.links_consistent(),
                        graph.wf(),
                        graph@ == g,
                        texts(ns@) == g.nodes[ids@[x as int]@].neighbours,
                        x < n,
                        c <= s,
                        s < n,
                        visited.len() == n,
                        done.len() == n,
                        comp.len() == n,
                        visited@[s as int],
                        comp@[s as int] == c,
                        forall|y: int| 0 <= y < s ==> visited@[y],
                        forall|y: int| 0 <= y < n && vis0[y] ==> visited@[y] && comp@[y] == comp0[y],
                        starts.len() == c + 1,
                        starts[c as int] == s,
                        forall|j: int| 0 <= j <= c ==> #[trigger] starts[j] < n,
                        forall|y: int| #![trigger visited@[y]] 0 <= y < n && visited@[y] ==> comp@[y] < starts.len() && reachable(both_ways(g), tv[starts[comp@[y] as int] as int], tv[y]),
                        head < queue.len(),
                        queue@[head as int] == x,
                        queue.len() <= n,
                        queue@.no_duplicates(),
                        !done@[x as int],
                        visited@[x as int],
                        comp@[x as int] == c,
                        q <= ns.len(),
                        forall|w: int| 0 <= w < q && both_ways(g).contains((ids@[x as int]@, ns@[w]@)) ==> visited@[#[trigger] index_spec(ids@, ns@[w]@)] && comp@[index_spec(ids@, ns@[w]@)] == c,
                        forall|qq: int| 0 <= qq < queue.len() ==> #[trigger] queue@[qq] < n && visited@[queue@[qq] as int] && comp@[queue@[qq] as int] == c,
                        forall|qq: int| 0 <= qq < queue.len() ==> done@[#[trigger] queue@[qq] as int] == (qq < head),
                        forall|y: int| 0 <= y < n && visited@[y] && #[trigger] comp@[y] == c ==> queue@.contains(y as usize),
                        forall|y: int| 0 <= y < n && visited@[y] && comp@[y] < c ==> done@[y],
                        forall|y: int| 0 <= y < n && done@[y] ==> visited@[y],
                        forall|y: int| 0 <= y < n && visited@[y] ==> #[trigger] comp@[y] <= c,
                        forall|y: int, z: int|
                            0 <= y < n && 0 <= z < n && done@[y] && #[trigger] both_ways(g).contains((ids@[y]@, ids@[z]@))
                                ==> visited@[z] && comp@[z] == comp@[y],
                        forall|y: int, z: int|
                            0 <= y < n && 0 <= z < n && done@[y] && comp@[y] < c && #[trigger] both_ways(g).contains((ids@[y]@, ids@[z]@))
                                ==> done@[z],
                    decreases ns.len() - q,
                {
                    if graph.contains_link(&ids[x], &ns[q]) && graph.contains_link(&ns[q], &ids[x]) {
                    assert(both_ways(g).contains((ids@[x as int]@, ns@[q as int]@)));
                    assert(g.links.contains_key((ns@[q as int]@, ids@[x as int]@)));
                    assert(g.nodes.contains_key(ns@[q as int]@));
                    let z = index_of(&ids, &ns[q]);
                    proof {
                        lemma_index_spec(ids@, z as int);
                    }
                    let ghost visq = visited@;
                    let ghost compq = comp@;
                    if !visited[z] {
                        proof {
                            assert(both_ways(g).contains((ids@[x as int]@, ns@[q as int]@)));
                            assert(tv[x as int] == ids@[x as int]@);
                            assert(tv[z as int] == ids@[z as int]@);
                            lemma_reach_step(both_ways(g), tv[s as int], tv[x as int], tv[z as int]);
                        }
                        let ghost visz = visited@;
                        let ghost compz = comp@;
                        visited.set(z, true);
                        comp.set(z, c);
                        assert forall|y: int| #![trigger visited@[y]] 0 <= y < n && visited@[y] implies comp@[y] < starts.len() && reachable(both_ways(g), tv[starts[comp@[y] as int] as int], tv[y]) by {
                            if y != z {
                                assert(visz[y]);
                            }
                        }
                        let ghost q0 = queue@;
                        queue.push(z);
                        assert forall|y: int| 0 <= y < n && visited@[y] && #[trigger] comp@[y] == c implies queue@.contains(y as usize) by {
                            if y != z {
                                assert(q0.contains(y as usize));
                                let i = choose|i: int| 0 <= i < q0.len() && q0[i] == y as usize;
                                assert(queue@[i] == y as usize);
                            } else {
                                assert(queue@[q0.len() as int] == z);
                            }
                        }
                        assert(queue.len() <= n) by {
                            assert(!q0.contains(z)) by {
                                if q0.contains(z) {
                                    let i = choose|i: int| 0 <= i < q0.len() && q0[i] == z;
                                }
                            }
                            lemma_bounded_distinct(queue@, n as int);
                        }
                    } else {
                        if comp[z] < c {
                            assert(done@[z as int]);
                            assert(both_ways(g).contains((ids@[x as int]@, ns@[q as int]@)));
                            assert(both_ways(g).contains((ids@[z as int]@, ids@[x as int]@)));
                            assert(false);
                        }
                    }
                    assert(index_spec(ids@, ns@[q as int]@) == z);
                    assert forall|w: int| 0 <= w < q + 1 && both_ways(g).contains((ids@[x as int]@, ns@[w]@)) implies visited@[#[trigger] index_spec(ids@, ns@[w]@)] && comp@[index_spec(ids@, ns@[w]@)] == c by {
                        if w < q {
                            assert(g.links.contains_key((ns@[w]@, ids@[x as int]@)));
                            assert(g.nodes.contains_key(ns@[w]@));
                            assert(tv.contains(ns@[w]@));
                            let j = choose|j: int| 0 <= j < tv.len() && tv[j] == ns@[w]@;
                            assert(ids@[j]@ == ns@[w]@);
                            let iw = index_spec(ids@, ns@[w]@);
                            assert(0 <= iw < n);
                            assert(visq[index_spec(ids@, ns@[w]@)]);
                            assert(compq[index_spec(ids@, ns@[w]@)] == c);
                        } else {
                            assert(w == q);
                            assert(index_spec(ids@, ns@[w]@) == z);
                            assert(visited@[z as int]);
                            assert(comp@[z as int] <= c);
                            assert(comp@[z as int] == c);
                        }
                    }
                    }
                    q = q + 1;
                }
                done.set(x, true);
                assert forall|z: int| 0 <= z < n && #[trigger] both_ways(g).contains((ids@[x as int]@, ids@[z]@)) implies visited@[z] && comp@[z] == comp@[x as int] by {
                    let w = g.links[(ids@[x as int]@, ids@[z]@)] as int;
                    assert(g.nodes[ids@[x as int]@].neighbours[w] == ids@[z]@);
                    assert(texts(ns@)[w] == ns@[w]@);
                    assert(ns@[w]@ == ids@[z]@);
                    lemma_index_spec(ids@, z);
                    assert(index_spec(ids@, ns@[w]@) == z);
                }
                head = head + 1;
            }
            assert forall|x: int, z: int|
                0 <= x < n && 0 <= z < n && done@[x] && #[trigger] both_ways(g).contains((ids@[x]@, ids@[z]@))
                    implies done@[z] && comp@[z] == comp@[x] by {
                if comp@[x] == c {
                    assert(queue@.contains(z as usize));
                }
            }
            c = c + 1;
        } else {
            assert(comp@[s as int] < c);
        }
        s = s + 1;
    }
    proof {
        assert forall|x: int| 0 <= x < n implies reachable(both_ways(g), tv[starts[#[trigger] comp@[x] as int] as int], tv[x]) by {
            assert(visited@[x]);
        }
    }
    (comp, c, Ghost(starts))
}

/// Keeps the largest connected component, following only links present in
/// both directions: a breadth-first search labels the components in turn,
/// the first of greatest size is kept, and a new graph is built of its
/// nodes, each with the neighbours of its list that are kept, linked anew
/// in list order.
#[verifier::rlimit(100)]
#[verifier::spinoff_prover]
pub fn bfs_largest_component(graph: Graph) -> (r: Graph)
    requires
        graph.wf(),
    ensures
        r.wf(),
        forall|u: Seq<char>| #[trigger] r@.nodes.contains_key(u) ==> graph@.nodes.contains_key(u)
            && r@.nodes[u] == graph@.nodes[u].with_neighbours(kept_only(graph@.nodes[u].neighbours, r@.nodes.dom())),
        forall|k: (Seq<char>, Seq<char>)| #[trigger] r@.links.contains_key(k) <==> (r@.nodes.contains_key(k.0)
            && r@.nodes[k.0].neighbours.contains(k.1)),
        graph@.nodes.dom().len() > 0 ==> exists|s0: Seq<char>|
            #[trigger] r@.nodes.contains_key(s0) && r@.nodes.dom() == traversable_component(graph@, s0),
        forall|y: Seq<char>| #[trigger] graph@.nodes.contains_key(y) ==> traversable_component(graph@, y).finite()
            && traversable_component(graph@, y).len() <= r@.nodes.dom().len(),
        graph@.is_simple() ==> r@.is_simple()
            && (forall|u: Seq<char>| #[trigger] r@.nodes.contains_key(u) ==> r@.nodes[u] == graph@.nodes[u])
            && r@.edges() == graph@.edges().filter(|k: (Seq<char>, Seq<char>)| r@.nodes.contains_key(k.0)),
{
    let ghost g = graph@;
    proof {
        graph.lemma_nodes_finite();
    }
    let ids = graph.node_ids();
    let ghost tv = texts(ids@);
    let n = ids.len();
    let (comp, c, starts) = label_components(&graph, &ids);
    let ghost starts = starts@;
    let mut sizes: Vec<usize> = Vec::new();
    let mut j: usize = 0;
    while j < c
        invariant
            j <= c,
            sizes.len() == j,
            forall|l: int| 0 <= l < j ==> #[trigger] sizes@[l] == 0,
        decreases c - j,
    {
        sizes.push(0);
        j = j + 1;
    }
    let mut y: usize = 0;
    while y < n
        invariant
            n == ids.len(),
            comp.len() == n,
            y <= n,
            sizes.len() == c,
            n > 0 ==> c > 0,
            forall|x: int| 0 <= x < n ==> #[trigger] comp@[x] < c,
            forall|l: int| 0 <= l < c ==> #[trigger] sizes@[l] == count_label(comp@, l as usize, y as int),
        decreases n - y,
    {
        let l = comp[y];
        proof {
            lemma_count_label_bound(comp@, l, y as int);
        }
        let old = sizes[l];
        sizes.set(l, old + 1);
        y = y + 1;
    }
    let mut best: usize = 0;
    let mut best_size: usize = 0;
    let mut l: usize = 0;
    while l < c
        invariant
            l <= c,
            n > 0 ==> c > 0,
            sizes.len() == c,
            l > 0 ==> best < l && best_size == sizes@[best as int],
            l == 0 ==> best_size == 0,
            forall|m: int| 0 <= m < l ==> #[trigger] sizes@[m] <= best_size,
        decreases c - l,
    {
        if l == 0 || sizes[l] > best_size {
            best = l;
            best_size = sizes[l];
        }
        l = l + 1;
    }
    let r = rebuild_kept(&graph, &ids, &comp, best);
    let ghost keep = label_set(tv, comp@, best, n as int);
    proof {
        assert forall|w: Seq<char>| #[trigger] r@.nodes.contains_key(w) implies g.nodes.contains_key(w)
            && r@.nodes[w] == g.nodes[w].with_neighbours(kept_only(g.nodes[w].neighbours, r@.nodes.dom())) by {
            let y = choose|y: int| 0 <= y < n && comp@[y] == best && tv[y] == w;
            assert(ids@[y]@ == w);
            assert(done_before(tv, n as int, w));
        }
        assert forall|x: int, z: int| 0 <= x < n && 0 <= z < n && #[trigger] both_ways(g).contains((tv[x], tv[z])) implies comp@[z] == comp@[x] by {
            assert(tv[x] == ids@[x]@ && tv[z] == ids@[z]@);
            assert(both_ways(g).contains((ids@[x]@, ids@[z]@)));
        }
        assert forall|m: int| 0 <= m < n implies g.nodes.contains_key(#[trigger] tv[m]) by {
            assert(tv[m] == ids@[m]@);
        }
        lemma_largest_size(g, r@, tv, comp@, starts, sizes@, best, best_size, n as int, c as int);
        lemma_largest_connected(g, r@, tv, comp@, starts, sizes@, best, best_size, n as int, c as int);
        if g.is_simple() {
            lemma_bfs_simple(g, r@, tv, comp@, best, n as int);
        }
    }
    r
}

/// A new graph of the nodes labelled `best`, each with the entries of its
/// neighbour list that are such nodes, linked in list order.
#[verifier::spinoff_prover]
#[verifier::rlimit(100)]
fn rebuild_kept(graph: &Graph, ids: &Vec<String>, comp: &Vec<usize>, best: usize) -> (r: Graph)
    requires
        graph.wf(),
        texts(ids@).no_duplicates(),
        comp.len() == ids.len(),
        forall|m: int| 0 <= m < ids.len() ==> graph@.nodes.contains_key(#[trigger] ids@[m]@),
    ensures
        r.wf(),
        r@.nodes.dom() == label_set(texts(ids@), comp@, best, ids.len() as int),
        forall|w: Seq<char>| #[trigger] r@.nodes.contains_key(w) ==> done_before(texts(ids@), ids.len() as int, w)
            && r@.nodes[w] == graph@.nodes[w].with_neighbours(kept_only(graph@.nodes[w].neighbours, r@.nodes.dom())),
        forall|k: (Seq<char>, Seq<char>)| #[trigger] r@.links.contains_key(k) <==> (r@.nodes.contains_key(k.0)
            && r@.nodes[k.0].neighbours.contains(k.1)),
        forall|a: Seq<char>, j: int| #![trigger r@.nodes[a].neighbours[j]]
            r@.nodes.contains_key(a) && 0 <= j < r@.nodes[a].neighbours.len() && last_slot(r@.nodes[a].neighbours, j)
                ==> r@.links[(a, r@.nodes[a].neighbours[j])] == j,
{
    let ghost g = graph@;
    let ghost tv = texts(ids@);
    let n = ids.len();
    let ghost keep = label_set(tv, comp@, best, n as int);
    let mut r = Graph::new();
    let mut x: usize = 0;
    while x < n
        invariant
            n == ids.len(),
            tv == texts(ids@),
            tv.no_duplicates(),
            comp.len() == n,
            graph.wf(),
            graph@ == g,
            forall|m: int| 0 <= m < n ==> g.nodes.contains_key(#[trigger] ids@[m]@),
            x <= n,
            r.wf(),
            r@.links == Map::<(Seq<char>, Seq<char>), nat>::empty(),
            r@.nodes.dom() == label_set(tv, comp@, best, x as int),
            forall|u: Seq<char>| #[trigger] r@.nodes.contains_key(u) ==> r@.nodes[u] == g.nodes[u].with_neighbours(Seq::empty()),
        decreases n - x,
    {
        if comp[x] == best {
            let node = graph.get_node(&ids[x]);
            let fresh = Node {
                id: node.id.clone(),
                longitude: node.longitude.clone(),
                latitude: node.latitude.clone(),
                neighbours: Vec::new(),
            };
            let ghost before = r@;
            assert(fresh@.neighbours =~= Seq::<Seq<char>>::empty());
            assert(tv[x as int] == ids@[x as int]@);
            assert(!before.nodes.contains_key(ids@[x as int]@)) by {
                if before.nodes.contains_key(ids@[x as int]@) {
                    let y = choose|y: int| 0 <= y < x && comp@[y] == best && tv[y] == tv[x as int];
                }
            }
            r.insert_node(fresh);
            assert(r@.nodes.dom() =~= label_set(tv, comp@, best, x + 1));
        } else {
            assert(r@.nodes.dom() =~= label_set(tv, comp@, best, x + 1));
        }
        x = x + 1;
    }
    let mut x: usize = 0;
    while x < n
        invariant
            n == ids.len(),
            tv == texts(ids@),
            tv.no_duplicates(),
            comp.len() == n,
            graph.wf(),
            graph@ == g,
            forall|m: int| 0 <= m < n ==> g.nodes.contains_key(#[trigger] ids@[m]@),
            x <= n,
            r.wf(),
            r@.nodes.dom() == keep,
            keep == label_set(tv, comp@, best, n as int),
            forall|u: Seq<char>| #[trigger] r@.nodes.contains_key(u) ==> r@.nodes[u] == g.nodes[u].with_neighbours(
                if done_before(tv, x as int, u) { kept_only(g.nodes[u].neighbours, keep) } else { Seq::empty() }),
            forall|k: (Seq<char>, Seq<char>)| #[trigger] r@.links.contains_key(k) <==> (r@.nodes.contains_key(k.0)
                && r@.nodes[k.0].neighbours.contains(k.1)),
            forall|a: Seq<char>, j: int| #![trigger r@.nodes[a].neighbours[j]]
                r@.nodes.contains_key(a) && 0 <= j < r@.nodes[a].neighbours.len() && last_slot(r@.nodes[a].neighbours, j)
                    ==> r@.links[(a, r@.nodes[a].neighbours[j])] == j,
        decreases n - x,
    {
        if comp[x] == best {
            let ghost u = tv[x as int];
            assert(tv[x as int] == ids@[x as int]@);
            assert(keep.contains(u));
            assert(!done_before(tv, x as int, u)) by {
                if done_before(tv, x as int, u) {
                    let y = choose|y: int| 0 <= y < x && tv[y] == u;
                }
            }
            let ns = copy_strings(&graph.get_node(&ids[x]).neighbours);
            let ghost full = g.nodes[u].neighbours;
            assert(full.take(0) =~= Seq::<Seq<char>>::empty());
            assert(kept_only(full.take(0), keep) == Seq::<Seq<char>>::empty());
            let mut q: usize = 0;
            while q < ns.len()
                invariant
                    n == ids.len(),
                    tv == texts(ids@),
                    tv.no_duplicates(),
                    x < n,
                    u == tv[x as int],
                    u == ids@[x as int]@,
                    keep.contains(u),
                    texts(ns@) == full,
                    full == g.nodes[u].neighbours,
                    q <= ns.len(),
                    r.wf(),
                    r@.nodes.dom() == keep,
                    forall|w: Seq<char>| #[trigger] r@.nodes.contains_key(w) ==> r@.nodes[w] == g.nodes[w].with_neighbours(
                        if w == u { kept_only(full.take(q as int), keep) }
                        else if done_before(tv, x as int, w) { kept_only(g.nodes[w].neighbours, keep) } else { Seq::empty() }),
                    forall|k: (Seq<char>, Seq<char>)| #[trigger] r@.links.contains_key(k) <==> (r@.nodes.contains_key(k.0)
                        && r@.nodes[k.0].neighbours.contains(k.1)),
                    forall|a: Seq<char>, j: int| #![trigger r@.nodes[a].neighbours[j]]
                        r@.nodes.contains_key(a) && 0 <= j < r@.nodes[a].neighbours.len() && last_slot(r@.nodes[a].neighbours, j)
                            ==> r@.links[(a, r@.nodes[a].neighbours[j])] == j,
                decreases ns.len() - q,
            {
                let ghost before = r@;
                let ghost t = full[q as int];
                assert(ns@[q as int]@ == t);
                assert(full.take(q + 1) =~= full.take(q as int).push(t));
                proof {
                    lemma_kept_only_push(full.take(q as int), t, keep);
                }
                if r.contains_node(&ns[q]) {
                    r.insert_link((ids[x].clone(), ns[q].clone()));
                    proof {
                        let old_list = before.nodes[u].neighbours;
                        let new_list = old_list.push(t);
                        assert(r@.nodes[u].neighbours == new_list);
                        assert forall|k: (Seq<char>, Seq<char>)| #[trigger] r@.links.contains_key(k) <==> (r@.nodes.contains_key(k.0)
                            && r@.nodes[k.0].neighbours.contains(k.1)) by {
                            if k.0 == u {
                                lemma_push_contains(old_list, t, k.1);
                            }
                        }
                        assert forall|a: Seq<char>, j: int| #![trigger r@.nodes[a].neighbours[j]]
                            r@.nodes.contains_key(a) && 0 <= j < r@.nodes[a].neighbours.len() && last_slot(r@.nodes[a].neighbours, j)
                                implies r@.links[(a, r@.nodes[a].neighbours[j])] == j by {
                            if a == u {
                                if j < old_list.len() {
                                    assert(new_list[j] == old_list[j]);
                                    assert(new_list[j] != t) by {
                                        if new_list[j] == t {
                                            assert(new_list[old_list.len() as int] == t);
                                        }
                                    }
                                    assert forall|j2: int| j < j2 < old_list.len() implies old_list[j2] != old_list[j] by {
                                        assert(new_list[j2] == old_list[j2]);
                                    }
                                    assert(last_slot(before.nodes[a].neighbours, j));
                                }
                            } else {
                                assert(before.nodes[a] == r@.nodes[a]);
                            }
                        }
                    }
                }
                q = q + 1;
            }
            assert(full.take(ns.len() as int) =~= full);
            assert forall|w: Seq<char>| #[trigger] r@.nodes.contains_key(w) implies r@.nodes[w] == g.nodes[w].with_neighbours(
                if done_before(tv, x + 1, w) { kept_only(g.nodes[w].neighbours, keep) } else { Seq::empty() }) by {
                lemma_done_before_step(tv, x as int, w);
            }
        } else {
            assert forall|w: Seq<char>| #[trigger] r@.nodes.contains_key(w) implies r@.nodes[w] == g.nodes[w].with_neighbours(
                if done_before(tv, x + 1, w) { kept_only(g.nodes[w].neighbours, keep) } else { Seq::empty() }) by {
                lemma_done_before_step(tv, x as int, w);
                if w == tv[x as int] {
                    assert(keep.contains(w));
                    let y = choose|y: int| 0 <= y < n && comp@[y] == best && tv[y] == w;
                    assert(tv[x as int] == ids@[x as int]@);
                }
            }
        }
        x = x + 1;
    }
    proof {
        assert forall|w: Seq<char>| #[trigger] r@.nodes.contains_key(w) implies done_before(tv, n as int, w) by {
            let y = choose|y: int| 0 <= y < n && comp@[y] == best && tv[y] == w;
        }
    }
    r
}

/// Some id before position `x` of `tv` is `u`.
spec fn done_before(tv: Seq<Seq<char>>, x: int, u: Seq<char>) -> bool {
    exists|y: int| 0 <= y < x && tv[y] == u
}

proof fn lemma_done_before_step(tv: Seq<Seq<char>>, x: int, u: Seq<char>)
    requires
        0 <= x < tv.len(),
    ensures
        done_before(tv, x + 1, u) <==> (done_before(tv, x, u) || tv[x] == u),
{
    if done_before(tv, x + 1, u) {
        let y = choose|y: int| 0 <= y < x + 1 && tv[y] == u;
        if y < x {
            assert(done_before(tv, x, u));
        }
    }
    if done_before(tv, x, u) {
        let y = choose|y: int| 0 <= y < x && tv[y] == u;
        assert(0 <= y < x + 1 && tv[y] == u);
    }
    if tv[x] == u {
        assert(0 <= x < x + 1 && tv[x] == u);
    }
}

/// Slot `j` holds the last occurrence of its entry.
pub open spec fn last_slot(ns: Seq<Seq<char>>, j: int) -> bool {
    forall|j2: int| j < j2 < ns.len() ==> ns[j2] != ns[j]
}

/// The entries of `ns` that `keep` holds, in order.
pub open spec fn kept_only(ns: Seq<Seq<char>>, keep: Set<Seq<char>>) -> Seq<Seq<char>>
    decreases ns.len(),
{
    if ns.len() == 0 {
        ns
    } else {
        let p = kept_only(ns.drop_last(), keep);
        if keep.contains(ns.last()) { p.push(ns.last()) } else { p }
    }
}

proof fn lemma_kept_only_push(ns: Seq<Seq<char>>, t: Seq<char>, keep: Set<Seq<char>>)
    ensures
        kept_only(ns.push(t), keep) == if keep.contains(t) { kept_only(ns, keep).push(t) } else { kept_only(ns, keep) },
{
    assert(ns.push(t).drop_last() =~= ns);
}

proof fn lemma_kept_only_all(ns: Seq<Seq<char>>, keep: Set<Seq<char>>)
    requires
        forall|j: int| 0 <= j < ns.len() ==> keep.contains(#[trigger] ns[j]),
    ensures
        kept_only(ns, keep) == ns,
    decreases ns.len(),
{
    if ns.len() > 0 {
        lemma_kept_only_all(ns.drop_last(), keep);
        assert(ns.drop_last().push(ns.last()) =~= ns);
    }
}

/// On a simple graph the kept nodes keep their whole neighbour lists, and
/// the graph built is simple.
proof fn lemma_bfs_simple(g: GraphView, r: GraphView, tv: Seq<Seq<char>>, comp: Seq<usize>, best: usize, n: int)
    requires
        g.is_simple(),
        tv.len() == n,
        comp.len() == n,
        forall|m: int| 0 <= m < n ==> g.nodes.contains_key(#[trigger] tv[m]),
        forall|id: Seq<char>| #[trigger] g.nodes.contains_key(id) ==> tv.contains(id),
        forall|x: int, z: int| 0 <= x < n && 0 <= z < n && #[trigger] both_ways(g).contains((tv[x], tv[z])) ==> comp[z] == comp[x],
        r.nodes.dom() == label_set(tv, comp, best, n),
        r.links_consistent(),
        r.ids_match(),
        forall|u: Seq<char>| #[trigger] r.nodes.contains_key(u) ==> g.nodes.contains_key(u)
            && r.nodes[u] == g.nodes[u].with_neighbours(kept_only(g.nodes[u].neighbours, r.nodes.dom())),
        forall|k: (Seq<char>, Seq<char>)| #[trigger] r.links.contains_key(k) <==> (r.nodes.contains_key(k.0)
            && r.nodes[k.0].neighbours.contains(k.1)),
        forall|a: Seq<char>, j: int| #![trigger r.nodes[a].neighbours[j]]
            r.nodes.contains_key(a) && 0 <= j < r.nodes[a].neighbours.len() && last_slot(r.nodes[a].neighbours, j)
                ==> r.links[(a, r.nodes[a].neighbours[j])] == j,
    ensures
        r.is_simple(),
        forall|u: Seq<char>| #[trigger] r.nodes.contains_key(u) ==> r.nodes[u] == g.nodes[u],
        r.edges() == g.edges().filter(|k: (Seq<char>, Seq<char>)| r.nodes.contains_key(k.0)),
{
    let keep = r.nodes.dom();
    assert forall|u: Seq<char>| #[trigger] r.nodes.contains_key(u) implies r.nodes[u] == g.nodes[u] by {
        let ns = g.nodes[u].neighbours;
        assert forall|j: int| 0 <= j < ns.len() implies keep.contains(#[trigger] ns[j]) by {
            let b = ns[j];
            assert(g.links.contains_key((u, b)));
            assert(g.links.contains_key((b, u)));
            assert(g.nodes.contains_key(b));
            let x = choose|x: int| 0 <= x < n && comp[x] == best && tv[x] == u;
            assert(tv.contains(b));
            let z = choose|z: int| 0 <= z < n && tv[z] == b;
            assert(both_ways(g).contains((tv[x], tv[z])));
        }
        lemma_kept_only_all(ns, keep);
        assert(g.nodes[u].with_neighbours(ns) == g.nodes[u]);
    }
    assert forall|k: (Seq<char>, Seq<char>)| #[trigger] r.links.contains_key(k) <==> (g.links.contains_key(k) && r.nodes.contains_key(k.0)) by {
        if g.links.contains_key(k) && r.nodes.contains_key(k.0) {
            assert(g.nodes[k.0].neighbours[g.links[k] as int] == k.1);
        }
        if r.links.contains_key(k) {
            let ns = g.nodes[k.0].neighbours;
            let j = choose|j: int| 0 <= j < ns.len() && ns[j] == k.1;
            assert(g.links.contains_key((k.0, ns[j])));
        }
    }
    assert(r.edges() =~= g.edges().filter(|k: (Seq<char>, Seq<char>)| r.nodes.contains_key(k.0)));
    assert forall|u: Seq<char>, k: int| r.nodes.contains_key(u) && 0 <= k < r.nodes[u].neighbours.len() implies {
        &&& r.links.contains_key((u, #[trigger] r.nodes[u].neighbours[k]))
        &&& r.links[(u, r.nodes[u].neighbours[k])] == k
    } by {
        let ns = r.nodes[u].neighbours;
        assert(g.links.contains_key((u, ns[k])));
        assert forall|j2: int| k < j2 < ns.len() implies ns[j2] != ns[k] by {
            assert(g.links.contains_key((u, ns[j2])));
        }
        assert(ns.contains(ns[k]));
    }
    assert forall|k: (Seq<char>, Seq<char>)| #[trigger] r.links.contains_key(k) implies {
        &&& k.0 != k.1
        &&& r.nodes.contains_key(k.1)
        &&& r.links.contains_key((k.1, k.0))
    } by {
        assert(g.links.contains_key(k));
        assert(g.links.contains_key((k.1, k.0)));
        let x = choose|x: int| 0 <= x < n && comp[x] == best && tv[x] == k.0;
        assert(tv.contains(k.1));
        let z = choose|z: int| 0 <= z < n && tv[z] == k.1;
        assert(both_ways(g).contains((tv[x], tv[z])));
        assert(r.nodes.contains_key(k.1));
    }
}

/// No component is larger than the set of ids of label `best`, the label
/// of greatest count.
#[verifier::spinoff_prover]
proof fn lemma_largest_size(
    g: GraphView,
    r: GraphView,
    tv: Seq<Seq<char>>,
    comp: Seq<usize>,
    starts: Seq<usize>,
    sizes: Seq<usize>,
    best: usize,
    best_size: usize,
    n: int,
    c: int,
)
    requires
        g.links_consistent(),
        tv.no_duplicates(),
        tv.len() == n,
        comp.len() == n,
        forall|m: int| 0 <= m < n ==> g.nodes.contains_key(#[trigger] tv[m]),
        forall|id: Seq<char>| #[trigger] g.nodes.contains_key(id) ==> tv.contains(id),
        forall|x: int, z: int| 0 <= x < n && 0 <= z < n && #[trigger] both_ways(g).contains((tv[x], tv[z])) ==> comp[z] == comp[x],
        forall|x: int| 0 <= x < n ==> #[trigger] comp[x] < starts.len() && reachable(both_ways(g), tv[starts[comp[x] as int] as int], tv[x]),
        forall|j: int| 0 <= j < starts.len() ==> #[trigger] starts[j] < n,
        forall|y: int| 0 <= y < n ==> #[trigger] comp[y] < c,
        sizes.len() == c,
        forall|m: int| 0 <= m < c ==> #[trigger] sizes[m] <= best_size,
        forall|m: int| 0 <= m < c ==> #[trigger] sizes[m] == count_label(comp, m as usize, n),
        n > 0 ==> best < c && best_size == sizes[best as int],
        r.nodes.dom() == label_set(tv, comp, best, n),
    ensures
        forall|y: Seq<char>| #[trigger] g.nodes.contains_key(y) ==> traversable_component(g, y).finite()
            && traversable_component(g, y).len() <= r.nodes.dom().len(),
{
    lemma_label_set_size(tv, comp, best, n);
    assert forall|y: Seq<char>| #[trigger] g.nodes.contains_key(y) implies traversable_component(g, y).finite()
        && traversable_component(g, y).len() <= r.nodes.dom().len() by {
        assert(tv.contains(y));
        let iy = choose|iy: int| 0 <= iy < n && tv[iy] == y;
        lemma_class_component(g, tv, comp, starts, n, iy);
        lemma_label_set_size(tv, comp, comp[iy], n);
        assert(sizes[comp[iy] as int] <= best_size);
    }
}

/// The ids of label `best` form the component of one of them.
#[verifier::spinoff_prover]
#[verifier::rlimit(100)]
proof fn lemma_largest_connected(
    g: GraphView,
    r: GraphView,
    tv: Seq<Seq<char>>,
    comp: Seq<usize>,
    starts: Seq<usize>,
    sizes: Seq<usize>,
    best: usize,
    best_size: usize,
    n: int,
    c: int,
)
    requires
        g.links_consistent(),
        tv.no_duplicates(),
        tv.len() == n,
        comp.len() == n,
        forall|m: int| 0 <= m < n ==> g.nodes.contains_key(#[trigger] tv[m]),
        forall|id: Seq<char>| #[trigger] g.nodes.contains_key(id) ==> tv.contains(id),
        forall|x: int, z: int| 0 <= x < n && 0 <= z < n && #[trigger] both_ways(g).contains((tv[x], tv[z])) ==> comp[z] == comp[x],
        forall|x: int| 0 <= x < n ==> #[trigger] comp[x] < starts.len() && reachable(both_ways(g), tv[starts[comp[x] as int] as int], tv[x]),
        forall|j: int| 0 <= j < starts.len() ==> #[trigger] starts[j] < n,
        forall|y: int| 0 <= y < n ==> #[trigger] comp[y] < c,
        sizes.len() == c,
        forall|m: int| 0 <= m < c ==> #[trigger] sizes[m] <= best_size,
        forall|m: int| 0 <= m < c ==> #[trigger] sizes[m] == count_label(comp, m as usize, n),
        n > 0 ==> best < c && best_size == sizes[best as int],
        r.nodes.dom() == label_set(tv, comp, best, n),
    ensures
        g.nodes.dom().len() > 0 ==> exists|s0: Seq<char>|
            #[trigger] r.nodes.contains_key(s0) && r.nodes.dom() == traversable_component(g, s0),
{
    if g.nodes.dom().len() > 0 {
        if !(exists|a: Seq<char>| g.nodes.dom().contains(a)) {
            assert(g.nodes.dom() =~= Set::<Seq<char>>::empty());
        }
        let u0 = g.nodes.dom().choose();
        assert(tv.contains(u0));
        let y = choose|y: int| 0 <= y < n && tv[y] == u0;
        lemma_count_label_pos(comp, comp[y], n, y);
        assert(comp[y] < c);
        assert(sizes[comp[y] as int] <= best_size);
        assert(best_size == sizes[best as int]);
        lemma_count_label_witness(comp, best, n);
        let xb = choose|xb: int| 0 <= xb < n && comp[xb] == best;
        let sb = starts[best as int] as int;
        lemma_class_component(g, tv, comp, starts, n, xb);
        assert forall|q: (Seq<char>, Seq<char>)| #[trigger] both_ways(g).contains(q) implies both_ways(g).contains((q.1, q.0)) by {}
        lemma_reach_sym(both_ways(g), tv[sb], tv[xb]);
        assert(traversable_component(g, tv[xb]).contains(tv[sb]));
        assert(label_set(tv, comp, best, n).contains(tv[sb]));
        let ib = choose|ib: int| 0 <= ib < n && comp[ib] == best && tv[ib] == tv[sb];
        assert(ib == sb);
        lemma_class_component(g, tv, comp, starts, n, sb);
        assert(r.nodes.contains_key(tv[sb]));
    }
}

/// The ids among the first `y` that carry label `l`.
spec fn label_set(tv: Seq<Seq<char>>, comp: Seq<usize>, l: usize, y: int) -> Set<Seq<char>> {
    Set::new(|u: Seq<char>| exists|x: int| 0 <= x < y && comp[x] == l && tv[x] == u)
}

proof fn lemma_label_set_size(tv: Seq<Seq<char>>, comp: Seq<usize>, l: usize, y: int)
    requires
        tv.no_duplicates(),
        0 <= y <= tv.len(),
    ensures
        label_set(tv, comp, l, y).finite(),
        label_set(tv, comp, l, y).len() == count_label(comp, l, y),
    decreases y,
{
    if y == 0 {
        assert(label_set(tv, comp, l, y) =~= Set::<Seq<char>>::empty());
    } else {
        lemma_label_set_size(tv, comp, l, y - 1);
        if comp[y - 1] == l {
            assert(label_set(tv, comp, l, y) =~= label_set(tv, comp, l, y - 1).insert(tv[y - 1]));
            assert(!label_set(tv, comp, l, y - 1).contains(tv[y - 1]));
        } else {
            assert(label_set(tv, comp, l, y) =~= label_set(tv, comp, l, y - 1));
        }
    }
}

/// When labels agree along links and each node is reached from the start
/// of its label, the component of a node is the set of ids with its label.
proof fn lemma_class_component(g: GraphView, tv: Seq<Seq<char>>, comp: Seq<usize>, starts: Seq<usize>, n: int, y: int)
    requires
        g.links_consistent(),
        tv.no_duplicates(),
        tv.len() == n,
        comp.len() == n,
        forall|m: int| 0 <= m < n ==> g.nodes.contains_key(#[trigger] tv[m]),
        forall|id: Seq<char>| #[trigger] g.nodes.contains_key(id) ==> tv.contains(id),
        forall|x: int, z: int| 0 <= x < n && 0 <= z < n && #[trigger] both_ways(g).contains((tv[x], tv[z])) ==> comp[z] == comp[x],
        forall|x: int| 0 <= x < n ==> #[trigger] comp[x] < starts.len() && reachable(both_ways(g), tv[starts[comp[x] as int] as int], tv[x]),
        forall|j: int| 0 <= j < starts.len() ==> #[trigger] starts[j] < n,
        0 <= y < n,
    ensures
        traversable_component(g, tv[y]) == label_set(tv, comp, comp[y], n),
{
    let e = both_ways(g);
    let l = comp[y];
    let k = label_set(tv, comp, l, n);
    assert forall|q: (Seq<char>, Seq<char>)| #[trigger] e.contains(q) implies e.contains((q.1, q.0)) by {}
    assert forall|q: (Seq<char>, Seq<char>)| #[trigger] e.contains(q) && k.contains(q.0) implies k.contains(q.1) by {
        let x = choose|x: int| 0 <= x < n && comp[x] == l && tv[x] == q.0;
        assert(g.links.contains_key((q.1, q.0)));
        assert(g.nodes.contains_key(q.1));
        assert(tv.contains(q.1));
        let z = choose|z: int| 0 <= z < tv.len() && tv[z] == q.1;
        assert(both_ways(g).contains((tv[x], tv[z])));
    }
    assert(k.contains(tv[y]));
    assert forall|u: Seq<char>| traversable_component(g, tv[y]).contains(u) <==> k.contains(u) by {
        if traversable_component(g, tv[y]).contains(u) {
            lemma_closed_reach(e, k, tv[y], u);
        }
        if k.contains(u) {
            let x = choose|x: int| 0 <= x < n && comp[x] == l && tv[x] == u;
            let st = tv[starts[l as int] as int];
            assert(reachable(e, st, tv[x]));
            assert(reachable(e, st, tv[y]));
            lemma_reach_sym(e, st, tv[y]);
            lemma_reach_trans(e, tv[y], st, u);
        }
    }
    assert(traversable_component(g, tv[y]) =~= k);
}

/// How many of the first `y` labels are `l`.
spec fn count_label(comp: Seq<usize>, l: usize, y: int) -> nat
    decreases y,
{
    if y <= 0 {
        0
    } else {
        count_label(comp, l, y - 1) + if comp[y - 1] == l { 1nat } else { 0nat }
    }
}

proof fn lemma_count_label_bound(comp: Seq<usize>, l: usize, y: int)
    requires
        0 <= y,
    ensures
        count_label(comp, l, y) <= y,
    decreases y,
{
    if y > 0 {
        lemma_count_label_bound(comp, l, y - 1);
    }
}

proof fn lemma_count_label_pos(comp: Seq<usize>, l: usize, y: int, x: int)
    requires
        0 <= x < y,
        comp[x] == l,
    ensures
        count_label(comp, l, y) > 0,
    decreases y,
{
    if x < y - 1 {
        lemma_count_label_pos(comp, l, y - 1, x);
    }
}

proof fn lemma_count_label_witness(comp: Seq<usize>, l: usize, y: int)
    requires
        count_label(comp, l, y) > 0,
    ensures
        exists|x: int| 0 <= x < y && comp[x] == l,
    decreases y,
{
    if y > 0 && comp[y - 1] != l {
        lemma_count_label_witness(comp, l, y - 1);
    }
}

/// `u` is the id of a node that the search put in component `c`.
spec fn in_comp(ids: Seq<String>, comp: Seq<usize>, c: usize, u: Seq<char>) -> bool {
    exists|x: int| 0 <= x < ids.len() && x < comp.len() && ids[x]@ == u && comp[x] == c
}

spec fn index_spec(ids: Seq<String>, name: Seq<char>) -> int {
    choose|i: int| 0 <= i < ids.len() && ids[i]@ == name
}

proof fn lemma_index_spec(ids: Seq<String>, z: int)
    requires
        0 <= z < ids.len(),
        texts(ids).no_duplicates(),
    ensures
        index_spec(ids, ids[z]@) == z,
{
    let i = index_spec(ids, ids[z]@);
    assert(texts(ids)[i] == texts(ids)[z]);
}

proof fn lemma_bounded_distinct(s: Seq<usize>, n: int)
    requires
        s.no_duplicates(),
        forall|i: int| 0 <= i < s.len() ==> #[trigger] s[i] < n,
        0 <= n,
    ensures
        s.len() <= n,
{
    let t = s.to_set();
    s.unique_seq_to_set();
    let r = Set::new(|i: usize| i < n);
    assert(t.subset_of(r));
    lemma_usize_range_len(n as nat);
    vstd::set_lib::lemma_len_subset(t, r);
}

proof fn lemma_usize_range_len(n: nat)
    ensures
        Set::new(|i: usize| i < n).finite(),
        Set::new(|i: usize| i < n).len() <= n,
    decreases n,
{
    if n == 0 {
        assert(Set::new(|i: usize| i < n) =~= Set::<usize>::empty());
    } else {
        lemma_usize_range_len((n - 1) as nat);
        let a = Set::new(|i: usize| i < (n - 1) as nat);
        if n - 1 <= usize::MAX {
            assert(Set::new(|i: usize| i < n) =~= a.insert((n - 1) as usize));
        } else {
            assert(Set::new(|i: usize| i < n) =~= a);
        }
    }
}

} // verus!
