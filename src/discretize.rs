//! Subdivision of long links into chains of evenly spaced new nodes.

use vstd::prelude::*;
use crate::graph::{Graph, GraphView, Node, NodeView};
use crate::ids::{lemma_piece_id_injective, piece_id, piece_id_text};
use crate::topology::{lemma_add_isolated_simple, lemma_link_pair_simple, lemma_unlink_pair_simple};

verus! {

/// Node `i` of the chain that replaces the link from `u` to `v` in `part`
/// pieces: `u` first, `v` last, the new pieces between.
pub open spec fn chain_node(u: Seq<char>, v: Seq<char>, part: nat, i: nat) -> Seq<char> {
    if i == 0 {
        u
    } else if i == part {
        v
    } else {
        piece_id(u, v, i, part)
    }
}

/// Both directions of the links between consecutive nodes of the chain,
/// for the first `n` steps.
pub open spec fn chain_links(u: Seq<char>, v: Seq<char>, part: nat, n: nat) -> Set<(Seq<char>, Seq<char>)> {
    Set::new(
        |k: (Seq<char>, Seq<char>)|
            exists|i: nat|
                i < n && (k == (chain_node(u, v, part, i), #[trigger] chain_node(u, v, part, i + 1)) || k == (
                    chain_node(u, v, part, i + 1),
                    chain_node(u, v, part, i),
                )),
    )
}

/// The links after the link between `u` and `v` became a chain of `part` pieces.
pub open spec fn subdivided(e: Set<(Seq<char>, Seq<char>)>, u: Seq<char>, v: Seq<char>, part: nat) -> Set<(Seq<char>, Seq<char>)> {
    e.remove((u, v)).remove((v, u)) + chain_links(u, v, part, part)
}

/// `lon` and `lat` came back from `point` for piece `i` of `part` on nodes
/// with the data of `a` and `b`.
pub open spec fn point_of<P: Fn(&Node, &Node, u32, u32) -> (String, String)>(
    point: P,
    a: NodeView,
    b: NodeView,
    i: u32,
    part: u32,
    lon: Seq<char>,
    lat: Seq<char>,
) -> bool {
    exists|x: Node, y: Node, m: (String, String)|
        #[trigger] point.ensures((&x, &y, i, part), m) && x@.id == a.id && x@.longitude == a.longitude
            && x@.latitude == a.latitude && y@.id == b.id && y@.longitude == b.longitude
            && y@.latitude == b.latitude && m.0@ == lon && m.1@ == lat
}

/// `h` with pieces `1..=k` of the link from `u` to `v` in `p` parts added
/// as nodes without neighbours, at the places that `src` gives them.
pub open spec fn with_pieces(h: GraphView, u: Seq<char>, v: Seq<char>, p: nat, src: GraphView, k: nat) -> GraphView
    decreases k,
{
    if k == 0 {
        h
    } else {
        let h1 = with_pieces(h, u, v, p, src, (k - 1) as nat);
        let id = piece_id(u, v, k, p);
        GraphView {
            nodes: h1.nodes.insert(
                id,
                NodeView { id, longitude: src.nodes[id].longitude, latitude: src.nodes[id].latitude, neighbours: Seq::empty() },
            ),
            links: h1.links,
        }
    }
}

/// `h` after linking the first `k` consecutive nodes of the chain, each
/// pair forwards then backwards, as `insert_link` does.
pub open spec fn chained(h: GraphView, u: Seq<char>, v: Seq<char>, p: nat, k: nat) -> GraphView
    decreases k,
{
    if k == 0 {
        h
    } else {
        let h1 = chained(h, u, v, p, (k - 1) as nat);
        let a = chain_node(u, v, p, (k - 1) as nat);
        let b = chain_node(u, v, p, k);
        h1.with_link(a, b).with_link(b, a)
    }
}

proof fn lemma_with_pieces_agree(h: GraphView, u: Seq<char>, v: Seq<char>, p: nat, s1: GraphView, s2: GraphView, k: nat)
    requires
        forall|j: nat| 1 <= j <= k ==> #[trigger] s1.nodes[piece_id(u, v, j, p)].longitude == s2.nodes[piece_id(u, v, j, p)].longitude
            && s1.nodes[piece_id(u, v, j, p)].latitude == s2.nodes[piece_id(u, v, j, p)].latitude,
    ensures
        with_pieces(h, u, v, p, s1, k) == with_pieces(h, u, v, p, s2, k),
    decreases k,
{
    if k > 0 {
        lemma_with_pieces_agree(h, u, v, p, s1, s2, (k - 1) as nat);
        assert(s1.nodes[piece_id(u, v, k, p)].longitude == s2.nodes[piece_id(u, v, k, p)].longitude);
    }
}

/// Removing a link changes only the source's neighbour list.
proof fn lemma_unlink_keeps_data(h: GraphView, s: Seq<char>, t: Seq<char>)
    requires
        h.nodes.contains_key(s),
    ensures
        h.unlink(s, t).nodes.dom() == h.nodes.dom(),
        h.keeps_node_data(h.unlink(s, t)),
{
    assert(h.unlink(s, t).nodes.dom() =~= h.nodes.dom());
}

proof fn lemma_chain_distinct(g: GraphView, u: Seq<char>, v: Seq<char>, part: nat, i: nat, j: nat)
    requires
        g.nodes.contains_key(u),
        g.nodes.contains_key(v),
        u != v,
        forall|k: nat| 1 <= k < part ==> !g.nodes.contains_key(#[trigger] piece_id(u, v, k, part)),
        i <= part,
        j <= part,
        i != j,
    ensures
        chain_node(u, v, part, i) != chain_node(u, v, part, j),
{
    if 1 <= i < part && 1 <= j < part {
        if piece_id(u, v, i, part) == piece_id(u, v, j, part) {
            lemma_piece_id_injective(u, v, i, j, part);
        }
    }
}

/// Replaces the link between `u` and `v` by a chain `u`, piece 1, ...,
/// piece `part - 1`, `v` of new nodes; piece `i` has id
/// `piece_id(u, v, i, part)` and the place that `point` gives for `i/part`
/// of the way from `u` to `v`.
#[verifier::spinoff_prover]
pub fn subdivide_link<P: Fn(&Node, &Node, u32, u32) -> (String, String)>(
    graph: Graph,
    u: &String,
    v: &String,
    part: u32,
    point: &P,
) -> (r: Graph)
    requires
        graph.wf(),
        graph@.links.contains_key((u@, v@)),
        graph@.links.contains_key((v@, u@)),
        u@ != v@,
        part >= 2,
        forall|i: nat| 1 <= i < part ==> !graph@.nodes.contains_key(#[trigger] piece_id(u@, v@, i, part as nat)),
        forall|a: &Node, b: &Node, i: u32, p: u32| point.requires((a, b, i, p)),
    ensures
        r.wf(),
        r@ == chained(with_pieces(graph@.unlink(u@, v@).unlink(v@, u@), u@, v@, part as nat, r@, (part - 1) as nat),
            u@, v@, part as nat, part as nat),
        graph@.keeps_node_data(r@),
        r@.nodes.dom() == graph@.nodes.dom() + Set::new(|id: Seq<char>| exists|i: nat| 1 <= i < part && id == #[trigger] piece_id(u@, v@, i, part as nat)),
        graph@.is_simple() ==> r@.is_simple() && r@.edges() == subdivided(graph@.edges(), u@, v@, part as nat),
        graph@.is_simple() ==> forall|w: Seq<char>| #[trigger] graph@.nodes.contains_key(w) ==> r@.degree(w) == graph@.degree(w),
        graph@.is_simple() ==> forall|i: u32| 1 <= i < part ==> r@.degree(#[trigger] piece_id(u@, v@, i as nat, part as nat)) == 2,
        forall|i: u32| 1 <= i < part ==> point_of(*point, graph@.nodes[u@], graph@.nodes[v@], i, part,
            r@.nodes[#[trigger] piece_id(u@, v@, i as nat, part as nat)].longitude,
            r@.nodes[piece_id(u@, v@, i as nat, part as nat)].latitude),
{
    let mut graph = graph;
    let ghost g = graph@;
    let ghost uv = u@;
    let ghost vv = v@;
    let ghost pn = part as nat;
    let ghost simple0 = g.is_simple();
    assert(uv != vv);
    assert(g.nodes.contains_key(vv));
    proof {
        if simple0 {
            lemma_unlink_pair_simple(g, uv, vv);
        }
        lemma_unlink_keeps_data(g, uv, vv);
        lemma_unlink_keeps_data(g.unlink(uv, vv), vv, uv);
    }
    graph.remove_link(&(u.clone(), v.clone()));
    assert(graph@.links.contains_key((vv, uv)));
    graph.remove_link(&(v.clone(), u.clone()));
    let ghost g1 = graph@;
    assert(g.keeps_node_data(g1)) by {
        assert forall|w: Seq<char>| g.nodes.contains_key(w) && #[trigger] g1.nodes.contains_key(w) implies g1.nodes[w]
            == g.nodes[w].with_neighbours(g1.nodes[w].neighbours) by {
            assert(g.unlink(uv, vv).nodes.contains_key(w));
        }
    }
    assert(graph@ == with_pieces(g1, uv, vv, pn, graph@, 0));
    let mut pieces: Vec<String> = Vec::new();
    let mut i: u32 = 1;
    while i < part
        invariant
            1 <= i <= part,
            pn == part as nat,
            uv == u@,
            vv == v@,
            pieces.len() == i - 1,
            forall|j: int| 0 <= j < pieces.len() ==> #[trigger] pieces@[j]@ == piece_id(uv, vv, (j + 1) as nat, pn),
            forall|a: &Node, b: &Node, i: u32, p: u32| point.requires((a, b, i, p)),
            forall|k: nat| 1 <= k < part ==> !g.nodes.contains_key(#[trigger] piece_id(uv, vv, k, pn)),
            graph.wf(),
            simple0 == g.is_simple(),
            g1 == g.unlink(uv, vv).unlink(vv, uv),
            simple0 ==> graph@.is_simple(),
            graph@ == with_pieces(g1, uv, vv, pn, graph@, (i - 1) as nat),
            g1.keeps_node_data(graph@),
            g1.nodes.dom() == g.nodes.dom(),
            g.keeps_node_data(g1),
            graph@.edges() == g1.edges(),
            graph@.nodes.dom() == g1.nodes.dom() + Set::new(|id: Seq<char>| exists|k: nat| 1 <= k < i && id == #[trigger] piece_id(uv, vv, k, pn)),
            forall|w: Seq<char>| #[trigger] g1.nodes.contains_key(w) ==> graph@.nodes[w] == g1.nodes[w],
            forall|k: u32| 1 <= k < i ==> graph@.degree(#[trigger] piece_id(uv, vv, k as nat, pn)) == 0,
            forall|k: u32| 1 <= k < i ==> point_of(*point, g.nodes[uv], g.nodes[vv], k, part,
                graph@.nodes[#[trigger] piece_id(uv, vv, k as nat, pn)].longitude,
                graph@.nodes[piece_id(uv, vv, k as nat, pn)].latitude),
            graph@.nodes.contains_key(uv),
            graph@.nodes.contains_key(vv),
        decreases part - i,
    {
        let id = piece_id_text(u, v, i, part);
        let a = graph.get_node(u);
        let b = graph.get_node(v);
        let ghost (ga, gb) = (*a, *b);
        let m = point(a, b, i, part);
        let ghost gm = m;
        assert(point.ensures((&ga, &gb, i, part), gm));
        let (longitude, latitude) = m;
        let node = Node { id: id.clone(), longitude, latitude, neighbours: Vec::new() };
        assert(node@.neighbours =~= Seq::<Seq<char>>::empty());
        let ghost before = graph@;
        assert(!before.nodes.contains_key(id@)) by {
            if exists|k: nat| 1 <= k < i && id@ == #[trigger] piece_id(uv, vv, k, pn) {
                let k = choose|k: nat| 1 <= k < i && id@ == #[trigger] piece_id(uv, vv, k, pn);
                lemma_piece_id_injective(uv, vv, k, i as nat, pn);
            }
        }
        proof {
            if simple0 {
                lemma_add_isolated_simple(before, node@);
            }
        }
        graph.insert_node(node);
        pieces.push(id);
        proof {
            lemma_with_pieces_agree(g1, uv, vv, pn, before, graph@, (i - 1) as nat);
            assert(graph@ =~= with_pieces(g1, uv, vv, pn, graph@, i as nat));
            assert(graph@.nodes.dom() =~= g1.nodes.dom() + Set::new(|id: Seq<char>| exists|k: nat| 1 <= k < i + 1 && id == #[trigger] piece_id(uv, vv, k, pn))) by {
                assert forall|x: Seq<char>| (exists|k: nat| 1 <= k < i + 1 && x == #[trigger] piece_id(uv, vv, k, pn)) implies graph@.nodes.contains_key(x) by {
                    let k = choose|k: nat| 1 <= k < i + 1 && x == #[trigger] piece_id(uv, vv, k, pn);
                    if k < i {
                        assert(before.nodes.contains_key(x));
                    }
                }
            }
            assert forall|k: u32| 1 <= k < i + 1 implies graph@.degree(#[trigger] piece_id(uv, vv, k as nat, pn)) == 0
                && point_of(*point, g.nodes[uv], g.nodes[vv], k, part,
                graph@.nodes[piece_id(uv, vv, k as nat, pn)].longitude,
                graph@.nodes[piece_id(uv, vv, k as nat, pn)].latitude) by {
                if k < i {
                    assert(before.nodes.contains_key(piece_id(uv, vv, k as nat, pn)));
                    assert(piece_id(uv, vv, k as nat, pn) != id@) by {
                        if piece_id(uv, vv, k as nat, pn) == id@ {
                            lemma_piece_id_injective(uv, vv, k as nat, i as nat, pn);
                        }
                    }
                } else {
                    assert(ga@ == before.nodes[uv]);
                    assert(g1.nodes.contains_key(uv));
                    assert(g1.nodes[uv] == g.nodes[uv].with_neighbours(g1.nodes[uv].neighbours));
                    assert(g1.nodes[vv] == g.nodes[vv].with_neighbours(g1.nodes[vv].neighbours));
                }
            }
            assert forall|w: Seq<char>| #[trigger] g1.nodes.contains_key(w) implies graph@.nodes[w] == g1.nodes[w] by {
                assert(w != id@);
            }
            assert forall|w: Seq<char>| g1.nodes.contains_key(w) && #[trigger] graph@.nodes.contains_key(w) implies graph@.nodes[w]
                == g1.nodes[w].with_neighbours(graph@.nodes[w].neighbours) by {
                assert(w != id@);
            }
        }
        i = i + 1;
    }
    let ghost g2 = graph@;
    let ghost dom = g2.nodes.dom();
    let mut i: u32 = 0;
    while i < part
        invariant
            0 <= i <= part,
            pn == part as nat,
            uv == u@,
            vv == v@,
            part >= 2,
            uv != vv,
            pieces.len() == part - 1,
            forall|j: int| 0 <= j < pieces.len() ==> #[trigger] pieces@[j]@ == piece_id(uv, vv, (j + 1) as nat, pn),
            forall|k: nat| 1 <= k < part ==> !g.nodes.contains_key(#[trigger] piece_id(uv, vv, k, pn)),
            g.nodes.contains_key(uv),
            g.nodes.contains_key(vv),
            simple0 == g.is_simple(),
            simple0 ==> g.is_simple(),
            simple0 ==> g1.edges() == g.edges().remove((uv, vv)).remove((vv, uv)),
            simple0 ==> forall|w: Seq<char>| w != uv && w != vv ==> #[trigger] g1.nodes[w] == g.nodes[w],
            simple0 ==> g1.degree(uv) + 1 == g.degree(uv),
            simple0 ==> g1.degree(vv) + 1 == g.degree(vv),
            g1 == g.unlink(uv, vv).unlink(vv, uv),
            g2 == with_pieces(g1, uv, vv, pn, g2, (pn - 1) as nat),
            graph@ == chained(g2, uv, vv, pn, i as nat),
            g1.nodes.dom() == g.nodes.dom(),
            forall|w: Seq<char>| #[trigger] g1.nodes.contains_key(w) ==> g2.nodes[w] == g1.nodes[w],
            dom == g2.nodes.dom(),
            dom == g.nodes.dom() + Set::new(|id: Seq<char>| exists|k: nat| 1 <= k < part && id == #[trigger] piece_id(uv, vv, k, pn)),
            forall|k: u32| 1 <= k < part ==> g2.degree(#[trigger] piece_id(uv, vv, k as nat, pn)) == 0,
            graph.wf(),
            simple0 ==> graph@.is_simple(),
            graph@.nodes.dom() == dom,
            g2.keeps_node_data(graph@),
            simple0 ==> graph@.edges() == g1.edges() + chain_links(uv, vv, pn, i as nat),
            simple0 ==> forall|w: Seq<char>| g.nodes.contains_key(w) && w != uv && w != vv ==> #[trigger] graph@.nodes[w] == g.nodes[w],
            simple0 ==> graph@.degree(uv) == g.degree(uv) - 1 + (if i > 0 { 1int } else { 0int }),
            simple0 ==> graph@.degree(vv) == g.degree(vv) - 1 + (if i == part { 1int } else { 0int }),
            simple0 ==> forall|k: u32| 1 <= k < part ==> graph@.degree(#[trigger] piece_id(uv, vv, k as nat, pn))
                == (if k <= i { 1int } else { 0int }) + (if k < i { 1int } else { 0int }),
        decreases part - i,
    {
        let a = if i == 0 { u } else { &pieces[(i - 1) as usize] };
        let b = if i + 1 == part { v } else { &pieces[i as usize] };
        let ghost ca = chain_node(uv, vv, pn, i as nat);
        let ghost cb = chain_node(uv, vv, pn, (i + 1) as nat);
        assert(a@ == ca);
        assert(b@ == cb);
        let ghost before = graph@;
        proof {
            lemma_chain_distinct(g, uv, vv, pn, i as nat, (i + 1) as nat);
            assert(dom.contains(ca));
            assert(dom.contains(cb));
            if simple0 {
            assert(!before.links.contains_key((ca, cb))) by {
                if g1.edges().contains((ca, cb)) {
                    assert(g.links.contains_key((ca, cb)));
                    assert(g.nodes.contains_key(ca));
                    assert(g.nodes.contains_key(cb));
                    if i + 1 < part {
                        assert(cb == piece_id(uv, vv, (i + 1) as nat, pn));
                    } else {
                        assert(i >= 1);
                        assert(ca == piece_id(uv, vv, i as nat, pn));
                    }
                }
                if chain_links(uv, vv, pn, i as nat).contains((ca, cb)) {
                    let j = choose|j: nat| j < i && ((ca, cb) == (chain_node(uv, vv, pn, j), #[trigger] chain_node(uv, vv, pn, j + 1)) || (ca, cb) == (
                        chain_node(uv, vv, pn, j + 1),
                        chain_node(uv, vv, pn, j),
                    ));
                    if (ca, cb) == (chain_node(uv, vv, pn, j), chain_node(uv, vv, pn, j + 1)) {
                        lemma_chain_distinct(g, uv, vv, pn, i as nat, j);
                    } else {
                        lemma_chain_distinct(g, uv, vv, pn, (i + 1) as nat, j);
                    }
                }
            }
            lemma_link_pair_simple(before, ca, cb);
            }
        }
        graph.insert_link((a.clone(), b.clone()));
        graph.insert_link((b.clone(), a.clone()));
        proof {
            assert forall|w: Seq<char>| g2.nodes.contains_key(w) && #[trigger] graph@.nodes.contains_key(w) implies graph@.nodes[w]
                == g2.nodes[w].with_neighbours(graph@.nodes[w].neighbours) by {
                assert(before.nodes.contains_key(w));
            }
        }
        proof {
            if simple0 {
            assert(graph@.edges() =~= g1.edges() + chain_links(uv, vv, pn, (i + 1) as nat)) by {
                assert forall|k: (Seq<char>, Seq<char>)| #[trigger] chain_links(uv, vv, pn, (i + 1) as nat).contains(k) <==> (chain_links(uv, vv, pn, i as nat).contains(k) || k == (ca, cb) || k == (cb, ca)) by {
                    if chain_links(uv, vv, pn, (i + 1) as nat).contains(k) {
                        let j = choose|j: nat| j < i + 1 && (k == (chain_node(uv, vv, pn, j), #[trigger] chain_node(uv, vv, pn, j + 1)) || k == (
                            chain_node(uv, vv, pn, j + 1),
                            chain_node(uv, vv, pn, j),
                        ));
                        if j < i {
                            assert(chain_links(uv, vv, pn, i as nat).contains(k));
                        }
                    }
                    if k == (ca, cb) || k == (cb, ca) {
                        assert(chain_node(uv, vv, pn, i as nat) == ca);
                    }
                    if chain_links(uv, vv, pn, i as nat).contains(k) {
                        let j = choose|j: nat| j < i && (k == (chain_node(uv, vv, pn, j), #[trigger] chain_node(uv, vv, pn, j + 1)) || k == (
                            chain_node(uv, vv, pn, j + 1),
                            chain_node(uv, vv, pn, j),
                        ));
                    }
                }
            }
            assert forall|w: Seq<char>| g2.nodes.contains_key(w) && #[trigger] graph@.nodes.contains_key(w) implies graph@.nodes[w]
                == g2.nodes[w].with_neighbours(graph@.nodes[w].neighbours) by {
                assert(before.nodes.contains_key(w));
            }
            assert forall|w: Seq<char>| g.nodes.contains_key(w) && w != uv && w != vv implies #[trigger] graph@.nodes[w] == g.nodes[w] by {
                assert(w != ca && w != cb) by {
                    if i >= 1 {
                        assert(ca == piece_id(uv, vv, i as nat, pn));
                    }
                    if i + 1 < part {
                        assert(cb == piece_id(uv, vv, (i + 1) as nat, pn));
                    }
                }
                assert(before.nodes[w] == g.nodes[w]);
            }
            assert forall|k: u32| 1 <= k < part implies graph@.degree(#[trigger] piece_id(uv, vv, k as nat, pn))
                == (if k <= i + 1 { 1int } else { 0int }) + (if k < i + 1 { 1int } else { 0int }) by {
                let pk = piece_id(uv, vv, k as nat, pn);
                assert(pk == chain_node(uv, vv, pn, k as nat));
                if k == i {
                    assert(pk == ca);
                } else if k == i + 1 {
                    assert(pk == cb);
                } else {
                    lemma_chain_distinct(g, uv, vv, pn, k as nat, i as nat);
                    lemma_chain_distinct(g, uv, vv, pn, k as nat, (i + 1) as nat);
                    assert(before.degree(pk) == graph@.degree(pk));
                }
            }
            if i == 0 {
                assert(ca == uv);
                lemma_chain_distinct(g, uv, vv, pn, 0, (i + 1) as nat);
            } else {
                lemma_chain_distinct(g, uv, vv, pn, 0, i as nat);
                lemma_chain_distinct(g, uv, vv, pn, 0, (i + 1) as nat);
            }
            if i + 1 == part {
                assert(cb == vv);
            } else {
                lemma_chain_distinct(g, uv, vv, pn, pn, i as nat);
                lemma_chain_distinct(g, uv, vv, pn, pn, (i + 1) as nat);
            }
            }
        }
        i = i + 1;
    }
    proof {
        if simple0 {
        assert forall|w: Seq<char>| #[trigger] g.nodes.contains_key(w) implies graph@.degree(w) == g.degree(w) by {
            if w != uv && w != vv {
                assert(graph@.nodes[w] == g.nodes[w]);
            }
        }
        }
        assert forall|j: nat| 1 <= j <= (pn - 1) as nat implies #[trigger] g2.nodes[piece_id(uv, vv, j, pn)].longitude == graph@.nodes[piece_id(uv, vv, j, pn)].longitude
            && g2.nodes[piece_id(uv, vv, j, pn)].latitude == graph@.nodes[piece_id(uv, vv, j, pn)].latitude by {
            let w = piece_id(uv, vv, j, pn);
            assert(dom.contains(w));
            assert(g2.nodes.contains_key(w));
            assert(graph@.nodes.contains_key(w));
        }
        lemma_with_pieces_agree(g1, uv, vv, pn, g2, graph@, (pn - 1) as nat);
        assert forall|w: Seq<char>| g.nodes.contains_key(w) && #[trigger] graph@.nodes.contains_key(w) implies graph@.nodes[w]
            == g.nodes[w].with_neighbours(graph@.nodes[w].neighbours) by {
            assert(g1.nodes.contains_key(w));
            assert(g2.nodes.contains_key(w));
        }
        assert forall|k: u32| 1 <= k < part implies point_of(*point, g.nodes[uv], g.nodes[vv], k, part,
            graph@.nodes[#[trigger] piece_id(uv, vv, k as nat, pn)].longitude,
            graph@.nodes[piece_id(uv, vv, k as nat, pn)].latitude) by {
            let pk = piece_id(uv, vv, k as nat, pn);
            assert(dom.contains(pk));
            assert(g2.nodes.contains_key(pk));
            assert(graph@.nodes.contains_key(pk));
        }
    }
    graph
}

/// Whether none of the ids of pieces `1..part` of the link from `u` to
/// `v` is taken.
fn pieces_free(graph: &Graph, u: &String, v: &String, part: u32) -> (r: bool)
    requires
        graph.wf(),
    ensures
        r == forall|i: nat| 1 <= i < part ==> !graph@.nodes.contains_key(#[trigger] piece_id(u@, v@, i, part as nat)),
{
    let mut i: u32 = 1;
    while i < part
        invariant
            1 <= i,
            graph.wf(),
            forall|k: nat| 1 <= k < i && k < part ==> !graph@.nodes.contains_key(#[trigger] piece_id(u@, v@, k, part as nat)),
        decreases part - i,
    {
        let id = piece_id_text(u, v, i, part);
        if graph.contains_node(&id) {
            return false;
        }
        i = i + 1;
    }
    true
}

/// `p` came back from `parts` on nodes with the data of `a` and `b`.
pub open spec fn parts_said<D: Fn(&Node, &Node) -> u32>(parts: D, a: NodeView, b: NodeView, p: u32) -> bool {
    exists|x: Node, y: Node|
        #[trigger] parts.ensures((&x, &y), p) && x@.id == a.id && x@.longitude == a.longitude
            && x@.latitude == a.latitude && y@.id == b.id && y@.longitude == b.longitude
            && y@.latitude == b.latitude
}

/// The ids of the pieces of the link from `u` to `v` in `p` parts.
pub open spec fn pieces(u: Seq<char>, v: Seq<char>, p: nat) -> Set<Seq<char>> {
    Set::new(|id: Seq<char>| exists|i: nat| 1 <= i < p && id == #[trigger] piece_id(u, v, i, p))
}

/// The links after the subdivisions `steps` (link `(u, v)` into `p` parts), in order.
pub open spec fn subdivide_all(e: Set<(Seq<char>, Seq<char>)>, steps: Seq<(Seq<char>, Seq<char>, u32)>) -> Set<(Seq<char>, Seq<char>)>
    decreases steps.len(),
{
    if steps.len() == 0 {
        e
    } else {
        let s = steps.last();
        subdivided(subdivide_all(e, steps.drop_last()), s.0, s.1, s.2 as nat)
    }
}

/// The ids of all pieces that `steps` create.
pub open spec fn pieces_all(steps: Seq<(Seq<char>, Seq<char>, u32)>) -> Set<Seq<char>> {
    Set::new(|id: Seq<char>| exists|t: int| 0 <= t < steps.len() && #[trigger] pieces(steps[t].0, steps[t].1, steps[t].2 as nat).contains(id))
}

/// Link `k` or its reverse is subdivided by one of `steps`.
pub open spec fn on_step(steps: Seq<(Seq<char>, Seq<char>, u32)>, k: (Seq<char>, Seq<char>)) -> bool {
    exists|t: int| 0 <= t < steps.len() && ((#[trigger] steps[t].0, steps[t].1) == k || (steps[t].1, steps[t].0) == k)
}

/// Subdivision `s` of the link from `u` to `v` into `p` parts, made on `g`,
/// shows in `r`: `parts` gave `p` for the link, the piece ids were free in
/// `g`, the direct link is gone, the chain is there, and each piece has two
/// neighbours and the place that `point` gave for it.
pub open spec fn subdivision_made<D: Fn(&Node, &Node) -> u32, P: Fn(&Node, &Node, u32, u32) -> (String, String)>(
    g: GraphView,
    r: GraphView,
    parts: D,
    point: P,
    s: (Seq<char>, Seq<char>, u32),
) -> bool {
    let (u, v, p) = s;
    &&& g.links.contains_key((u, v))
    &&& p >= 2
    &&& parts_said(parts, g.nodes[u], g.nodes[v], p)
    &&& forall|i: nat| 1 <= i < p ==> !g.nodes.contains_key(#[trigger] piece_id(u, v, i, p as nat))
    &&& !r.links.contains_key((u, v))
    &&& !r.links.contains_key((v, u))
    &&& chain_links(u, v, p as nat, p as nat).subset_of(r.edges())
    &&& forall|i: u32| 1 <= i < p ==> {
        &&& r.nodes.contains_key(#[trigger] piece_id(u, v, i as nat, p as nat))
        &&& r.degree(piece_id(u, v, i as nat, p as nat)) == 2
        &&& point_of(point, g.nodes[u], g.nodes[v], i, p,
            r.nodes[piece_id(u, v, i as nat, p as nat)].longitude,
            r.nodes[piece_id(u, v, i as nat, p as nat)].latitude)
    }
}

/// Link `k` of `g` was dealt with: it was subdivided (one way or the
/// other), or `parts` gave at most one part for it, or some id of its
/// pieces was taken.
pub open spec fn link_settled<D: Fn(&Node, &Node) -> u32>(
    g: GraphView,
    r: GraphView,
    parts: D,
    steps: Seq<(Seq<char>, Seq<char>, u32)>,
    k: (Seq<char>, Seq<char>),
) -> bool {
    ||| on_step(steps, k)
    ||| exists|p: u32| p <= 1 && #[trigger] parts_said(parts, g.nodes[k.0], g.nodes[k.1], p)
    ||| exists|p: u32, i: nat|
        p >= 2 && 1 <= i < p && #[trigger] parts_said(parts, g.nodes[k.0], g.nodes[k.1], p)
            && r.nodes.contains_key(#[trigger] piece_id(k.0, k.1, i, p as nat))
}

proof fn lemma_chain_link_piece(u: Seq<char>, v: Seq<char>, p: nat, k: (Seq<char>, Seq<char>))
    requires
        p >= 2,
        chain_links(u, v, p, p).contains(k),
    ensures
        pieces(u, v, p).contains(k.0) || pieces(u, v, p).contains(k.1),
{
    let j = choose|j: nat| j < p && (k == (chain_node(u, v, p, j), #[trigger] chain_node(u, v, p, j + 1)) || k == (
        chain_node(u, v, p, j + 1),
        chain_node(u, v, p, j),
    ));
    if j >= 1 {
        assert(chain_node(u, v, p, j) == piece_id(u, v, j, p));
        assert(pieces(u, v, p).contains(piece_id(u, v, j, p)));
    } else {
        assert(chain_node(u, v, p, 1) == piece_id(u, v, 1, p));
        assert(pieces(u, v, p).contains(piece_id(u, v, 1, p)));
    }
}

/// A later subdivision, of a link between two nodes of `g` into fresh
/// pieces, leaves an earlier one as it showed.
proof fn lemma_made_persists<D: Fn(&Node, &Node) -> u32, P: Fn(&Node, &Node, u32, u32) -> (String, String)>(
    g: GraphView,
    h: GraphView,
    h2: GraphView,
    parts: D,
    point: P,
    s: (Seq<char>, Seq<char>, u32),
    u2: Seq<char>,
    v2: Seq<char>,
    p2: u32,
)
    requires
        subdivision_made(g, h, parts, point, s),
        g.links_consistent(),
        g.links_symmetric(),
        forall|w: Seq<char>| #[trigger] g.nodes.contains_key(w) ==> h.nodes.contains_key(w),
        g.nodes.contains_key(u2),
        g.nodes.contains_key(v2),
        p2 >= 2,
        h2.edges() == subdivided(h.edges(), u2, v2, p2 as nat),
        forall|i: nat| 1 <= i < p2 ==> !h.nodes.contains_key(#[trigger] piece_id(u2, v2, i, p2 as nat)),
        forall|w: Seq<char>| #[trigger] h.nodes.contains_key(w) ==> h2.nodes.contains_key(w) && h2.degree(w) == h.degree(w),
        h.keeps_node_data(h2),
    ensures
        subdivision_made(g, h2, parts, point, s),
{
    let (u, v, p) = s;
    assert(g.nodes.contains_key(u) && g.nodes.contains_key(v));
    assert(!h2.links.contains_key((u, v))) by {
        if chain_links(u2, v2, p2 as nat, p2 as nat).contains((u, v)) {
            lemma_chain_link_piece(u2, v2, p2 as nat, (u, v));
        }
    }
    assert(!h2.links.contains_key((v, u))) by {
        if chain_links(u2, v2, p2 as nat, p2 as nat).contains((v, u)) {
            lemma_chain_link_piece(u2, v2, p2 as nat, (v, u));
        }
    }
    assert forall|c: (Seq<char>, Seq<char>)| chain_links(u, v, p as nat, p as nat).contains(c) implies h2.edges().contains(c) by {
        lemma_chain_link_piece(u, v, p as nat, c);
        assert(h.edges().contains(c));
        if c == (u2, v2) || c == (v2, u2) {
            if pieces(u, v, p as nat).contains(c.0) {
                let i = choose|i: nat| 1 <= i < p && c.0 == #[trigger] piece_id(u, v, i, p as nat);
            } else {
                let i = choose|i: nat| 1 <= i < p && c.1 == #[trigger] piece_id(u, v, i, p as nat);
            }
        }
    }
    assert forall|i: u32| 1 <= i < p implies {
        &&& h2.nodes.contains_key(#[trigger] piece_id(u, v, i as nat, p as nat))
        &&& h2.degree(piece_id(u, v, i as nat, p as nat)) == 2
        &&& point_of(point, g.nodes[u], g.nodes[v], i, p,
            h2.nodes[piece_id(u, v, i as nat, p as nat)].longitude,
            h2.nodes[piece_id(u, v, i as nat, p as nat)].latitude)
    } by {
        let w = piece_id(u, v, i as nat, p as nat);
        assert(h.nodes.contains_key(w));
        assert(h2.nodes.contains_key(w));
    }
}

/// The graph after the subdivision `s` of `h`, the pieces placed as `src` places them.
pub open spec fn subdivision_view(h: GraphView, s: (Seq<char>, Seq<char>, u32), src: GraphView) -> GraphView {
    chained(
        with_pieces(h.unlink(s.0, s.1).unlink(s.1, s.0), s.0, s.1, s.2 as nat, src, (s.2 - 1) as nat),
        s.0,
        s.1,
        s.2 as nat,
        s.2 as nat,
    )
}

/// The graph after the subdivisions `steps` of `g`, in order.
pub open spec fn subdivide_views(g: GraphView, steps: Seq<(Seq<char>, Seq<char>, u32)>, src: GraphView) -> GraphView
    decreases steps.len(),
{
    if steps.len() == 0 {
        g
    } else {
        subdivision_view(subdivide_views(g, steps.drop_last(), src), steps.last(), src)
    }
}

/// Subdivision `s`, made in `st`, was of a link present both ways between
/// distinct nodes, into the number of parts that `parts` gave for them,
/// with piece ids free in `st`, each piece placed in `r` where `point` put it.
pub open spec fn subdivision_step<D: Fn(&Node, &Node) -> u32, P: Fn(&Node, &Node, u32, u32) -> (String, String)>(
    parts: D,
    point: P,
    st: GraphView,
    r: GraphView,
    s: (Seq<char>, Seq<char>, u32),
) -> bool {
    let (u, v, p) = s;
    &&& st.links.contains_key((u, v))
    &&& st.links.contains_key((v, u))
    &&& u != v
    &&& p >= 2
    &&& parts_said(parts, st.nodes[u], st.nodes[v], p)
    &&& forall|i: nat| 1 <= i < p ==> !st.nodes.contains_key(#[trigger] piece_id(u, v, i, p as nat))
    &&& forall|i: u32| 1 <= i < p ==> point_of(point, st.nodes[u], st.nodes[v], i, p,
        r.nodes[#[trigger] piece_id(u, v, i as nat, p as nat)].longitude,
        r.nodes[piece_id(u, v, i as nat, p as nat)].latitude)
}

proof fn lemma_views_agree(g: GraphView, steps: Seq<(Seq<char>, Seq<char>, u32)>, s1: GraphView, s2: GraphView)
    requires
        forall|t: int| 0 <= t < steps.len() ==> #[trigger] steps[t].2 >= 2,
        forall|w: Seq<char>| #[trigger] pieces_all(steps).contains(w) ==> s1.nodes[w].longitude == s2.nodes[w].longitude
            && s1.nodes[w].latitude == s2.nodes[w].latitude,
    ensures
        subdivide_views(g, steps, s1) == subdivide_views(g, steps, s2),
    decreases steps.len(),
{
    if steps.len() > 0 {
        let t = steps.len() - 1;
        assert forall|w: Seq<char>| #[trigger] pieces_all(steps.drop_last()).contains(w) implies pieces_all(steps).contains(w) by {
            let t2 = choose|t2: int| 0 <= t2 < steps.drop_last().len() && #[trigger] pieces(steps.drop_last()[t2].0, steps.drop_last()[t2].1, steps.drop_last()[t2].2 as nat).contains(w);
            assert(steps[t2] == steps.drop_last()[t2]);
        }
        assert forall|t2: int| 0 <= t2 < steps.drop_last().len() implies #[trigger] steps.drop_last()[t2].2 >= 2 by {
            assert(steps.drop_last()[t2] == steps[t2]);
        }
        lemma_views_agree(g, steps.drop_last(), s1, s2);
        let s = steps.last();
        let h = subdivide_views(g, steps.drop_last(), s1);
        assert forall|j: nat| 1 <= j <= (s.2 - 1) as nat implies #[trigger] s1.nodes[piece_id(s.0, s.1, j, s.2 as nat)].longitude == s2.nodes[piece_id(s.0, s.1, j, s.2 as nat)].longitude
            && s1.nodes[piece_id(s.0, s.1, j, s.2 as nat)].latitude == s2.nodes[piece_id(s.0, s.1, j, s.2 as nat)].latitude by {
            assert(steps[t] == s);
            assert(s.2 >= 2);
            assert(j < s.2);
            assert(pieces(s.0, s.1, s.2 as nat).contains(piece_id(s.0, s.1, j, s.2 as nat)));
            assert(pieces_all(steps).contains(piece_id(s.0, s.1, j, s.2 as nat)));
        }
        lemma_with_pieces_agree(h.unlink(s.0, s.1).unlink(s.1, s.0), s.0, s.1, s.2 as nat, s1, s2, (s.2 - 1) as nat);
    }
}

/// One more subdivision, made by `subdivide_link` on `before`, extends the
/// fold and keeps the earlier steps as they were.
proof fn lemma_views_after_step<D: Fn(&Node, &Node) -> u32, P: Fn(&Node, &Node, u32, u32) -> (String, String)>(
    g: GraphView,
    steps: Seq<(Seq<char>, Seq<char>, u32)>,
    before: GraphView,
    after: GraphView,
    parts: D,
    point: P,
    st: (Seq<char>, Seq<char>, u32),
)
    requires
        before == subdivide_views(g, steps, before),
        forall|t: int| 0 <= t < steps.len() ==> subdivision_step(parts, point, subdivide_views(g, steps.take(t), before), before, #[trigger] steps[t]),
        forall|w: Seq<char>| #[trigger] pieces_all(steps).contains(w) ==> before.nodes.contains_key(w),
        before.keeps_node_data(after),
        forall|w: Seq<char>| #[trigger] before.nodes.contains_key(w) ==> after.nodes.contains_key(w),
        after == subdivision_view(before, st, after),
        subdivision_step(parts, point, before, after, st),
    ensures
        after == subdivide_views(g, steps.push(st), after),
        forall|t: int| 0 <= t < steps.push(st).len() ==> subdivision_step(parts, point, subdivide_views(g, steps.push(st).take(t), after), after, #[trigger] steps.push(st)[t]),
{
    let steps2 = steps.push(st);
    assert(steps2.drop_last() =~= steps);
    assert forall|w: Seq<char>| #[trigger] pieces_all(steps).contains(w) implies before.nodes[w].longitude == after.nodes[w].longitude
        && before.nodes[w].latitude == after.nodes[w].latitude by {
        assert(before.nodes.contains_key(w));
        assert(after.nodes.contains_key(w));
    }
    assert forall|t: int| 0 <= t < steps.len() implies #[trigger] steps[t].2 >= 2 by {
        assert(subdivision_step(parts, point, subdivide_views(g, steps.take(t), before), before, steps[t]));
    }
    lemma_views_agree(g, steps, before, after);
    assert forall|t: int| 0 <= t < steps2.len() implies subdivision_step(parts, point, subdivide_views(g, steps2.take(t), after), after, #[trigger] steps2[t]) by {
        if t < steps.len() {
            assert(steps2.take(t) =~= steps.take(t));
            assert(steps2[t] == steps[t]);
            assert forall|w: Seq<char>| #[trigger] pieces_all(steps.take(t)).contains(w) implies before.nodes[w].longitude == after.nodes[w].longitude
                && before.nodes[w].latitude == after.nodes[w].latitude by {
                let t2 = choose|t2: int| 0 <= t2 < steps.take(t).len() && #[trigger] pieces(steps.take(t)[t2].0, steps.take(t)[t2].1, steps.take(t)[t2].2 as nat).contains(w);
                assert(steps.take(t)[t2] == steps[t2]);
                assert(pieces_all(steps).contains(w));
                assert(before.nodes.contains_key(w));
            }
            assert forall|t3: int| 0 <= t3 < steps.take(t).len() implies #[trigger] steps.take(t)[t3].2 >= 2 by {
                assert(steps.take(t)[t3] == steps[t3]);
            }
            lemma_views_agree(g, steps.take(t), before, after);
            let s = steps[t];
            assert(subdivision_step(parts, point, subdivide_views(g, steps.take(t), before), before, s));
            assert forall|i: u32| 1 <= i < s.2 implies #[trigger] after.nodes[piece_id(s.0, s.1, i as nat, s.2 as nat)] == before.nodes[piece_id(s.0, s.1, i as nat, s.2 as nat)].with_neighbours(after.nodes[piece_id(s.0, s.1, i as nat, s.2 as nat)].neighbours) by {
                let w = piece_id(s.0, s.1, i as nat, s.2 as nat);
                assert(pieces(s.0, s.1, s.2 as nat).contains(w));
                assert(pieces_all(steps).contains(w));
                assert(before.nodes.contains_key(w));
            }
        } else {
            assert(steps2.take(t) =~= steps);
            assert(steps2[t] == st);
        }
    }
}

/// On a simple graph, the state of the subdivision pass after the first
/// `i` keys: still simple, degrees kept, the links those of `steps`, each
/// step showing, the input links present exactly when not subdivided, and
/// the keys visited settled.
#[verifier::opaque]
spec fn simple_progress<D: Fn(&Node, &Node) -> u32, P: Fn(&Node, &Node, u32, u32) -> (String, String)>(
    g: GraphView,
    h: GraphView,
    parts: D,
    point: P,
    steps: Seq<(Seq<char>, Seq<char>, u32)>,
    keys: Seq<(String, String)>,
    i: int,
) -> bool {
    &&& h.is_simple()
    &&& forall|w: Seq<char>| #[trigger] g.nodes.contains_key(w) ==> h.degree(w) == g.degree(w)
    &&& forall|w: Seq<char>| #[trigger] h.nodes.contains_key(w) && !g.nodes.contains_key(w) ==> h.degree(w) == 2
    &&& h.edges() == subdivide_all(g.edges(), steps)
    &&& forall|t: int| 0 <= t < steps.len() ==> subdivision_made(g, h, parts, point, #[trigger] steps[t])
    &&& forall|k: (Seq<char>, Seq<char>)| #[trigger] g.links.contains_key(k) ==> (h.links.contains_key(k) <==> !on_step(steps, k))
    &&& forall|m: int| 0 <= m < i ==> link_settled(g, h, parts, steps, (#[trigger] keys[m].0@, keys[m].1@))
}

/// One subdivision step of the pass extends the fold of views.
#[verifier::spinoff_prover]
#[verifier::rlimit(100)]
proof fn lemma_discretize_step_views<D: Fn(&Node, &Node) -> u32, P: Fn(&Node, &Node, u32, u32) -> (String, String)>(
    g: GraphView,
    before: GraphView,
    after: GraphView,
    parts: D,
    point: P,
    steps: Seq<(Seq<char>, Seq<char>, u32)>,
    st: (Seq<char>, Seq<char>, u32),
    keys: Seq<(String, String)>,
    i: int,
    simple0: bool,
)
    requires
        0 <= i < keys.len(),
        (keys[i].0@, keys[i].1@) == (st.0, st.1),
        simple0 == g.is_simple(),
        forall|m: int| 0 <= m < keys.len() ==> g.links.contains_key((#[trigger] keys[m].0@, keys[m].1@)),
        g.keeps_node_data(before),
        forall|w: Seq<char>| #[trigger] g.nodes.contains_key(w) ==> before.nodes.contains_key(w),
        before == subdivide_views(g, steps, before),
        forall|t: int| 0 <= t < steps.len() ==> subdivision_step(parts, point, subdivide_views(g, steps.take(t), before), before, #[trigger] steps[t]),
        before.nodes.dom() == g.nodes.dom() + pieces_all(steps),
        forall|t: int| 0 <= t < steps.len() ==> pieces(steps[t].0, steps[t].1, steps[t].2 as nat).disjoint(
            #[trigger] pieces_all(steps.take(t))),
        simple0 ==> simple_progress(g, before, parts, point, steps, keys, i),
        before.links.contains_key((st.0, st.1)),
        before.links.contains_key((st.1, st.0)),
        st.0 != st.1,
        st.2 >= 2,
        parts_said(parts, before.nodes[st.0], before.nodes[st.1], st.2),
        simple0 ==> parts_said(parts, g.nodes[st.0], g.nodes[st.1], st.2),
        forall|j: nat| 1 <= j < st.2 ==> !before.nodes.contains_key(#[trigger] piece_id(st.0, st.1, j, st.2 as nat)),
        after == chained(with_pieces(before.unlink(st.0, st.1).unlink(st.1, st.0), st.0, st.1, st.2 as nat, after, (st.2 - 1) as nat),
            st.0, st.1, st.2 as nat, st.2 as nat),
        before.keeps_node_data(after),
        after.nodes.dom() == before.nodes.dom() + Set::new(|id: Seq<char>| exists|j: nat| 1 <= j < st.2 && id == #[trigger] piece_id(st.0, st.1, j, st.2 as nat)),
        before.is_simple() ==> after.is_simple() && after.edges() == subdivided(before.edges(), st.0, st.1, st.2 as nat),
        before.is_simple() ==> forall|w: Seq<char>| #[trigger] before.nodes.contains_key(w) ==> after.degree(w) == before.degree(w),
        before.is_simple() ==> forall|j: u32| 1 <= j < st.2 ==> after.degree(#[trigger] piece_id(st.0, st.1, j as nat, st.2 as nat)) == 2,
        forall|j: u32| 1 <= j < st.2 ==> point_of(point, before.nodes[st.0], before.nodes[st.1], j, st.2,
            after.nodes[#[trigger] piece_id(st.0, st.1, j as nat, st.2 as nat)].longitude,
            after.nodes[piece_id(st.0, st.1, j as nat, st.2 as nat)].latitude),
    ensures
        g.keeps_node_data(after),
        forall|w: Seq<char>| #[trigger] g.nodes.contains_key(w) ==> after.nodes.contains_key(w),
        after == subdivide_views(g, steps.push(st), after),
        forall|t: int| 0 <= t < steps.push(st).len() ==> subdivision_step(parts, point, subdivide_views(g, steps.push(st).take(t), after), after, #[trigger] steps.push(st)[t]),
        after.nodes.dom() == g.nodes.dom() + pieces_all(steps.push(st)),
        forall|t: int| 0 <= t < steps.push(st).len() ==> pieces(steps.push(st)[t].0, steps.push(st)[t].1, steps.push(st)[t].2 as nat).disjoint(
            #[trigger] pieces_all(steps.push(st).take(t))),
{
    let u = st.0;
    let v = st.1;
    let part = st.2;
    let steps2 = steps.push(st);
    assert(steps2.drop_last() =~= steps);
    assert forall|w: Seq<char>| #[trigger] pieces_all(steps).contains(w) implies before.nodes.contains_key(w) by {}
    assert forall|w: Seq<char>| #[trigger] before.nodes.contains_key(w) implies after.nodes.contains_key(w) by {}
    lemma_views_after_step(g, steps, before, after, parts, point, st);
    assert(after.nodes.dom() =~= g.nodes.dom() + pieces_all(steps2)) by {
        assert forall|w: Seq<char>| pieces_all(steps2).contains(w) <==> (pieces_all(steps).contains(w) || pieces(u, v, part as nat).contains(w)) by {
            if pieces_all(steps2).contains(w) {
                let t = choose|t: int| 0 <= t < steps2.len() && #[trigger] pieces(steps2[t].0, steps2[t].1, steps2[t].2 as nat).contains(w);
                if t < steps.len() {
                    assert(steps2[t] == steps[t]);
                }
            }
            if pieces_all(steps).contains(w) {
                let t = choose|t: int| 0 <= t < steps.len() && #[trigger] pieces(steps[t].0, steps[t].1, steps[t].2 as nat).contains(w);
                assert(steps2[t] == steps[t]);
            }
            if pieces(u, v, part as nat).contains(w) {
                assert(steps2[steps.len() as int] == st);
            }
        }
    }
    assert forall|w: Seq<char>| g.nodes.contains_key(w) && #[trigger] after.nodes.contains_key(w) implies after.nodes[w]
        == g.nodes[w].with_neighbours(after.nodes[w].neighbours) by {
        assert(before.nodes.contains_key(w));
    }
    assert forall|t: int| 0 <= t < steps2.len() implies pieces(steps2[t].0, steps2[t].1, steps2[t].2 as nat).disjoint(
        #[trigger] pieces_all(steps2.take(t))) by {
        if t < steps.len() {
            assert(steps2[t] == steps[t]);
            assert(steps2.take(t) =~= steps.take(t));
        } else {
            assert(steps2.take(t) =~= steps);
            assert(steps2[t] == st);
            assert forall|w: Seq<char>| pieces(u, v, part as nat).contains(w) implies !pieces_all(steps).contains(w) by {
                let j = choose|j: nat| 1 <= j < part && w == #[trigger] piece_id(u, v, j, part as nat);
                assert(!before.nodes.contains_key(w));
            }
        }
    }
}

/// On a simple graph, one subdivision step keeps the pass's progress.
#[verifier::spinoff_prover]
#[verifier::rlimit(100)]
proof fn lemma_discretize_step_simple<D: Fn(&Node, &Node) -> u32, P: Fn(&Node, &Node, u32, u32) -> (String, String)>(
    g: GraphView,
    before: GraphView,
    after: GraphView,
    parts: D,
    point: P,
    steps: Seq<(Seq<char>, Seq<char>, u32)>,
    st: (Seq<char>, Seq<char>, u32),
    keys: Seq<(String, String)>,
    i: int,
    simple0: bool,
)
    requires
        0 <= i < keys.len(),
        (keys[i].0@, keys[i].1@) == (st.0, st.1),
        simple0 == g.is_simple(),
        simple0,
        forall|m: int| 0 <= m < keys.len() ==> g.links.contains_key((#[trigger] keys[m].0@, keys[m].1@)),
        g.keeps_node_data(before),
        forall|w: Seq<char>| #[trigger] g.nodes.contains_key(w) ==> before.nodes.contains_key(w),
        before.nodes.dom() == g.nodes.dom() + pieces_all(steps),
        simple0 ==> simple_progress(g, before, parts, point, steps, keys, i),
        before.links.contains_key((st.0, st.1)),
        before.links.contains_key((st.1, st.0)),
        st.0 != st.1,
        st.2 >= 2,
        parts_said(parts, before.nodes[st.0], before.nodes[st.1], st.2),
        simple0 ==> parts_said(parts, g.nodes[st.0], g.nodes[st.1], st.2),
        forall|j: nat| 1 <= j < st.2 ==> !before.nodes.contains_key(#[trigger] piece_id(st.0, st.1, j, st.2 as nat)),
        before.keeps_node_data(after),
        g.keeps_node_data(after),
        after.nodes.dom() == g.nodes.dom() + pieces_all(steps.push(st)),
        after.nodes.dom() == before.nodes.dom() + Set::new(|id: Seq<char>| exists|j: nat| 1 <= j < st.2 && id == #[trigger] piece_id(st.0, st.1, j, st.2 as nat)),
        before.is_simple() ==> after.is_simple() && after.edges() == subdivided(before.edges(), st.0, st.1, st.2 as nat),
        before.is_simple() ==> forall|w: Seq<char>| #[trigger] before.nodes.contains_key(w) ==> after.degree(w) == before.degree(w),
        before.is_simple() ==> forall|j: u32| 1 <= j < st.2 ==> after.degree(#[trigger] piece_id(st.0, st.1, j as nat, st.2 as nat)) == 2,
        forall|j: u32| 1 <= j < st.2 ==> point_of(point, before.nodes[st.0], before.nodes[st.1], j, st.2,
            after.nodes[#[trigger] piece_id(st.0, st.1, j as nat, st.2 as nat)].longitude,
            after.nodes[piece_id(st.0, st.1, j as nat, st.2 as nat)].latitude),
    ensures
        simple_progress(g, after, parts, point, steps.push(st), keys, i + 1),
{
    let u = st.0;
    let v = st.1;
    let part = st.2;
                    reveal(simple_progress);
                    let steps2 = steps.push(st);
                    assert(steps2.drop_last() =~= steps);
                    if simple0 {
                    assert(after.edges() == subdivide_all(g.edges(), steps2));
                    }
                    if simple0 {
                    assert forall|w: Seq<char>| #[trigger] g.nodes.contains_key(w) implies after.nodes.contains_key(w) && after.degree(w) == g.degree(w) by {
                        assert(before.nodes.contains_key(w));
                    }
                    }
                    if simple0 {
                    assert forall|w: Seq<char>| #[trigger] after.nodes.contains_key(w) && !g.nodes.contains_key(w) implies after.degree(w) == 2 by {
                        if before.nodes.contains_key(w) {
                            assert(after.degree(w) == before.degree(w));
                        } else {
                            let j = choose|j: nat| 1 <= j < part && w == #[trigger] piece_id(u, v, j, part as nat);
                            assert(after.degree(piece_id(u, v, (j as u32) as nat, part as nat)) == 2);
                        }
                    }
                    }
                    assert forall|w: Seq<char>| g.nodes.contains_key(w) && #[trigger] after.nodes.contains_key(w) implies after.nodes[w]
                        == g.nodes[w].with_neighbours(after.nodes[w].neighbours) by {
                        assert(before.nodes.contains_key(w));
                    }
                    assert forall|w: Seq<char>| #[trigger] g.nodes.contains_key(w) implies after.nodes.contains_key(w) by {
                        assert(before.nodes.contains_key(w));
                    }
                    if simple0 {
                    assert forall|t: int| 0 <= t < steps2.len() implies subdivision_made(g, after, parts, point, #[trigger] steps2[t]) by {
                        if t < steps.len() {
                            assert(steps2[t] == steps[t]);
                            lemma_made_persists(g, before, after, parts, point, steps[t], u, v, part);
                        } else {
                            assert(steps2[t] == st);
                            assert(!after.links.contains_key((u, v)));
                            assert(!after.links.contains_key((v, u)));
                            assert(chain_links(u, v, part as nat, part as nat).subset_of(after.edges()));
                            assert forall|j: u32| 1 <= j < part implies {
                                &&& after.nodes.contains_key(#[trigger] piece_id(u, v, j as nat, part as nat))
                                &&& after.degree(piece_id(u, v, j as nat, part as nat)) == 2
                                &&& point_of(point, g.nodes[u], g.nodes[v], j, part,
                                    after.nodes[piece_id(u, v, j as nat, part as nat)].longitude,
                                    after.nodes[piece_id(u, v, j as nat, part as nat)].latitude)
                            } by {
                                assert(pieces(u, v, part as nat).contains(piece_id(u, v, j as nat, part as nat)));
                                assert(point_of(point, before.nodes[u], before.nodes[v], j, part,
                                    after.nodes[piece_id(u, v, j as nat, part as nat)].longitude,
                                    after.nodes[piece_id(u, v, j as nat, part as nat)].latitude));
                                assert(before.nodes[u] == g.nodes[u].with_neighbours(before.nodes[u].neighbours));
                                assert(before.nodes[v] == g.nodes[v].with_neighbours(before.nodes[v].neighbours));
                            }
                        }
                    }
                    }
                    if simple0 {
                    assert forall|q: (Seq<char>, Seq<char>)| #[trigger] g.links.contains_key(q) implies (after.links.contains_key(q) <==> !on_step(steps2, q)) by {
                        assert(g.nodes.contains_key(q.0) && g.nodes.contains_key(q.1));
                        if chain_links(u, v, part as nat, part as nat).contains(q) {
                            lemma_chain_link_piece(u, v, part as nat, q);
                        }
                        if on_step(steps2, q) {
                            let t = choose|t: int| 0 <= t < steps2.len() && ((#[trigger] steps2[t].0, steps2[t].1) == q || (steps2[t].1, steps2[t].0) == q);
                            if t < steps.len() {
                                assert(steps2[t] == steps[t]);
                            }
                        }
                        if on_step(steps, q) {
                            let t = choose|t: int| 0 <= t < steps.len() && ((#[trigger] steps[t].0, steps[t].1) == q || (steps[t].1, steps[t].0) == q);
                            assert(steps2[t] == steps[t]);
                        }
                        if q == (u, v) || q == (v, u) {
                            assert(steps2[steps.len() as int] == st);
                        }
                    }
                    }
                    if simple0 {
                    assert forall|m: int| 0 <= m < i + 1 implies link_settled(g, after, parts, steps2, (#[trigger] keys[m].0@, keys[m].1@)) by {
                        let q = (keys[m].0@, keys[m].1@);
                        if m < i {
                            assert(link_settled(g, before, parts, steps, q));
                            if on_step(steps, q) {
                                let t = choose|t: int| 0 <= t < steps.len() && ((#[trigger] steps[t].0, steps[t].1) == q || (steps[t].1, steps[t].0) == q);
                                assert(steps2[t] == steps[t]);
                            } else if exists|p: u32| p <= 1 && #[trigger] parts_said(parts, g.nodes[q.0], g.nodes[q.1], p) {
                            } else {
                                let (p, j) = choose|p: u32, j: nat|
                                    p >= 2 && 1 <= j < p && #[trigger] parts_said(parts, g.nodes[q.0], g.nodes[q.1], p)
                                        && before.nodes.contains_key(#[trigger] piece_id(q.0, q.1, j, p as nat));
                                assert(after.nodes.contains_key(piece_id(q.0, q.1, j, p as nat)));
                            }
                        } else {
                            assert(steps2[steps.len() as int] == st);
                        }
                    }
                    }
                    if simple0 {
                        assert(simple_progress(g, after, parts, point, steps2, keys, i + 1));
                    }
}

proof fn lemma_settled_next<D: Fn(&Node, &Node) -> u32, P: Fn(&Node, &Node, u32, u32) -> (String, String)>(
    g: GraphView,
    h: GraphView,
    parts: D,
    point: P,
    steps: Seq<(Seq<char>, Seq<char>, u32)>,
    keys: Seq<(String, String)>,
    i: int,
)
    requires
        0 <= i < keys.len(),
        simple_progress(g, h, parts, point, steps, keys, i),
        g.links.contains_key((keys[i].0@, keys[i].1@)),
        link_settled(g, h, parts, steps, (keys[i].0@, keys[i].1@))
            || !h.links.contains_key((keys[i].0@, keys[i].1@))
            || !h.links.contains_key((keys[i].1@, keys[i].0@)),
    ensures
        simple_progress(g, h, parts, point, steps, keys, i + 1),
{
    reveal(simple_progress);
    let k = (keys[i].0@, keys[i].1@);
    if h.links.contains_key(k) {
        assert(h.links.contains_key((k.1, k.0)));
    }
    assert(link_settled(g, h, parts, steps, k));
}

/// `r` is `g` after the subdivisions `steps`, in order, each made on a link
/// present both ways as `subdivision_step` says, with fresh piece ids; on
/// a simple graph, each input link is moreover settled and each step shows
/// as `subdivision_made` says.
pub open spec fn discretized<D: Fn(&Node, &Node) -> u32, P: Fn(&Node, &Node, u32, u32) -> (String, String)>(
    g: GraphView,
    r: GraphView,
    parts: D,
    point: P,
    steps: Seq<(Seq<char>, Seq<char>, u32)>,
) -> bool {
    &&& r == subdivide_views(g, steps, r)
    &&& forall|t: int| 0 <= t < steps.len() ==> subdivision_step(parts, point, subdivide_views(g, steps.take(t), r), r, #[trigger] steps[t])
    &&& r.nodes.dom() == g.nodes.dom() + pieces_all(steps)
    &&& forall|t: int| 0 <= t < steps.len() ==> pieces(steps[t].0, steps[t].1, steps[t].2 as nat).disjoint(
        #[trigger] pieces_all(steps.take(t)))
    &&& g.is_simple() ==> r.edges() == subdivide_all(g.edges(), steps)
    &&& g.is_simple() ==> forall|t: int| 0 <= t < steps.len() ==> subdivision_made(g, r, parts, point, #[trigger] steps[t])
    &&& g.is_simple() ==> forall|k: (Seq<char>, Seq<char>)| #[trigger] g.links.contains_key(k) ==> link_settled(g, r, parts, steps, k)
}

/// Subdivides every link into `parts` pieces (as `parts` gives the count
/// for its two ends) where that count exceeds one and none of the piece
/// ids is taken; a link whose piece ids are taken stays. Each link is
/// taken once, in one of its two directions; a link without its reverse,
/// or from a node to itself, is left as it is.
#[verifier::spinoff_prover]
#[verifier::rlimit(100)]
pub fn discretize<D: Fn(&Node, &Node) -> u32, P: Fn(&Node, &Node, u32, u32) -> (String, String)>(
    graph: Graph,
    parts: &D,
    point: &P,
) -> (r: Graph)
    requires
        graph.wf(),
        forall|a: &Node, b: &Node| parts.requires((a, b)),
        forall|a: &Node, b: &Node, i: u32, p: u32| point.requires((a, b, i, p)),
    ensures
        r.wf(),
        graph@.keeps_node_data(r@),
        forall|w: Seq<char>| #[trigger] graph@.nodes.contains_key(w) ==> r@.nodes.contains_key(w),
        graph@.is_simple() ==> r@.is_simple(),
        graph@.is_simple() ==> forall|w: Seq<char>| #[trigger] graph@.nodes.contains_key(w) ==> r@.degree(w) == graph@.degree(w),
        graph@.is_simple() ==> forall|w: Seq<char>| #[trigger] r@.nodes.contains_key(w) && !graph@.nodes.contains_key(w) ==> r@.degree(w) == 2,
        exists|steps: Seq<(Seq<char>, Seq<char>, u32)>| #[trigger] discretized(graph@, r@, *parts, *point, steps),
{
    let mut graph = graph;
    let ghost g = graph@;
    let keys = graph.link_keys();
    let ghost mut steps: Seq<(Seq<char>, Seq<char>, u32)> = Seq::empty();
    let ghost simple0 = g.is_simple();
    let mut i: usize = 0;
    proof {
        reveal(simple_progress);
        if simple0 {
            assert(subdivide_all(g.edges(), steps) == g.edges());
            assert(simple_progress(g, graph@, *parts, *point, steps, keys@, 0));
        }
    }
    assert(graph@.nodes.dom() =~= g.nodes.dom() + pieces_all(steps));
    while i < keys.len()
        invariant
            forall|a: &Node, b: &Node| parts.requires((a, b)),
            forall|a: &Node, b: &Node, i: u32, p: u32| point.requires((a, b, i, p)),
            i <= keys.len(),
            simple0 == g.is_simple(),
            simple0 ==> g.is_simple(),
            forall|m: int| 0 <= m < keys.len() ==> g.links.contains_key((#[trigger] keys@[m].0@, keys@[m].1@)),
            graph.wf(),
            g.keeps_node_data(graph@),
            forall|w: Seq<char>| #[trigger] g.nodes.contains_key(w) ==> graph@.nodes.contains_key(w),
            graph@ == subdivide_views(g, steps, graph@),
            simple0 ==> simple_progress(g, graph@, *parts, *point, steps, keys@, i as int),
            forall|t: int| 0 <= t < steps.len() ==> subdivision_step(*parts, *point, subdivide_views(g, steps.take(t), graph@), graph@, #[trigger] steps[t]),
            graph@.nodes.dom() == g.nodes.dom() + pieces_all(steps),
            forall|t: int| 0 <= t < steps.len() ==> pieces(steps[t].0, steps[t].1, steps[t].2 as nat).disjoint(
                #[trigger] pieces_all(steps.take(t))),
        decreases keys.len() - i,
    {
        let u = &keys[i].0;
        let v = &keys[i].1;
        let ghost k = (u@, v@);
        assert(g.links.contains_key(k));
        if !(*u == *v) && graph.contains_link(u, v) && graph.contains_link(v, u) {
            let a = graph.get_node(u);
            let b = graph.get_node(v);
            let ghost (ga, gb) = (*a, *b);
            let part = parts(a, b);
            assert(parts.ensures((&ga, &gb), part));
            assert(parts_said(*parts, graph@.nodes[u@], graph@.nodes[v@], part));
            proof {
                if simple0 {
                    assert(g.nodes.contains_key(u@) && g.nodes.contains_key(v@));
                    assert(graph@.nodes[u@] == g.nodes[u@].with_neighbours(graph@.nodes[u@].neighbours));
                    assert(graph@.nodes[v@] == g.nodes[v@].with_neighbours(graph@.nodes[v@].neighbours));
                    assert(parts_said(*parts, g.nodes[u@], g.nodes[v@], part));
                }
            }
            if part > 1 && pieces_free(&graph, u, v, part) {
                let ghost before = graph@;
                let ghost st = (u@, v@, part);
                graph = subdivide_link(graph, u, v, part, point);
                proof {
                    lemma_discretize_step_views(g, before, graph@, *parts, *point, steps, st, keys@, i as int, simple0);
                    if simple0 {
                        reveal(simple_progress);
                        lemma_discretize_step_simple(g, before, graph@, *parts, *point, steps, st, keys@, i as int, simple0);
                    }
                    steps = steps.push(st);
                }
            } else {
                proof {
                    if simple0 {
                        if part > 1 {
                            let j = choose|j: nat| 1 <= j < part && graph@.nodes.contains_key(#[trigger] piece_id(u@, v@, j, part as nat));
                        }
                        assert(link_settled(g, graph@, *parts, steps, k));
                        lemma_settled_next(g, graph@, *parts, *point, steps, keys@, i as int);
                    }
                }
            }
        } else {
            proof {
                if simple0 {
                    assert(u@ != v@);
                    assert(!graph@.links.contains_key(k) || !graph@.links.contains_key((v@, u@)));
                    lemma_settled_next(g, graph@, *parts, *point, steps, keys@, i as int);
                }
            }
        }
        i = i + 1;
    }
    proof {
        reveal(simple_progress);
        if simple0 {
            assert forall|q: (Seq<char>, Seq<char>)| #[trigger] g.links.contains_key(q) implies link_settled(g, graph@, *parts, steps, q) by {
                let m = choose|m: int| 0 <= m < keys.len() && #[trigger] keys@[m].0@ == q.0 && keys@[m].1@ == q.1;
            }
        }
        assert(simple0 ==> graph@.is_simple());
        assert(simple0 ==> graph@.edges() == subdivide_all(g.edges(), steps));
        assert(simple0 ==> forall|t: int| 0 <= t < steps.len() ==> subdivision_made(g, graph@, *parts, *point, #[trigger] steps[t]));
        assert(simple0 ==> forall|q: (Seq<char>, Seq<char>)| #[trigger] g.links.contains_key(q) ==> link_settled(g, graph@, *parts, steps, q));
        assert(simple0 ==> forall|w: Seq<char>| #[trigger] g.nodes.contains_key(w) ==> graph@.degree(w) == g.degree(w));
        assert(simple0 ==> forall|w: Seq<char>| #[trigger] graph@.nodes.contains_key(w) && !g.nodes.contains_key(w) ==> graph@.degree(w) == 2);
        assert(discretized(g, graph@, *parts, *point, steps));
    }
    graph
}

} // verus!
