//! Counts and distributions that describe a graph: how many nodes and
//! links it has, and how degrees, link lengths and merged ids are spread.

use vstd::prelude::*;
use crate::graph::{texts, Graph, Node, NodeView};
use crate::ids::text_lt;
use crate::ids::{decimal, decimal_text};
use crate::records::{split_fields, split_on};

verus! {

/// How many entries of `s` equal `v`.
pub open spec fn occurrences(s: Seq<usize>, v: usize) -> nat
    decreases s.len(),
{
    if s.len() == 0 {
        0
    } else {
        occurrences(s.drop_last(), v) + if s.last() == v { 1nat } else { 0nat }
    }
}

/// `h` lists each value of `s` once, with the number of times it occurs.
pub open spec fn is_distribution_of(h: Seq<(usize, usize)>, s: Seq<usize>) -> bool {
    &&& forall|i: int, j: int| 0 <= i < j < h.len() ==> h[i].0 != h[j].0
    &&& forall|i: int| 0 <= i < h.len() ==> #[trigger] h[i].1 == occurrences(s, h[i].0) && h[i].1 > 0
    &&& forall|v: usize| occurrences(s, v) > 0 ==> exists|i: int| 0 <= i < h.len() && #[trigger] h[i].0 == v
}

proof fn lemma_occurrences_bound(s: Seq<usize>, v: usize)
    ensures
        occurrences(s, v) <= s.len(),
    decreases s.len(),
{
    if s.len() > 0 {
        lemma_occurrences_bound(s.drop_last(), v);
    }
}

/// The distribution of `values`: each value once, in order of first
/// occurrence, with its count.
pub fn distribution(values: &Vec<usize>) -> (r: Vec<(usize, usize)>)
    ensures
        is_distribution_of(r@, values@),
{
    let mut h: Vec<(usize, usize)> = Vec::new();
    let mut i: usize = 0;
    while i < values.len()
        invariant
            i <= values.len(),
            is_distribution_of(h@, values@.take(i as int)),
        decreases values.len() - i,
    {
        let v = values[i];
        let ghost s0 = values@.take(i as int);
        let ghost s1 = values@.take(i + 1);
        assert(s1.drop_last() =~= s0);
        assert(s1.last() == v);
        proof {
            lemma_occurrences_bound(s0, v);
        }
        let mut j: usize = 0;
        while j < h.len() && h[j].0 != v
            invariant
                j <= h.len(),
                forall|k: int| 0 <= k < j ==> h@[k].0 != v,
            decreases h.len() - j,
        {
            j = j + 1;
        }
        let ghost h0 = h@;
        if j < h.len() {
            let c = h[j].1;
            h.set(j, (v, c + 1));
        } else {
            h.push((v, 1));
            assert(occurrences(s0, v) == 0) by {
                if occurrences(s0, v) > 0 {
                    let k = choose|k: int| 0 <= k < h0.len() && #[trigger] h0[k].0 == v;
                }
            }
        }
        assert forall|w: usize| occurrences(s1, w) > 0 implies exists|k: int| 0 <= k < h.len() && #[trigger] h@[k].0 == w by {
            if w == v {
                assert(h@[j as int].0 == w);
            } else {
                assert(occurrences(s0, w) > 0);
                let k = choose|k: int| 0 <= k < h0.len() && #[trigger] h0[k].0 == w;
                assert(h@[k].0 == w);
            }
        }
        i = i + 1;
    }
    assert(values@.take(values.len() as int) =~= values@);
    h
}

/// The number of nodes.
pub fn count_nodes(graph: &Graph) -> (r: usize)
    requires
        graph.wf(),
    ensures
        r == graph@.nodes.dom().len(),
{
    graph.node_count()
}

/// The number of undirected links: each link of a simple graph is held in
/// both directions.
pub fn count_links(graph: &Graph) -> (r: usize)
    requires
        graph.wf(),
        graph@.is_simple(),
    ensures
        r == graph@.edges().len() / 2,
{
    graph.link_count() / 2
}

/// The distribution of degrees, over the nodes in the order of `ids`.
pub fn degree_distribution(graph: &Graph) -> (r: Vec<(usize, usize)>)
    requires
        graph.wf(),
    ensures
        exists|ids: Seq<Seq<char>>|
            {
                &&& ids.no_duplicates()
                &&& forall|u: Seq<char>| #[trigger] ids.contains(u) <==> graph@.nodes.contains_key(u)
                &&& is_distribution_of(r@, ids.map_values(|u: Seq<char>| graph@.degree(u) as usize))
            },
{
    let ids = graph.node_ids();
    let mut degrees: Vec<usize> = Vec::new();
    let mut i: usize = 0;
    while i < ids.len()
        invariant
            graph.wf(),
            i <= ids.len(),
            forall|m: int| 0 <= m < ids.len() ==> graph@.nodes.contains_key(#[trigger] ids@[m]@),
            degrees@ == texts(ids@).take(i as int).map_values(|u: Seq<char>| graph@.degree(u) as usize),
        decreases ids.len() - i,
    {
        assert(graph@.nodes.contains_key(ids@[i as int]@));
        let d = graph.get_node(&ids[i]).neighbours.len();
        degrees.push(d);
        assert(degrees@ =~= texts(ids@).take(i + 1).map_values(|u: Seq<char>| graph@.degree(u) as usize));
        i = i + 1;
    }
    assert(texts(ids@).take(ids.len() as int) =~= texts(ids@));
    let r = distribution(&degrees);
    assert forall|u: Seq<char>| #[trigger] texts(ids@).contains(u) <==> graph@.nodes.contains_key(u) by {
        if texts(ids@).contains(u) {
            let m = choose|m: int| 0 <= m < ids.len() && texts(ids@)[m] == u;
            assert(ids@[m]@ == u);
        }
    }
    r
}

/// `d` came back from `length` on nodes with the data of `a` and `b`.
pub open spec fn measured<L: Fn(&Node, &Node) -> usize>(length: L, a: NodeView, b: NodeView, d: usize) -> bool {
    exists|x: Node, y: Node|
        #[trigger] length.ensures((&x, &y), d) && x@.id == a.id && x@.longitude == a.longitude
            && x@.latitude == a.latitude && y@.id == b.id && y@.longitude == b.longitude
            && y@.latitude == b.latitude
}

/// The distribution of link lengths as `length` gives them, over the
/// undirected links, each taken once from its smaller end.
pub fn links_length_distribution<L: Fn(&Node, &Node) -> usize>(graph: &Graph, length: &L) -> (r: Vec<(usize, usize)>)
    requires
        graph.wf(),
        graph@.is_simple(),
        forall|a: &Node, b: &Node| length.requires((a, b)),
    ensures
        exists|pairs: Seq<(Seq<char>, Seq<char>)>, lengths: Seq<usize>|
            {
                &&& pairs.no_duplicates()
                &&& forall|k: (Seq<char>, Seq<char>)| #[trigger] pairs.contains(k) <==> (graph@.links.contains_key(k) && text_lt(k.0, k.1))
                &&& lengths.len() == pairs.len()
                &&& forall|i: int| 0 <= i < pairs.len() ==> measured(*length, graph@.nodes[#[trigger] pairs[i].0], graph@.nodes[pairs[i].1], lengths[i])
                &&& is_distribution_of(r@, lengths)
            },
{
    let links = graph.undirected_links();
    let ghost pairs = Seq::new(links.len() as nat, |i: int| (links@[i].0@, links@[i].1@));
    let mut lengths: Vec<usize> = Vec::new();
    let mut i: usize = 0;
    while i < links.len()
        invariant
            graph.wf(),
            graph@.is_simple(),
            forall|a: &Node, b: &Node| length.requires((a, b)),
            i <= links.len(),
            pairs.len() == links.len(),
            forall|m: int| 0 <= m < links.len() ==> #[trigger] pairs[m] == (links@[m].0@, links@[m].1@),
            forall|m: int| 0 <= m < links.len() ==> graph@.links.contains_key((#[trigger] links@[m].0@, links@[m].1@)),
            lengths.len() == i,
            forall|m: int| 0 <= m < i ==> measured(*length, graph@.nodes[#[trigger] pairs[m].0], graph@.nodes[pairs[m].1], lengths@[m]),
        decreases links.len() - i,
    {
        assert(graph@.links.contains_key((links@[i as int].0@, links@[i as int].1@)));
        let a = graph.get_node(&links[i].0);
        let b = graph.get_node(&links[i].1);
        let ghost (ga, gb) = (*a, *b);
        let d = length(a, b);
        assert(length.ensures((&ga, &gb), d));
        lengths.push(d);
        i = i + 1;
    }
    proof {
        assert forall|a: int, b: int| 0 <= a < pairs.len() && 0 <= b < pairs.len() && a != b implies pairs[a] != pairs[b] by {
            assert(pairs[a] == (links@[a].0@, links@[a].1@));
            assert(pairs[b] == (links@[b].0@, links@[b].1@));
        }
        assert forall|k: (Seq<char>, Seq<char>)| #[trigger] pairs.contains(k) <==> (graph@.links.contains_key(k) && text_lt(k.0, k.1)) by {
            if graph@.links.contains_key(k) && text_lt(k.0, k.1) {
                let m = choose|m: int| 0 <= m < links.len() && #[trigger] links@[m].0@ == k.0 && links@[m].1@ == k.1;
                assert(pairs[m] == k);
            }
            if pairs.contains(k) {
                let m = choose|m: int| 0 <= m < pairs.len() && pairs[m] == k;
                assert(pairs[m] == (links@[m].0@, links@[m].1@));
            }
        }
    }
    distribution(&lengths)
}

/// The number of `-`-separated parts of an id: how many ids a merged id joins.
pub open spec fn id_parts(id: Seq<char>) -> nat {
    split_on(id, '-').len()
}

/// The distribution of the number of parts of the node ids.
pub fn substitute_nodes_distribution(graph: &Graph) -> (r: Vec<(usize, usize)>)
    requires
        graph.wf(),
    ensures
        exists|ids: Seq<Seq<char>>|
            {
                &&& ids.no_duplicates()
                &&& forall|u: Seq<char>| #[trigger] ids.contains(u) <==> graph@.nodes.contains_key(u)
                &&& is_distribution_of(r@, ids.map_values(|u: Seq<char>| id_parts(u) as usize))
            },
{
    let ids = graph.node_ids();
    let mut counts: Vec<usize> = Vec::new();
    let mut i: usize = 0;
    while i < ids.len()
        invariant
            graph.wf(),
            i <= ids.len(),
            counts@ == texts(ids@).take(i as int).map_values(|u: Seq<char>| id_parts(u) as usize),
        decreases ids.len() - i,
    {
        let pieces = split_fields(&ids[i], '-');
        assert(pieces@.map_values(|s: String| s@).len() == pieces.len());
        counts.push(pieces.len());
        assert(counts@ =~= texts(ids@).take(i + 1).map_values(|u: Seq<char>| id_parts(u) as usize));
        i = i + 1;
    }
    assert(texts(ids@).take(ids.len() as int) =~= texts(ids@));
    let r = distribution(&counts);
    assert forall|u: Seq<char>| #[trigger] texts(ids@).contains(u) <==> graph@.nodes.contains_key(u) by {
        if texts(ids@).contains(u) {
            let m = choose|m: int| 0 <= m < ids.len() && texts(ids@)[m] == u;
            assert(ids@[m]@ == u);
        }
    }
    r
}

/// The lines `value count` of a distribution, each ended by a newline.
pub open spec fn distribution_lines(h: Seq<(usize, usize)>) -> Seq<char>
    decreases h.len(),
{
    if h.len() == 0 {
        Seq::empty()
    } else {
        distribution_lines(h.drop_last()) + decimal(h.last().0 as nat) + seq![' '] + decimal(h.last().1 as nat) + seq!['\n']
    }
}

/// The text of a distribution: one line `value count` per entry.
pub fn distribution_text(h: &Vec<(usize, usize)>) -> (r: String)
    ensures
        r@ == distribution_lines(h@),
{
    proof {
        reveal_strlit(" ");
        reveal_strlit("\n");
    }
    let mut r = String::new();
    let mut i: usize = 0;
    while i < h.len()
        invariant
            i <= h.len(),
            r@ == distribution_lines(h@.take(i as int)),
        decreases h.len() - i,
    {
        let (k, v) = h[i];
        let dk = decimal_text(k as u64);
        let dv = decimal_text(v as u64);
        r = r.concat(dk.as_str()).concat(" ").concat(dv.as_str()).concat("\n");
        assert(h@.take(i + 1).drop_last() =~= h@.take(i as int));
        assert(h@.take(i + 1).last() == (k, v));
        proof {
            reveal_strlit(" ");
            reveal_strlit("\n");
        }
        assert(" "@ =~= seq![' ']);
        assert("\n"@ =~= seq!['\n']);
        assert(r@ =~= distribution_lines(h@.take(i + 1)));
        i = i + 1;
    }
    assert(h@.take(h.len() as int) =~= h@);
    r
}

} // verus!
