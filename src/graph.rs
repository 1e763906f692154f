//! The node/link store. Nodes are kept by id; each directed link `(s, t)`
//! records the slot of `t` in the neighbour list of `s`, and every mutation
//! keeps that record exact.

use vstd::prelude::*;

verus! {

/// A directed link: (source id, target id).
pub type Link = (String, String);

/// A node: its id, its coordinate as written in the records, and its
/// ordered neighbour list.
#[derive(Debug, PartialEq, Eq, Hash)]
pub struct Node {
    pub id: String,
    pub longitude: String,
    pub latitude: String,
    pub neighbours: Vec<String>,
}

/// A node as mathematical values.
pub struct NodeView {
    pub id: Seq<char>,
    pub longitude: Seq<char>,
    pub latitude: Seq<char>,
    pub neighbours: Seq<Seq<char>>,
}

/// The texts of a sequence of strings.
pub open spec fn texts(v: Seq<String>) -> Seq<Seq<char>> {
    v.map_values(|s: String| s@)
}

impl View for Node {
    type V = NodeView;

    open spec fn view(&self) -> NodeView {
        NodeView {
            id: self.id@,
            longitude: self.longitude@,
            latitude: self.latitude@,
            neighbours: texts(self.neighbours@),
        }
    }
}

impl NodeView {
    /// The same node with another neighbour list.
    pub open spec fn with_neighbours(self, ns: Seq<Seq<char>>) -> NodeView {
        NodeView { neighbours: ns, ..self }
    }
}

impl Node {
    /// A node with the given id, an empty coordinate and no neighbours.
    pub fn _new(id: String) -> (r: Node)
        ensures
            r@ == (NodeView {
                id: id@,
                longitude: Seq::empty(),
                latitude: Seq::empty(),
                neighbours: Seq::empty(),
            }),
    {
        let r = Node { id, latitude: String::new(), longitude: String::new(), neighbours: Vec::new() };
        assert(r@.neighbours =~= Seq::<Seq<char>>::empty());
        r
    }
}

/// A copy of a list of strings.
pub fn copy_strings(v: &Vec<String>) -> (r: Vec<String>)
    ensures
        r@ == v@,
{
    let mut r: Vec<String> = Vec::new();
    let mut i: usize = 0;
    while i < v.len()
        invariant
            i <= v.len(),
            r@ == v@.subrange(0, i as int),
        decreases v.len() - i,
    {
        r.push(v[i].clone());
        i = i + 1;
    }
    assert(r@ =~= v@);
    r
}

/// The graph as mathematical values: nodes by id, and the slot that each
/// directed link records.
pub struct GraphView {
    pub nodes: Map<Seq<char>, NodeView>,
    pub links: Map<(Seq<char>, Seq<char>), nat>,
}

impl GraphView {
    /// Every link `(s, t) -> k` has a node `s` whose neighbour at slot `k` is `t`.
    pub open spec fn links_consistent(self) -> bool {
        forall|k: (Seq<char>, Seq<char>)| #[trigger]
            self.links.contains_key(k) ==> {
                &&& self.nodes.contains_key(k.0)
                &&& self.links[k] < self.nodes[k.0].neighbours.len()
                &&& self.nodes[k.0].neighbours[self.links[k] as int] == k.1
            }
    }

    /// Each node is kept under its own id.
    pub open spec fn ids_match(self) -> bool {
        forall|id: Seq<char>| #[trigger] self.nodes.contains_key(id) ==> self.nodes[id].id == id
    }

    /// The graph after `insert_link((s, t))`: `t` appended to the neighbours
    /// of `s`, and the link recording that last slot.
    pub open spec fn with_link(self, s: Seq<char>, t: Seq<char>) -> GraphView {
        let ns = self.nodes[s].neighbours;
        GraphView {
            nodes: self.nodes.insert(s, self.nodes[s].with_neighbours(ns.push(t))),
            links: self.links.insert((s, t), ns.len()),
        }
    }

    /// The graph after `remove_link((s, t))`: the slot of `t` in the list of
    /// `s` gets the last neighbour, the list shrinks by one, and the link of
    /// the moved neighbour is pointed at its new slot.
    pub open spec fn unlink(self, s: Seq<char>, t: Seq<char>) -> GraphView {
        let k = self.links[(s, t)] as int;
        let ns = self.nodes[s].neighbours;
        let last = ns.len() - 1;
        GraphView {
            nodes: self.nodes.insert(s, self.nodes[s].with_neighbours(ns.update(k, ns[last]).drop_last())),
            links: if k == last {
                self.links.remove((s, t))
            } else {
                self.links.remove((s, t)).insert((s, ns[last]), k as nat)
            },
        }
    }

    /// The graph after the links between `id` and its first `j` neighbours
    /// `ns` were removed, both ways, in order.
    pub open spec fn unlink_first(self, id: Seq<char>, ns: Seq<Seq<char>>, j: nat) -> GraphView
        decreases j,
    {
        if j == 0 {
            self
        } else {
            let g = self.unlink_first(id, ns, (j - 1) as nat);
            g.unlink(id, ns[j - 1]).unlink(ns[j - 1], id)
        }
    }

    /// `remove_node(id)` can unlink `id` from all its neighbours: they are
    /// distinct, differ from `id`, and are linked with it both ways.
    pub open spec fn removable(self, id: Seq<char>) -> bool {
        let ns = self.nodes[id].neighbours;
        &&& self.nodes.contains_key(id)
        &&& ns.no_duplicates()
        &&& forall|k: int| 0 <= k < ns.len() ==> {
            &&& #[trigger] ns[k] != id
            &&& self.links.contains_key((id, ns[k]))
            &&& self.links.contains_key((ns[k], id))
        }
    }

    /// The graph after `remove_node(id)`.
    pub open spec fn without_node(self, id: Seq<char>) -> GraphView {
        let ns = self.nodes[id].neighbours;
        let g = self.unlink_first(id, ns, ns.len());
        GraphView { nodes: g.nodes.remove(id), links: g.links }
    }
}

struct LinkEntry {
    source: String,
    target: String,
    index: usize,
}

/// The node/link store.
pub struct Graph {
    nodes: Vec<Node>,
    links: Vec<LinkEntry>,
    node_model: Ghost<Map<Seq<char>, NodeView>>,
    link_model: Ghost<Map<(Seq<char>, Seq<char>), nat>>,
}

impl View for Graph {
    type V = GraphView;

    closed spec fn view(&self) -> GraphView {
        GraphView { nodes: self.node_model@, links: self.link_model@ }
    }
}

impl Graph {
    spec fn nodes_ok(&self) -> bool {
        &&& forall|i: int, j: int|
            0 <= i < self.nodes.len() && 0 <= j < self.nodes.len() && #[trigger] self.nodes@[i].id@
                == #[trigger] self.nodes@[j].id@ ==> i == j
        &&& forall|i: int|
            0 <= i < self.nodes.len() ==> #[trigger] self.node_model@.contains_key(
                self.nodes@[i].id@,
            ) && self.node_model@[self.nodes@[i].id@] == self.nodes@[i]@
        &&& forall|id: Seq<char>| #[trigger]
            self.node_model@.contains_key(id) ==> exists|i: int|
                0 <= i < self.nodes.len() && #[trigger] self.nodes@[i].id@ == id
        &&& self.node_model@.dom().finite()
        &&& self.node_model@.dom().len() == self.nodes.len()
    }

    spec fn links_ok(&self) -> bool {
        &&& forall|i: int, j: int|
            0 <= i < self.links.len() && 0 <= j < self.links.len() && #[trigger] self.links@[i].source@
                == #[trigger] self.links@[j].source@ && self.links@[i].target@ == self.links@[j].target@
                ==> i == j
        &&& forall|i: int|
            0 <= i < self.links.len() ==> #[trigger] self.link_model@.contains_key(
                (self.links@[i].source@, self.links@[i].target@),
            ) && self.link_model@[(self.links@[i].source@, self.links@[i].target@)]
                == self.links@[i].index as nat
        &&& forall|k: (Seq<char>, Seq<char>)| #[trigger]
            self.link_model@.contains_key(k) ==> exists|i: int|
                0 <= i < self.links.len() && #[trigger] self.links@[i].source@ == k.0
                    && self.links@[i].target@ == k.1
        &&& self.link_model@.dom().finite()
        &&& self.link_model@.dom().len() == self.links.len()
    }

    /// The store is well formed: besides its own bookkeeping, every link
    /// points at a slot of its source that holds its target.
    pub open spec fn wf(&self) -> bool {
        &&& self.store_ok()
        &&& self@.links_consistent()
        &&& self@.ids_match()
    }

    pub closed spec fn store_ok(&self) -> bool {
        self.nodes_ok() && self.links_ok()
    }

    /// An empty graph.
    pub fn new() -> (r: Graph)
        ensures
            r.wf(),
            r@.nodes == Map::<Seq<char>, NodeView>::empty(),
            r@.links == Map::<(Seq<char>, Seq<char>), nat>::empty(),
    {
        let r = Graph {
            nodes: Vec::new(),
            links: Vec::new(),
            node_model: Ghost(Map::empty()),
            link_model: Ghost(Map::empty()),
        };
        r
    }

    fn find_node(&self, id: &str) -> (r: Option<usize>)
        requires
            self.nodes_ok(),
        ensures
            match r {
                Some(i) => i < self.nodes.len() && self.nodes@[i as int].id@ == id@,
                None => !self@.nodes.contains_key(id@),
            },
    {
        let key = id.to_owned();
        let mut i: usize = 0;
        while i < self.nodes.len()
            invariant
                key@ == id@,
                i <= self.nodes.len(),
                forall|j: int| 0 <= j < i ==> self.nodes@[j].id@ != id@,
            decreases self.nodes.len() - i,
        {
            if self.nodes[i].id == key {
                return Some(i);
            }
            i = i + 1;
        }
        None
    }

    fn find_link(&self, source: &str, target: &str) -> (r: Option<usize>)
        requires
            self.links_ok(),
        ensures
            match r {
                Some(i) => i < self.links.len() && self.links@[i as int].source@ == source@
                    && self.links@[i as int].target@ == target@,
                None => !self@.links.contains_key((source@, target@)),
            },
    {
        let s = source.to_owned();
        let t = target.to_owned();
        let mut i: usize = 0;
        while i < self.links.len()
            invariant
                s@ == source@,
                t@ == target@,
                i <= self.links.len(),
                forall|j: int|
                    0 <= j < i ==> !(self.links@[j].source@ == source@ && self.links@[j].target@
                        == target@),
            decreases self.links.len() - i,
        {
            if self.links[i].source == s && self.links[i].target == t {
                return Some(i);
            }
            i = i + 1;
        }
        None
    }

    /// Whether a node with this id is present.
    pub fn contains_node(&self, id: &str) -> (r: bool)
        requires
            self.wf(),
        ensures
            r == self@.nodes.contains_key(id@),
    {
        self.find_node(id).is_some()
    }

    /// The slot that link `(source, target)` records, if the link is present.
    pub fn link_index(&self, source: &str, target: &str) -> (r: Option<usize>)
        requires
            self.wf(),
        ensures
            match r {
                Some(k) => self@.links.contains_key((source@, target@)) && self@.links[(
                    source@,
                    target@,
                )] == k as nat,
                None => !self@.links.contains_key((source@, target@)),
            },
    {
        match self.find_link(source, target) {
            Some(i) => {
                assert(self.link_model@.contains_key(
                    (self.links@[i as int].source@, self.links@[i as int].target@),
                ));
                Some(self.links[i].index)
            },
            None => None,
        }
    }

    /// Whether link `(source, target)` is present.
    pub fn contains_link(&self, source: &str, target: &str) -> (r: bool)
        requires
            self.wf(),
        ensures
            r == self@.links.contains_key((source@, target@)),
    {
        self.find_link(source, target).is_some()
    }

    /// The number of nodes.
    pub fn node_count(&self) -> (r: usize)
        requires
            self.wf(),
        ensures
            r == self@.nodes.dom().len(),
    {
        self.nodes.len()
    }

    /// The number of directed links.
    pub fn link_count(&self) -> (r: usize)
        requires
            self.wf(),
        ensures
            r == self@.links.dom().len(),
    {
        self.links.len()
    }

    /// The node with this id.
    pub fn get_node(&self, node_id: &str) -> (r: &Node)
        requires
            self.wf(),
            self@.nodes.contains_key(node_id@),
        ensures
            r@ == self@.nodes[node_id@],
    {
        match self.find_node(node_id) {
            Some(i) => &self.nodes[i],
            None => {
                assert(false);
                &self.nodes[0]
            },
        }
    }

    /// Replaces the neighbour list of the node at position `ni`, handing
    /// back the list it held.
    fn replace_neighbours(&mut self, ni: usize, ns: Vec<String>) -> (prev: Vec<String>)
        requires
            old(self).nodes_ok(),
            ni < old(self).nodes.len(),
        ensures
            final(self).nodes_ok(),
            final(self).nodes.len() == old(self).nodes.len(),
            final(self).nodes@[ni as int].id@ == old(self).nodes@[ni as int].id@,
            final(self)@.nodes == old(self)@.nodes.insert(
                old(self).nodes@[ni as int].id@,
                old(self)@.nodes[old(self).nodes@[ni as int].id@].with_neighbours(texts(ns@)),
            ),
            final(self).links == old(self).links,
            final(self).link_model == old(self).link_model,
            prev@ == old(self).nodes@[ni as int].neighbours@,
    {
        let ghost id = self.nodes@[ni as int].id@;
        assert(self.node_model@.contains_key(id));
        let mut ns = ns;
        std::mem::swap(&mut ns, &mut self.nodes[ni].neighbours);
        let ghost nv = self.nodes@[ni as int]@;
        self.node_model = Ghost(self.node_model@.insert(id, nv));
        assert forall|i: int|
            0 <= i < self.nodes.len() implies #[trigger] self.node_model@.contains_key(
                self.nodes@[i].id@,
            ) && self.node_model@[self.nodes@[i].id@] == self.nodes@[i]@ by {
            if i != ni {
                assert(old(self).node_model@.contains_key(old(self).nodes@[i].id@));
                assert(old(self).nodes@[i].id@ != id);
            }
        }
        assert forall|k: Seq<char>| #[trigger]
            self.node_model@.contains_key(k) implies exists|i: int|
                0 <= i < self.nodes.len() && #[trigger] self.nodes@[i].id@ == k by {
            let i = choose|i: int| 0 <= i < old(self).nodes.len() && #[trigger] old(self).nodes@[i].id@ == k;
            assert(self.nodes@[i].id@ == k);
        }
        assert(self.node_model@.dom() =~= old(self).node_model@.dom());
        ns
    }

    /// Records link `(source, target) -> index`, over any earlier record of it.
    fn set_link(&mut self, source: String, target: String, index: usize)
        requires
            old(self).links_ok(),
        ensures
            final(self).links_ok(),
            final(self).link_model@ == old(self).link_model@.insert((source@, target@), index as nat),
            final(self).nodes == old(self).nodes,
            final(self).node_model == old(self).node_model,
    {
        let ghost key = (source@, target@);
        match self.find_link(&source, &target) {
            Some(li) => {
                self.links[li].index = index;
                self.link_model = Ghost(self.link_model@.insert(key, index as nat));
                assert forall|i: int|
                    0 <= i < self.links.len() implies #[trigger] self.link_model@.contains_key(
                        (self.links@[i].source@, self.links@[i].target@),
                    ) && self.link_model@[(self.links@[i].source@, self.links@[i].target@)]
                        == self.links@[i].index as nat by {
                    if i != li {
                        assert(old(self).link_model@.contains_key(
                            (old(self).links@[i].source@, old(self).links@[i].target@),
                        ));
                    }
                }
                assert forall|k: (Seq<char>, Seq<char>)| #[trigger]
                    self.link_model@.contains_key(k) implies exists|i: int|
                        0 <= i < self.links.len() && #[trigger] self.links@[i].source@ == k.0
                            && self.links@[i].target@ == k.1 by {
                    let i = choose|i: int|
                        0 <= i < old(self).links.len() && #[trigger] old(self).links@[i].source@ == k.0
                            && old(self).links@[i].target@ == k.1;
                    assert(self.links@[i].source@ == k.0);
                }
                assert(self.link_model@.dom() =~= old(self).link_model@.dom());
            },
            None => {
                self.links.push(LinkEntry { source, target, index });
                self.link_model = Ghost(self.link_model@.insert(key, index as nat));
                let n = self.links.len() - 1;
                assert forall|i: int, j: int|
                    0 <= i < self.links.len() && 0 <= j < self.links.len()
                        && #[trigger] self.links@[i].source@ == #[trigger] self.links@[j].source@
                        && self.links@[i].target@ == self.links@[j].target@ implies i == j by {
                    if i < n && j == n {
                        assert(old(self).link_model@.contains_key(
                            (old(self).links@[i].source@, old(self).links@[i].target@),
                        ));
                    }
                    if j < n && i == n {
                        assert(old(self).link_model@.contains_key(
                            (old(self).links@[j].source@, old(self).links@[j].target@),
                        ));
                    }
                }
                assert forall|i: int|
                    0 <= i < self.links.len() implies #[trigger] self.link_model@.contains_key(
                        (self.links@[i].source@, self.links@[i].target@),
                    ) && self.link_model@[(self.links@[i].source@, self.links@[i].target@)]
                        == self.links@[i].index as nat by {
                    if i < n {
                        assert(old(self).link_model@.contains_key(
                            (old(self).links@[i].source@, old(self).links@[i].target@),
                        ));
                    }
                }
                assert forall|k: (Seq<char>, Seq<char>)| #[trigger]
                    self.link_model@.contains_key(k) implies exists|i: int|
                        0 <= i < self.links.len() && #[trigger] self.links@[i].source@ == k.0
                            && self.links@[i].target@ == k.1 by {
                    if k == key {
                        assert(self.links@[n as int].source@ == k.0);
                    } else {
                        let i = choose|i: int|
                            0 <= i < old(self).links.len() && #[trigger] old(self).links@[i].source@
                                == k.0 && old(self).links@[i].target@ == k.1;
                        assert(self.links@[i].source@ == k.0);
                    }
                }
                assert(self.link_model@.dom() =~= old(self).link_model@.dom().insert(key));
            },
        }
    }

    /// Takes out the record of link `(source, target)`, which is present.
    fn drop_link(&mut self, li: usize)
        requires
            old(self).links_ok(),
            li < old(self).links.len(),
        ensures
            final(self).links_ok(),
            final(self).link_model@ == old(self).link_model@.remove(
                (old(self).links@[li as int].source@, old(self).links@[li as int].target@),
            ),
            final(self).nodes == old(self).nodes,
            final(self).node_model == old(self).node_model,
    {
        let ghost key = (self.links@[li as int].source@, self.links@[li as int].target@);
        self.links.remove(li);
        self.link_model = Ghost(self.link_model@.remove(key));
        assert forall|i: int, j: int|
            0 <= i < self.links.len() && 0 <= j < self.links.len()
                && #[trigger] self.links@[i].source@ == #[trigger] self.links@[j].source@
                && self.links@[i].target@ == self.links@[j].target@ implies i == j by {
            let oi = if i < li { i } else { i + 1 };
            let oj = if j < li { j } else { j + 1 };
            assert(old(self).links@[oi].source@ == old(self).links@[oj].source@);
        }
        assert forall|i: int|
            0 <= i < self.links.len() implies #[trigger] self.link_model@.contains_key(
                (self.links@[i].source@, self.links@[i].target@),
            ) && self.link_model@[(self.links@[i].source@, self.links@[i].target@)]
                == self.links@[i].index as nat by {
            let oi = if i < li { i } else { i + 1 };
            assert(old(self).link_model@.contains_key(
                (old(self).links@[oi].source@, old(self).links@[oi].target@),
            ));
            assert(old(self).links@[oi].source@ == old(self).links@[li as int].source@ ==> old(self).links@[oi].target@ != old(self).links@[li as int].target@);
        }
        assert forall|k: (Seq<char>, Seq<char>)| #[trigger]
            self.link_model@.contains_key(k) implies exists|i: int|
                0 <= i < self.links.len() && #[trigger] self.links@[i].source@ == k.0
                    && self.links@[i].target@ == k.1 by {
            let oi = choose|i: int|
                0 <= i < old(self).links.len() && #[trigger] old(self).links@[i].source@ == k.0
                    && old(self).links@[i].target@ == k.1;
            assert(oi != li);
            let i = if oi < li { oi } else { oi - 1 };
            assert(self.links@[i].source@ == k.0);
        }
        assert(self.link_model@.dom() =~= old(self).link_model@.dom().remove(key));
    }

    /// Adds a node unless one with its id is already present.
    pub fn insert_node(&mut self, node: Node)
        requires
            old(self).wf(),
        ensures
            final(self).wf(),
            final(self)@ == (if old(self)@.nodes.contains_key(node.id@) {
                old(self)@
            } else {
                GraphView { nodes: old(self)@.nodes.insert(node.id@, node@), links: old(self)@.links }
            }),
    {
        if self.find_node(&node.id).is_none() {
            let ghost id = node.id@;
            let ghost nv = node@;
            self.nodes.push(node);
            self.node_model = Ghost(self.node_model@.insert(id, nv));
            assert forall|i: int, j: int|
                0 <= i < self.nodes.len() && 0 <= j < self.nodes.len() && #[trigger] self.nodes@[i].id@
                    == #[trigger] self.nodes@[j].id@ implies i == j by {
                if i < self.nodes.len() - 1 && j == self.nodes.len() - 1 {
                    assert(old(self).node_model@.contains_key(old(self).nodes@[i].id@));
                }
                if j < self.nodes.len() - 1 && i == self.nodes.len() - 1 {
                    assert(old(self).node_model@.contains_key(old(self).nodes@[j].id@));
                }
            }
            assert forall|i: int|
                0 <= i < self.nodes.len() implies #[trigger] self.node_model@.contains_key(
                    self.nodes@[i].id@,
                ) && self.node_model@[self.nodes@[i].id@] == self.nodes@[i]@ by {
                if i < self.nodes.len() - 1 {
                    assert(old(self).node_model@.contains_key(old(self).nodes@[i].id@));
                }
            }
            assert forall|k: Seq<char>| #[trigger]
                self.node_model@.contains_key(k) implies exists|i: int|
                    0 <= i < self.nodes.len() && #[trigger] self.nodes@[i].id@ == k by {
                if k == id {
                    assert(self.nodes@[self.nodes.len() - 1].id@ == k);
                } else {
                    let i = choose|i: int| 0 <= i < old(self).nodes.len() && #[trigger] old(self).nodes@[i].id@ == k;
                    assert(self.nodes@[i].id@ == k);
                }
            }
            assert(self.node_model@.dom() =~= old(self).node_model@.dom().insert(id));
            assert(self@.links_consistent()) by {
                assert forall|k: (Seq<char>, Seq<char>)| #[trigger]
                    self@.links.contains_key(k) implies self@.nodes.contains_key(k.0)
                        && self@.links[k] < self@.nodes[k.0].neighbours.len()
                        && self@.nodes[k.0].neighbours[self@.links[k] as int] == k.1 by {
                    assert(old(self)@.links.contains_key(k));
                }
            }
            assert(self.links@ == old(self).links@);
            assert(self.link_model == old(self).link_model);
            assert(self.nodes_ok());
            assert(self.links_ok());
            assert(self@.ids_match());
        }
    }

    /// Appends `target` to the neighbours of `source` and records the link
    /// at that last slot (over any earlier record of the same link).
    pub fn insert_link(&mut self, link: Link)
        requires
            old(self).wf(),
            old(self)@.nodes.contains_key(link.0@),
        ensures
            final(self).wf(),
            final(self)@ == old(self)@.with_link(link.0@, link.1@),
    {
        let (source, target) = link;
        let ni = match self.find_node(&source) {
            Some(ni) => ni,
            None => {
                assert(false);
                0
            },
        };
        assert(self.node_model@.contains_key(self.nodes@[ni as int].id@));
        let mut ns = self.replace_neighbours(ni, Vec::new());
        ns.push(target.clone());
        let index = ns.len() - 1;
        assert(texts(ns@) =~= old(self)@.nodes[source@].neighbours.push(target@));
        let _ = self.replace_neighbours(ni, ns);
        self.set_link(source, target, index);
        assert(self@.links_consistent()) by {
            assert forall|k: (Seq<char>, Seq<char>)| #[trigger]
                self@.links.contains_key(k) implies self@.nodes.contains_key(k.0)
                    && self@.links[k] < self@.nodes[k.0].neighbours.len()
                    && self@.nodes[k.0].neighbours[self@.links[k] as int] == k.1 by {
                if k != (source@, target@) {
                    assert(old(self)@.links.contains_key(k));
                }
            }
        }
        assert(self@.nodes =~= old(self)@.with_link(source@, target@).nodes);
        assert(self@.links =~= old(self)@.with_link(source@, target@).links);
    }

    /// Removes link `(source, target)`: the last neighbour of `source` moves
    /// into the freed slot and its own link is pointed at that slot.
    #[verifier::spinoff_prover]
    pub fn remove_link(&mut self, link: &Link)
        requires
            old(self).wf(),
            old(self)@.links.contains_key((link.0@, link.1@)),
        ensures
            final(self).wf(),
            final(self)@ == old(self)@.unlink(link.0@, link.1@),
    {
        let ghost g = self@;
        let ghost s = link.0@;
        let ghost t = link.1@;
        let li = match self.find_link(&link.0, &link.1) {
            Some(li) => li,
            None => {
                assert(false);
                0
            },
        };
        assert(self.link_model@.contains_key((self.links@[li as int].source@, self.links@[li as int].target@)));
        let index = self.links[li].index;
        self.drop_link(li);
        let ni = match self.find_node(&link.0) {
            Some(ni) => ni,
            None => {
                assert(false);
                0
            },
        };
        assert(self.node_model@.contains_key(self.nodes@[ni as int].id@));
        let mut ns = self.replace_neighbours(ni, Vec::new());
        let last = ns.len() - 1;
        let ghost nsv = texts(ns@);
        ns.swap_remove(index);
        let moved = if index < last {
            Some(ns[index].clone())
        } else {
            None
        };
        assert(texts(ns@) =~= nsv.update(index as int, nsv[last as int]).drop_last());
        let _ = self.replace_neighbours(ni, ns);
        match moved {
            Some(m) => {
                self.set_link(link.0.clone(), m, index);
            },
            None => {},
        }
        assert(self@.nodes =~= g.unlink(s, t).nodes);
        assert(self@.links =~= g.unlink(s, t).links);
        assert(self.nodes_ok());
        assert(self.links_ok());
        assert(self@.ids_match());
        assert(self@.links_consistent()) by {
            assert forall|k: (Seq<char>, Seq<char>)| #[trigger]
                self@.links.contains_key(k) implies self@.nodes.contains_key(k.0)
                    && self@.links[k] < self@.nodes[k.0].neighbours.len()
                    && self@.nodes[k.0].neighbours[self@.links[k] as int] == k.1 by {
                if !(index < last && k == (s, nsv[last as int])) {
                    assert(g.links.contains_key(k));
                }
            }
        }
    }

    /// Removes the node `node_id` after removing, for each of its neighbours
    /// `n` in order, the links `(node_id, n)` and `(n, node_id)`.
    #[verifier::spinoff_prover]
    pub fn remove_node(&mut self, node_id: &str)
        requires
            old(self).wf(),
            old(self)@.removable(node_id@),
        ensures
            final(self).wf(),
            final(self)@ == old(self)@.without_node(node_id@),
    {
        let ghost g = self@;
        let ghost id = node_id@;
        let ni = match self.find_node(node_id) {
            Some(ni) => ni,
            None => {
                assert(false);
                0
            },
        };
        assert(self.node_model@.contains_key(self.nodes@[ni as int].id@));
        let ns = copy_strings(&self.nodes[ni].neighbours);
        let ghost nsv = texts(ns@);
        let key = node_id.to_owned();
        let mut j: usize = 0;
        while j < ns.len()
            invariant
                self.wf(),
                g.removable(id),
                nsv == g.nodes[id].neighbours,
                nsv == texts(ns@),
                key@ == id,
                j <= ns.len(),
                self@ == g.unlink_first(id, nsv, j as nat),
                self@.nodes.contains_key(id),
                self@.nodes[id].neighbours.len() == ns.len() - j,
                forall|m: int|
                    j <= m < ns.len() ==> self@.links.contains_key((id, #[trigger] nsv[m]))
                        && self@.links.contains_key((nsv[m], id)),
            decreases ns.len() - j,
        {
            let ghost h = self@;
            let ghost n = nsv[j as int];
            assert(n != id);
            self.remove_link(&(key.clone(), ns[j].clone()));
            assert forall|m: int| j < m < ns.len() implies self@.links.contains_key((id, #[trigger] nsv[m]))
                    && self@.links.contains_key((nsv[m], id)) by {
                assert(h.links.contains_key((id, nsv[m])));
                assert(h.links.contains_key((nsv[m], id)));
                assert(nsv[m] != n);
                assert(nsv[m] != id);
            }
            assert(self@.links.contains_key((n, id)));
            let ghost h2 = self@;
            self.remove_link(&(ns[j].clone(), key.clone()));
            assert forall|m: int| j < m < ns.len() implies self@.links.contains_key((id, #[trigger] nsv[m]))
                    && self@.links.contains_key((nsv[m], id)) by {
                assert(h2.links.contains_key((id, nsv[m])));
                assert(h2.links.contains_key((nsv[m], id)));
                assert(nsv[m] != n);
            }
            j = j + 1;
        }
        let ghost h = self@;
        assert forall|k: (Seq<char>, Seq<char>)| #[trigger] h.links.contains_key(k) implies k.0 != id by {
            if k.0 == id {
                assert(h.links[k] < h.nodes[k.0].neighbours.len());
            }
        }
        let ni = match self.find_node(node_id) {
            Some(ni) => ni,
            None => {
                assert(false);
                0
            },
        };
        let ghost before = *self;
        self.nodes.remove(ni);
        self.node_model = Ghost(self.node_model@.remove(id));
        assert(self.links@ == before.links@);
        assert(self.link_model == before.link_model);
        assert forall|i: int, j: int|
            0 <= i < self.nodes.len() && 0 <= j < self.nodes.len() && #[trigger] self.nodes@[i].id@
                == #[trigger] self.nodes@[j].id@ implies i == j by {
            let oi = if i < ni { i } else { i + 1 };
            let oj = if j < ni { j } else { j + 1 };
            assert(before.nodes@[oi].id@ == before.nodes@[oj].id@);
        }
        assert forall|i: int|
            0 <= i < self.nodes.len() implies #[trigger] self.node_model@.contains_key(
                self.nodes@[i].id@,
            ) && self.node_model@[self.nodes@[i].id@] == self.nodes@[i]@ by {
            let oi = if i < ni { i } else { i + 1 };
            assert(before.node_model@.contains_key(before.nodes@[oi].id@));
            assert(before.nodes@[oi].id@ != before.nodes@[ni as int].id@);
        }
        assert forall|k: Seq<char>| #[trigger]
            self.node_model@.contains_key(k) implies exists|i: int|
                0 <= i < self.nodes.len() && #[trigger] self.nodes@[i].id@ == k by {
            let oi = choose|i: int| 0 <= i < before.nodes.len() && #[trigger] before.nodes@[i].id@ == k;
            assert(oi != ni);
            let i = if oi < ni { oi } else { oi - 1 };
            assert(self.nodes@[i].id@ == k);
        }
        assert(self.node_model@.dom() =~= before.node_model@.dom().remove(id));
        assert(self.nodes_ok());
        assert(self.links_ok());
        assert(self@.links_consistent()) by {
            assert forall|k: (Seq<char>, Seq<char>)| #[trigger]
                self@.links.contains_key(k) implies self@.nodes.contains_key(k.0)
                    && self@.links[k] < self@.nodes[k.0].neighbours.len()
                    && self@.nodes[k.0].neighbours[self@.links[k] as int] == k.1 by {
                assert(h.links.contains_key(k));
            }
        }
        assert(self@ == g.without_node(id));
    }

    /// The ids of all nodes, each once.
    pub fn node_ids(&self) -> (r: Vec<String>)
        requires
            self.wf(),
        ensures
            texts(r@).no_duplicates(),
            forall|i: int| 0 <= i < r.len() ==> self@.nodes.contains_key(#[trigger] r@[i]@),
            forall|id: Seq<char>| #[trigger] self@.nodes.contains_key(id) ==> texts(r@).contains(id),
    {
        let mut r: Vec<String> = Vec::new();
        let mut i: usize = 0;
        while i < self.nodes.len()
            invariant
                self.wf(),
                i <= self.nodes.len(),
                r.len() == i,
                forall|j: int| 0 <= j < i ==> #[trigger] r@[j]@ == self.nodes@[j].id@,
            decreases self.nodes.len() - i,
        {
            r.push(self.nodes[i].id.clone());
            i = i + 1;
        }
        assert forall|a: int, b: int| 0 <= a < r.len() && 0 <= b < r.len() && a != b implies texts(r@)[a] != texts(r@)[b] by {
            assert(r@[a]@ == self.nodes@[a].id@);
            assert(r@[b]@ == self.nodes@[b].id@);
        }
        assert forall|j: int| 0 <= j < r.len() implies self@.nodes.contains_key(#[trigger] r@[j]@) by {
            assert(r@[j]@ == self.nodes@[j].id@);
        }
        assert forall|id: Seq<char>| #[trigger] self@.nodes.contains_key(id) implies texts(r@).contains(id) by {
            let j = choose|j: int| 0 <= j < self.nodes.len() && #[trigger] self.nodes@[j].id@ == id;
            assert(texts(r@)[j] == id);
        }
        r
    }

    /// All directed links as (source, target) pairs, each once.
    pub fn link_keys(&self) -> (r: Vec<(String, String)>)
        requires
            self.wf(),
        ensures
            r.len() == self@.links.dom().len(),
            forall|i: int, j: int|
                0 <= i < r.len() && 0 <= j < r.len() && i != j ==> !(#[trigger] r@[i].0@ == #[trigger] r@[j].0@
                    && r@[i].1@ == r@[j].1@),
            forall|i: int| 0 <= i < r.len() ==> self@.links.contains_key(
                (#[trigger] r@[i].0@, r@[i].1@),
            ),
            forall|k: (Seq<char>, Seq<char>)| #[trigger] self@.links.contains_key(k) ==> exists|i: int|
                0 <= i < r.len() && #[trigger] r@[i].0@ == k.0 && r@[i].1@ == k.1,
    {
        let mut r: Vec<(String, String)> = Vec::new();
        let mut i: usize = 0;
        while i < self.links.len()
            invariant
                self.wf(),
                i <= self.links.len(),
                r.len() == i,
                forall|j: int| 0 <= j < i ==> #[trigger] r@[j].0@ == self.links@[j].source@ && r@[j].1@ == self.links@[j].target@,
            decreases self.links.len() - i,
        {
            let s = self.links[i].source.clone();
            let t = self.links[i].target.clone();
            let ghost r0 = r@;
            r.push((s, t));
            assert forall|j: int| 0 <= j <= i implies #[trigger] r@[j].0@ == self.links@[j].source@ && r@[j].1@ == self.links@[j].target@ by {
                if j < i {
                    assert(r@[j] == r0[j]);
                }
            }
            i = i + 1;
        }
        assert forall|i: int, j: int|
            0 <= i < r.len() && 0 <= j < r.len() && i != j implies !(#[trigger] r@[i].0@ == #[trigger] r@[j].0@
                && r@[i].1@ == r@[j].1@) by {
            assert(r@[i].0@ == self.links@[i].source@);
            assert(r@[j].0@ == self.links@[j].source@);
        }
        assert forall|j: int| 0 <= j < r.len() implies self@.links.contains_key((#[trigger] r@[j].0@, r@[j].1@)) by {
            assert(r@[j].0@ == self.links@[j].source@);
            assert(self.link_model@.contains_key((self.links@[j].source@, self.links@[j].target@)));
        }
        assert forall|k: (Seq<char>, Seq<char>)| #[trigger] self@.links.contains_key(k) implies exists|i: int|
                0 <= i < r.len() && #[trigger] r@[i].0@ == k.0 && r@[i].1@ == k.1 by {
            let j = choose|j: int| 0 <= j < self.links.len() && #[trigger] self.links@[j].source@ == k.0 && self.links@[j].target@ == k.1;
            assert(r@[j].0@ == k.0);
        }
        r
    }

    /// A well-formed store holds finitely many nodes.
    pub proof fn lemma_nodes_finite(&self)
        requires
            self.wf(),
        ensures
            self@.nodes.dom().finite(),
    {
    }

    /// Whatever sequence of operations built a store, each link it holds
    /// names a present source whose neighbour at the recorded slot is the
    /// link's target: every operation keeps `wf`, and `wf` says so.
    pub proof fn lemma_link_slots(&self)
        requires
            self.wf(),
        ensures
            forall|s: Seq<char>, t: Seq<char>| #[trigger] self@.links.contains_key((s, t)) ==> {
                &&& self@.nodes.contains_key(s)
                &&& self@.links[(s, t)] < self@.nodes[s].neighbours.len()
                &&& self@.nodes[s].neighbours[self@.links[(s, t)] as int] == t
            },
    {
        assert forall|s: Seq<char>, t: Seq<char>| #[trigger] self@.links.contains_key((s, t)) implies {
            &&& self@.nodes.contains_key(s)
            &&& self@.links[(s, t)] < self@.nodes[s].neighbours.len()
            &&& self@.nodes[s].neighbours[self@.links[(s, t)] as int] == t
        } by {
            let k = (s, t);
            assert(self@.links.contains_key(k));
        }
    }
}

} // verus!
