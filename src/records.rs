//! The record format: one record per line, fields split by a separator
//! character. A line of three fields is a node (id, latitude, longitude); a
//! line of two fields is an undirected link between two declared nodes.

use vstd::prelude::*;
use crate::graph::{Graph, GraphView, Node, NodeView};
use crate::ids::{text_less, text_lt};
use crate::topology::{lemma_add_isolated_simple, lemma_link_pair_simple};

verus! {

/// Why a record cannot be loaded.
#[derive(Debug, PartialEq, Eq, Structural)]
pub enum LoadError {
    /// The line has neither two nor three fields; the count is given.
    WrongFieldCount(usize),
    /// A link names an id that no earlier node record declared.
    UnknownNode,
    /// A link joins a node with itself.
    SelfLoop,
}

/// The pieces of `s` between occurrences of `c` (one more than there are `c`s).
pub open spec fn split_on(s: Seq<char>, c: char) -> Seq<Seq<char>>
    decreases s.len(),
{
    if s.len() == 0 {
        seq![Seq::empty()]
    } else {
        let p = split_on(s.drop_last(), c);
        if s.last() == c {
            p.push(Seq::empty())
        } else {
            p.update(p.len() - 1, p.last().push(s.last()))
        }
    }
}

proof fn lemma_split_on_nonempty(s: Seq<char>, c: char)
    ensures
        split_on(s, c).len() >= 1,
    decreases s.len(),
{
    if s.len() > 0 {
        lemma_split_on_nonempty(s.drop_last(), c);
    }
}

/// The lines of `s`, as `str::lines` gives them: split at `\n`, a `\r`
/// before a `\n` dropped, and no empty last line after a final `\n`.
pub open spec fn lines_of(s: Seq<char>) -> Seq<Seq<char>> {
    let p = split_on(s, '\n');
    let n = if p.last().len() == 0 { p.len() - 1 } else { p.len() as int };
    Seq::new(
        n as nat,
        |i: int|
            if i < p.len() - 1 && p[i].len() > 0 && p[i].last() == '\r' {
                p[i].drop_last()
            } else {
                p[i]
            },
    )
}

/// The graph after one record, or why the record is refused. A node record
/// of an id already present changes nothing; so does a link record of two
/// nodes already linked.
pub open spec fn apply_record(g: GraphView, fields: Seq<Seq<char>>) -> Result<GraphView, LoadError> {
    if fields.len() == 3 {
        if g.nodes.contains_key(fields[0]) {
            Ok(g)
        } else {
            Ok(
                GraphView {
                    nodes: g.nodes.insert(
                        fields[0],
                        NodeView {
                            id: fields[0],
                            latitude: fields[1],
                            longitude: fields[2],
                            neighbours: Seq::empty(),
                        },
                    ),
                    links: g.links,
                },
            )
        }
    } else if fields.len() == 2 {
        if !g.nodes.contains_key(fields[0]) || !g.nodes.contains_key(fields[1]) {
            Err(LoadError::UnknownNode)
        } else if fields[0] == fields[1] {
            Err(LoadError::SelfLoop)
        } else if g.links.contains_key((fields[0], fields[1])) {
            Ok(g)
        } else {
            Ok(g.with_link(fields[0], fields[1]).with_link(fields[1], fields[0]))
        }
    } else {
        Err(LoadError::WrongFieldCount(fields.len() as usize))
    }
}

/// The graph after the first `n` lines, or the first refusal.
pub open spec fn apply_lines(g: GraphView, lines: Seq<Seq<char>>, sep: char, n: nat) -> Result<GraphView, LoadError>
    decreases n,
{
    if n == 0 {
        Ok(g)
    } else {
        match apply_lines(g, lines, sep, (n - 1) as nat) {
            Ok(h) => apply_record(h, split_on(lines[n - 1], sep)),
            Err(e) => Err(e),
        }
    }
}

/// The fields of `line` between occurrences of `separator`.
pub fn split_fields(line: &str, separator: char) -> (r: Vec<String>)
    ensures
        r@.map_values(|s: String| s@) == split_on(line@, separator),
{
    let n = line.unicode_len();
    let mut fields: Vec<String> = Vec::new();
    let mut start: usize = 0;
    let mut i: usize = 0;
    assert(line@.take(0) =~= Seq::<char>::empty());
    assert(fields@.map_values(|s: String| s@).push(line@.subrange(0, 0)) =~= seq![Seq::<char>::empty()]);
    while i < n
        invariant
            n == line@.len(),
            start <= i <= n,
            fields@.map_values(|s: String| s@).push(line@.subrange(start as int, i as int)) == split_on(
                line@.take(i as int),
                separator,
            ),
        decreases n - i,
    {
        let c = line.get_char(i);
        let ghost before = fields@.map_values(|s: String| s@);
        assert(line@.take(i + 1).drop_last() =~= line@.take(i as int));
        assert(line@.take(i + 1).last() == c);
        if c == separator {
            let piece = line.substring_char(start, i).to_owned();
            let ghost pv = piece@;
            fields.push(piece);
            start = i + 1;
            assert(fields@.map_values(|s: String| s@) =~= before.push(pv));
            assert(line@.subrange(start as int, i + 1) =~= Seq::<char>::empty());
            assert(fields@.map_values(|s: String| s@).push(line@.subrange(start as int, i + 1)) =~= split_on(line@.take(i + 1), separator));
        } else {
            assert(line@.subrange(start as int, i + 1) =~= line@.subrange(start as int, i as int).push(c));
        }
        i = i + 1;
    }
    let last = line.substring_char(start, n).to_owned();
    let ghost before = fields@.map_values(|s: String| s@);
    fields.push(last);
    assert(line@.take(n as int) =~= line@);
    assert(fields@.map_values(|s: String| s@) =~= before.push(last@));
    fields
}

impl Graph {
    /// Loads one record line into a simple graph: a node record adds the
    /// node unless its id is present; a link record links two declared,
    /// distinct nodes both ways unless they are linked already.
    pub fn add_record(&mut self, line: &str, separator: char) -> (r: Result<(), LoadError>)
        requires
            old(self).wf(),
            old(self)@.is_simple(),
        ensures
            final(self).wf(),
            final(self)@.is_simple(),
            match apply_record(old(self)@, split_on(line@, separator)) {
                Ok(h) => r is Ok && final(self)@ == h,
                Err(e) => r == Err::<(), LoadError>(e) && final(self)@ == old(self)@,
            },
    {
        let fields = split_fields(line, separator);
        let ghost fv = fields@.map_values(|s: String| s@);
        if fields.len() == 3 {
            assert(fields@[0]@ == fv[0] && fields@[1]@ == fv[1] && fields@[2]@ == fv[2]);
            if !self.contains_node(&fields[0]) {
                let node = Node {
                    id: fields[0].clone(),
                    latitude: fields[1].clone(),
                    longitude: fields[2].clone(),
                    neighbours: Vec::new(),
                };
                assert(node@.neighbours =~= Seq::<Seq<char>>::empty());
                proof {
                    lemma_add_isolated_simple(self@, node@);
                }
                self.insert_node(node);
            }
            Ok(())
        } else if fields.len() == 2 {
            assert(fields@[0]@ == fv[0] && fields@[1]@ == fv[1]);
            if !self.contains_node(&fields[0]) || !self.contains_node(&fields[1]) {
                Err(LoadError::UnknownNode)
            } else if fields[0] == fields[1] {
                Err(LoadError::SelfLoop)
            } else if self.contains_link(&fields[0], &fields[1]) {
                Ok(())
            } else {
                proof {
                    lemma_link_pair_simple(self@, fv[0], fv[1]);
                }
                self.insert_link((fields[0].clone(), fields[1].clone()));
                self.insert_link((fields[1].clone(), fields[0].clone()));
                Ok(())
            }
        } else {
            Err(LoadError::WrongFieldCount(fields.len()))
        }
    }

    /// Loads a graph from record lines; the first refused record ends the load.
    #[verifier::spinoff_prover]
    pub fn _from(input: &str, separator: char) -> (r: Result<Graph, LoadError>)
        ensures
            match apply_lines(Graph::new_view(), lines_of(input@), separator, lines_of(input@).len()) {
                Ok(h) => r is Ok && r->Ok_0.wf() && r->Ok_0@.is_simple() && r->Ok_0@ == h,
                Err(e) => r == Err::<Graph, LoadError>(e),
            },
    {
        let pieces = split_fields(input, '\n');
        let ghost p = pieces@.map_values(|s: String| s@);
        let ghost lines = lines_of(input@);
        proof {
            lemma_split_on_nonempty(input@, '\n');
        }
        let count = if pieces[pieces.len() - 1].unicode_len() == 0 {
            pieces.len() - 1
        } else {
            pieces.len()
        };
        assert(pieces@[pieces.len() - 1]@ == p.last());
        assert(count == lines.len());
        let mut graph = Graph::new();
        assert(graph@.is_simple());
        assert(graph@ == Graph::new_view());
        let mut i: usize = 0;
        while i < count
            invariant
                count == lines.len(),
                count <= pieces.len(),
                p == pieces@.map_values(|s: String| s@),
                p == split_on(input@, '\n'),
                lines == lines_of(input@),
                i <= count,
                graph.wf(),
                graph@.is_simple(),
                apply_lines(Graph::new_view(), lines, separator, i as nat) == Ok::<GraphView, LoadError>(graph@),
            decreases count - i,
        {
            let piece = pieces[i].as_str();
            assert(piece@ == p[i as int]);
            let len = piece.unicode_len();
            let line = if i + 1 < pieces.len() && len > 0 && piece.get_char(len - 1) == '\r' {
                piece.substring_char(0, len - 1)
            } else {
                piece
            };
            assert(line@ =~= lines[i as int]);
            match graph.add_record(line, separator) {
                Ok(()) => {},
                Err(e) => {
                    proof {
                        lemma_apply_lines_stops(Graph::new_view(), lines, separator, (i + 1) as nat, count as nat);
                    }
                    return Err(e);
                },
            }
            i = i + 1;
        }
        Ok(graph)
    }

    /// The link records of the graph: each link once, from its smaller end.
    pub fn undirected_links(&self) -> (r: Vec<(String, String)>)
        requires
            self.wf(),
        ensures
            forall|i: int, j: int|
                0 <= i < r.len() && 0 <= j < r.len() && i != j ==> !(#[trigger] r@[i].0@ == #[trigger] r@[j].0@
                    && r@[i].1@ == r@[j].1@),
            forall|i: int| 0 <= i < r.len() ==> self@.links.contains_key((#[trigger] r@[i].0@, r@[i].1@)) && text_lt(r@[i].0@, r@[i].1@),
            forall|k: (Seq<char>, Seq<char>)| #[trigger] self@.links.contains_key(k) && text_lt(k.0, k.1) ==> exists|i: int|
                0 <= i < r.len() && #[trigger] r@[i].0@ == k.0 && r@[i].1@ == k.1,
    {
        let keys = self.link_keys();
        let mut r: Vec<(String, String)> = Vec::new();
        let mut i: usize = 0;
        while i < keys.len()
            invariant
                i <= keys.len(),
                forall|a: int, b: int|
                    0 <= a < keys.len() && 0 <= b < keys.len() && a != b ==> !(#[trigger] keys@[a].0@ == #[trigger] keys@[b].0@
                        && keys@[a].1@ == keys@[b].1@),
                forall|j: int| 0 <= j < r.len() ==> exists|m: int| 0 <= m < i && #[trigger] r@[j].0@ == keys@[m].0@ && r@[j].1@ == keys@[m].1@,
                forall|a: int, b: int|
                    0 <= a < r.len() && 0 <= b < r.len() && a != b ==> !(#[trigger] r@[a].0@ == #[trigger] r@[b].0@
                        && r@[a].1@ == r@[b].1@),
                forall|m: int| 0 <= m < keys.len() ==> self@.links.contains_key((#[trigger] keys@[m].0@, keys@[m].1@)),
                forall|j: int| 0 <= j < r.len() ==> self@.links.contains_key((#[trigger] r@[j].0@, r@[j].1@)) && text_lt(r@[j].0@, r@[j].1@),
                forall|m: int| 0 <= m < i && text_lt(keys@[m].0@, keys@[m].1@) ==> exists|j: int|
                    0 <= j < r.len() && #[trigger] r@[j].0@ == keys@[m].0@ && r@[j].1@ == keys@[m].1@,
            decreases keys.len() - i,
        {
            if text_less(&keys[i].0, &keys[i].1) {
                let ghost r0 = r@;
                r.push((keys[i].0.clone(), keys[i].1.clone()));
                assert(r@[r.len() - 1].0@ == keys@[i as int].0@);
                assert forall|j: int| 0 <= j < r.len() implies exists|m: int| 0 <= m < i + 1 && #[trigger] r@[j].0@ == keys@[m].0@ && r@[j].1@ == keys@[m].1@ by {
                    if j < r0.len() {
                        assert(r@[j] == r0[j]);
                        let m = choose|m: int| 0 <= m < i && #[trigger] r0[j].0@ == keys@[m].0@ && r0[j].1@ == keys@[m].1@;
                        assert(r@[j].0@ == keys@[m].0@);
                    } else {
                        assert(r@[j].0@ == keys@[i as int].0@);
                    }
                }
                assert forall|a: int, b: int|
                    0 <= a < r.len() && 0 <= b < r.len() && a != b implies !(#[trigger] r@[a].0@ == #[trigger] r@[b].0@
                        && r@[a].1@ == r@[b].1@) by {
                    if a < r0.len() && b < r0.len() {
                        assert(r@[a] == r0[a]);
                        assert(r@[b] == r0[b]);
                    } else if a < r0.len() {
                        assert(r@[a] == r0[a]);
                        let m = choose|m: int| 0 <= m < i && #[trigger] r0[a].0@ == keys@[m].0@ && r0[a].1@ == keys@[m].1@;
                        assert(keys@[m].0@ != keys@[i as int].0@ || keys@[m].1@ != keys@[i as int].1@);
                    } else if b < r0.len() {
                        assert(r@[b] == r0[b]);
                        let m = choose|m: int| 0 <= m < i && #[trigger] r0[b].0@ == keys@[m].0@ && r0[b].1@ == keys@[m].1@;
                        assert(keys@[m].0@ != keys@[i as int].0@ || keys@[m].1@ != keys@[i as int].1@);
                    }
                }
                assert forall|j: int| 0 <= j < r.len() implies self@.links.contains_key((#[trigger] r@[j].0@, r@[j].1@)) && text_lt(r@[j].0@, r@[j].1@) by {
                    if j < r0.len() {
                        assert(r@[j] == r0[j]);
                    }
                }
                assert forall|m: int| 0 <= m < i + 1 && text_lt(keys@[m].0@, keys@[m].1@) implies exists|j: int|
                    0 <= j < r.len() && #[trigger] r@[j].0@ == keys@[m].0@ && r@[j].1@ == keys@[m].1@ by {
                    if m < i {
                        let j = choose|j: int| 0 <= j < r0.len() && #[trigger] r0[j].0@ == keys@[m].0@ && r0[j].1@ == keys@[m].1@;
                        assert(r@[j] == r0[j]);
                    } else {
                        assert(r@[r.len() - 1].0@ == keys@[m].0@);
                    }
                }
            }
            i = i + 1;
        }
        assert forall|k: (Seq<char>, Seq<char>)| #[trigger] self@.links.contains_key(k) && text_lt(k.0, k.1) implies exists|i: int|
            0 <= i < r.len() && #[trigger] r@[i].0@ == k.0 && r@[i].1@ == k.1 by {
            let m = choose|m: int| 0 <= m < keys.len() && #[trigger] keys@[m].0@ == k.0 && keys@[m].1@ == k.1;
        }
        r
    }

    /// The view of an empty graph.
    pub open spec fn new_view() -> GraphView {
        GraphView { nodes: Map::empty(), links: Map::empty() }
    }
}

/// After a refused line, later lines do not change the outcome.
proof fn lemma_apply_lines_stops(g: GraphView, lines: Seq<Seq<char>>, sep: char, i: nat, n: nat)
    requires
        i <= n,
        apply_lines(g, lines, sep, i) is Err,
    ensures
        apply_lines(g, lines, sep, n) == apply_lines(g, lines, sep, i),
    decreases n - i,
{
    if i < n {
        lemma_apply_lines_stops(g, lines, sep, i, (n - 1) as nat);
    }
}

} // verus!
