//! Map XML as one element per line: the rows of a `<node>` or `<way>`
//! element that spans several lines are joined into one.

use vstd::prelude::*;

verus! {

/// `s` begins with `p`.
pub open spec fn starts_with(s: Seq<char>, p: Seq<char>) -> bool {
    p.len() <= s.len() && s.take(p.len() as int) == p
}

/// `s` ends with `p`.
pub open spec fn ends_with(s: Seq<char>, p: Seq<char>) -> bool {
    p.len() <= s.len() && s.skip(s.len() - p.len()) == p
}

/// `p` occurs in `s`.
pub open spec fn occurs_in(s: Seq<char>, p: Seq<char>) -> bool {
    exists|i: int| 0 <= i && i + p.len() <= s.len() && #[trigger] s.subrange(i, i + p.len()) == p
}

/// Whether `s` holds `p` at position `at`.
fn matches_at(s: &str, n: usize, p: &str, at: usize) -> (r: bool)
    requires
        n == s@.len(),
        at + p@.len() <= n,
    ensures
        r == (s@.subrange(at as int, at + p@.len()) == p@),
{
    let m = p.unicode_len();
    let mut i: usize = 0;
    while i < m
        invariant
            m == p@.len(),
            n == s@.len(),
            at + m <= n,
            i <= m,
            forall|j: int| 0 <= j < i ==> s@[at + j] == p@[j],
        decreases m - i,
    {
        if s.get_char(at + i) != p.get_char(i) {
            assert(s@.subrange(at as int, at + m)[i as int] != p@[i as int]);
            return false;
        }
        i = i + 1;
    }
    assert(s@.subrange(at as int, at + m) =~= p@);
    true
}

/// Whether `s` begins with `p`.
pub fn text_starts_with(s: &str, p: &str) -> (r: bool)
    ensures
        r == starts_with(s@, p@),
{
    let n = s.unicode_len();
    let m = p.unicode_len();
    if m > n {
        return false;
    }
    let r = matches_at(s, n, p, 0);
    assert(s@.subrange(0, m as int) =~= s@.take(m as int));
    r
}

/// Whether `s` ends with `p`.
pub fn text_ends_with(s: &str, p: &str) -> (r: bool)
    ensures
        r == ends_with(s@, p@),
{
    let n = s.unicode_len();
    let m = p.unicode_len();
    if m > n {
        return false;
    }
    let r = matches_at(s, n, p, n - m);
    assert(s@.subrange((n - m) as int, n as int) =~= s@.skip(n - m));
    r
}

/// Whether `p` occurs in `s`.
pub fn text_contains(s: &str, p: &str) -> (r: bool)
    ensures
        r == occurs_in(s@, p@),
{
    let n = s.unicode_len();
    let m = p.unicode_len();
    if m > n {
        return false;
    }
    if m == 0 {
        assert(s@.subrange(0, 0 + p@.len() as int) =~= p@);
        return true;
    }
    let mut at: usize = 0;
    while at <= n - m
        invariant
            n == s@.len(),
            m == p@.len(),
            1 <= m <= n,
            at <= n - m + 1,
            forall|i: int| 0 <= i < at ==> #[trigger] s@.subrange(i, i + m) != p@,
        decreases n - m + 1 - at,
    {
        if matches_at(s, n, p, at) {
            return true;
        }
        at = at + 1;
    }
    false
}

/// `c` has the Unicode property White_Space, as `char::is_whitespace` says.
pub open spec fn white_space(c: char) -> bool {
    let n = c as int;
    ||| 0x9 <= n <= 0xD
    ||| n == 0x20
    ||| n == 0x85
    ||| n == 0xA0
    ||| n == 0x1680
    ||| 0x2000 <= n <= 0x200A
    ||| n == 0x2028
    ||| n == 0x2029
    ||| n == 0x202F
    ||| n == 0x205F
    ||| n == 0x3000
}

/// The text without its leading white space.
pub open spec fn trimmed_start(s: Seq<char>) -> Seq<char>
    decreases s.len(),
{
    if s.len() > 0 && white_space(s[0]) {
        trimmed_start(s.drop_first())
    } else {
        s
    }
}

/// The text without its trailing white space.
pub open spec fn trimmed_end(s: Seq<char>) -> Seq<char>
    decreases s.len(),
{
    if s.len() > 0 && white_space(s.last()) {
        trimmed_end(s.drop_last())
    } else {
        s
    }
}

/// The text with leading and trailing white space removed.
pub open spec fn trimmed(s: Seq<char>) -> Seq<char> {
    trimmed_end(trimmed_start(s))
}

/// Relies on `str::trim`, which removes leading and trailing characters
/// with the White_Space property.
#[verifier::external_body]
fn trim_text(s: &str) -> (r: String)
    ensures
        r@ == trimmed(s@),
{
    s.trim().to_string()
}

/// The joining state: the rows gathered so far, and whether a `<node>` or
/// a `<way>` element is open.
pub struct XmlJoiner {
    pub data: String,
    pub node: bool,
    pub way: bool,
}

/// The joining state as values.
pub struct JoinerView {
    pub data: Seq<char>,
    pub node: bool,
    pub way: bool,
}

impl View for XmlJoiner {
    type V = JoinerView;

    open spec fn view(&self) -> JoinerView {
        JoinerView { data: self.data@, node: self.node, way: self.way }
    }
}

/// The state after `row` (`.0`) and the lines that `row` completes (`.1`):
/// a self-closing `<node .../>` or `<way .../>` row is a line of its own;
/// an opening `<node` or `<way` row starts gathering; an open element
/// gathers the row; a closing `</node>` or `</way>` ends the element and
/// gives the gathered text as a line.
pub open spec fn feed_row(st: JoinerView, row: Seq<char>) -> (JoinerView, Seq<Seq<char>>) {
    let node_open = starts_with(row, "<node"@);
    let way_open = starts_with(row, "<way"@);
    let closed = ends_with(row, "/>"@);
    let out0: Seq<Seq<char>> = if node_open && closed { seq![row] } else { Seq::empty() };
    let out1 = if way_open && closed { out0.push(row) } else { out0 };
    let st1 = if node_open && !closed { JoinerView { data: Seq::empty(), node: true, ..st } } else { st };
    let st2 = if way_open && !closed { JoinerView { data: Seq::empty(), way: true, ..st1 } } else { st1 };
    let st3 = if st2.node || st2.way { JoinerView { data: st2.data + row, ..st2 } } else { st2 };
    let node_end = occurs_in(row, "</node>"@);
    let way_end = occurs_in(row, "</way>"@);
    let st4 = if node_end { JoinerView { node: false, ..st3 } } else { st3 };
    let out2 = if node_end { out1.push(st4.data) } else { out1 };
    let st5 = if way_end { JoinerView { way: false, ..st4 } } else { st4 };
    let out3 = if way_end { out2.push(st5.data) } else { out2 };
    (st5, out3)
}

impl XmlJoiner {
    /// Nothing gathered, no element open.
    pub fn new() -> (r: XmlJoiner)
        ensures
            r@ == (JoinerView { data: Seq::empty(), node: false, way: false }),
    {
        XmlJoiner { data: String::new(), node: false, way: false }
    }

    /// Takes one row, already trimmed, and returns the lines it completes.
    pub fn feed(&mut self, row: &str) -> (r: Vec<String>)
        ensures
            final(self)@ == feed_row(old(self)@, row@).0,
            r@.map_values(|s: String| s@) == feed_row(old(self)@, row@).1,
    {
        let ghost st = self@;
        let node_open = text_starts_with(row, "<node");
        let way_open = text_starts_with(row, "<way");
        let closed = text_ends_with(row, "/>");
        let mut out: Vec<String> = Vec::new();
        if node_open && closed {
            out.push(row.to_owned());
        }
        if way_open && closed {
            out.push(row.to_owned());
        }
        if node_open && !closed {
            self.node = true;
            self.data = String::new();
        }
        if way_open && !closed {
            self.way = true;
            self.data = String::new();
        }
        if self.node || self.way {
            self.data.append(row);
        }
        if text_contains(row, "</node>") {
            self.node = false;
            out.push(self.data.clone());
        }
        if text_contains(row, "</way>") {
            self.way = false;
            out.push(self.data.clone());
        }
        assert(out@.map_values(|s: String| s@) =~= feed_row(st, row@).1);
        out
    }

    /// Takes one line as read, trims it, and returns the lines it completes.
    pub fn feed_line(&mut self, line: &str) -> (r: Vec<String>)
        ensures
            final(self)@ == feed_row(old(self)@, trimmed(line@)).0,
            r@.map_values(|s: String| s@) == feed_row(old(self)@, trimmed(line@)).1,
    {
        let row = trim_text(line);
        self.feed(row.as_str())
    }
}

/// The links of a way: each node reference with the next one.
pub fn way_links(refs: &Vec<String>) -> (r: Vec<(String, String)>)
    ensures
        r.len() == if refs.len() == 0 { 0 } else { refs.len() - 1 },
        forall|i: int| #![trigger r@[i]] 0 <= i < r.len() ==> r@[i].0@ == refs@[i]@ && r@[i].1@ == refs@[i + 1]@,
{
    let mut r: Vec<(String, String)> = Vec::new();
    let mut i: usize = 0;
    while i + 1 < refs.len()
        invariant
            i == r.len(),
            refs.len() == 0 ==> i == 0,
            refs.len() > 0 ==> i <= refs.len() - 1,
            forall|j: int| #![trigger r@[j]] 0 <= j < r.len() ==> r@[j].0@ == refs@[j]@ && r@[j].1@ == refs@[j + 1]@,
        decreases refs.len() - i,
    {
        let ghost r0 = r@;
        r.push((refs[i].clone(), refs[i + 1].clone()));
        assert forall|j: int| #![trigger r@[j]] 0 <= j < r.len() implies r@[j].0@ == refs@[j]@ && r@[j].1@ == refs@[j + 1]@ by {
            if j < r0.len() {
                assert(r@[j] == r0[j]);
            }
        }
        i = i + 1;
    }
    r
}

} // verus!
