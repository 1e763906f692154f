//! Identifiers: lexicographic order on ids, the canonical pair of two ids,
//! and the ids of the nodes that merges and subdivisions create.

use vstd::prelude::*;

verus! {

/// `a` comes strictly before `b` in the order of their characters, looking
/// from position `i` on (both agree before `i`).
pub open spec fn text_lt_from(a: Seq<char>, b: Seq<char>, i: int) -> bool
    decreases a.len() - i,
{
    if i >= a.len() {
        i < b.len()
    } else if i >= b.len() {
        false
    } else if a[i] != b[i] {
        (a[i] as int) < (b[i] as int)
    } else {
        text_lt_from(a, b, i + 1)
    }
}

/// Lexicographic order on texts, as `<` orders Rust strings.
pub open spec fn text_lt(a: Seq<char>, b: Seq<char>) -> bool {
    text_lt_from(a, b, 0)
}

/// The canonical order of two ids: the smaller one first.
pub open spec fn canonical(a: Seq<char>, b: Seq<char>) -> (Seq<char>, Seq<char>) {
    if text_lt(a, b) {
        (a, b)
    } else {
        (b, a)
    }
}

proof fn lemma_text_lt_from_total(a: Seq<char>, b: Seq<char>, i: int)
    requires
        0 <= i,
        i <= a.len(),
        i <= b.len(),
        a.subrange(i, a.len() as int) != b.subrange(i, b.len() as int),
    ensures
        text_lt_from(a, b, i) != text_lt_from(b, a, i),
    decreases a.len() - i,
{
    if i >= a.len() {
        if i >= b.len() {
            assert(a.subrange(i, a.len() as int) =~= b.subrange(i, b.len() as int));
        }
    } else if i >= b.len() {
    } else if a[i] != b[i] {
        assert(a[i] as int != b[i] as int);
    } else {
        if a.subrange(i + 1, a.len() as int) == b.subrange(i + 1, b.len() as int) {
            assert(a.subrange(i, a.len() as int) =~= seq![a[i]] + a.subrange(i + 1, a.len() as int));
            assert(b.subrange(i, b.len() as int) =~= seq![b[i]] + b.subrange(i + 1, b.len() as int));
        }
        lemma_text_lt_from_total(a, b, i + 1);
    }
}

proof fn lemma_text_lt_from_irreflexive(a: Seq<char>, i: int)
    requires
        0 <= i,
    ensures
        !text_lt_from(a, a, i),
    decreases a.len() - i,
{
    if i < a.len() {
        lemma_text_lt_from_irreflexive(a, i + 1);
    }
}

/// Of two distinct texts exactly one comes first; no text comes before itself.
pub proof fn lemma_text_lt_total(a: Seq<char>, b: Seq<char>)
    ensures
        a != b ==> text_lt(a, b) != text_lt(b, a),
        !text_lt(a, a),
{
    if a != b {
        assert(a.subrange(0, a.len() as int) =~= a);
        assert(b.subrange(0, b.len() as int) =~= b);
        lemma_text_lt_from_total(a, b, 0);
    }
    lemma_text_lt_from_irreflexive(a, 0);
}

/// The canonical pair does not depend on the order in which the two ids come.
pub proof fn lemma_canonical_symmetric(a: Seq<char>, b: Seq<char>)
    ensures
        canonical(a, b) == canonical(b, a),
{
    lemma_text_lt_total(a, b);
}

/// Whether `a` comes strictly before `b`.
pub fn text_less(a: &str, b: &str) -> (r: bool)
    ensures
        r == text_lt(a@, b@),
{
    let la = a.unicode_len();
    let lb = b.unicode_len();
    let mut i: usize = 0;
    while i < la && i < lb
        invariant
            la == a@.len(),
            lb == b@.len(),
            i <= la,
            i <= lb,
            text_lt_from(a@, b@, 0) == text_lt_from(a@, b@, i as int),
        decreases la - i,
    {
        let ca = a.get_char(i);
        let cb = b.get_char(i);
        if ca != cb {
            return (ca as u32) < (cb as u32);
        }
        i = i + 1;
    }
    i < lb
}

/// The separator of the record format: U+241F, the symbol for unit separator.
pub fn separator() -> (r: char)
    ensures
        r == '\u{241F}',
{
    '\u{241F}'
}

/// The canonical pair of two ids: the lexicographically smaller one first.
pub fn deterministic_link(source: &str, target: &str) -> (r: (String, String))
    ensures
        (r.0@, r.1@) == canonical(source@, target@),
{
    if text_less(source, target) {
        (source.to_owned(), target.to_owned())
    } else {
        (target.to_owned(), source.to_owned())
    }
}

/// The id of the node that replaces `a` and `b`: their canonical pair
/// joined by `-`.
pub open spec fn merged_id(a: Seq<char>, b: Seq<char>) -> Seq<char> {
    canonical(a, b).0 + seq!['-'] + canonical(a, b).1
}

/// A merged id does not depend on the order of the two ids.
pub proof fn lemma_merged_id_symmetric(a: Seq<char>, b: Seq<char>)
    ensures
        merged_id(a, b) == merged_id(b, a),
{
    lemma_canonical_symmetric(a, b);
}

/// The id of the node that replaces `a` and `b`.
pub fn merge_id(a: &str, b: &str) -> (r: String)
    ensures
        r@ == merged_id(a@, b@),
{
    let (x, y) = deterministic_link(a, b);
    proof {
        reveal_strlit("-");
    }
    x.concat("-").concat(y.as_str())
}

/// The decimal digit `d`.
pub open spec fn digit(d: nat) -> char {
    seq!['0', '1', '2', '3', '4', '5', '6', '7', '8', '9'][d as int]
}

/// The decimal writing of `n`, without leading zeros.
pub open spec fn decimal(n: nat) -> Seq<char>
    decreases n,
{
    if n < 10 {
        seq![digit(n)]
    } else {
        decimal(n / 10) + seq![digit(n % 10)]
    }
}

fn digit_text(d: u64) -> (r: &'static str)
    requires
        d < 10,
    ensures
        r@ == seq![digit(d as nat)],
{
    proof {
        reveal_strlit("0");
        reveal_strlit("1");
        reveal_strlit("2");
        reveal_strlit("3");
        reveal_strlit("4");
        reveal_strlit("5");
        reveal_strlit("6");
        reveal_strlit("7");
        reveal_strlit("8");
        reveal_strlit("9");
    }
    let r = if d == 0 {
        "0"
    } else if d == 1 {
        "1"
    } else if d == 2 {
        "2"
    } else if d == 3 {
        "3"
    } else if d == 4 {
        "4"
    } else if d == 5 {
        "5"
    } else if d == 6 {
        "6"
    } else if d == 7 {
        "7"
    } else if d == 8 {
        "8"
    } else {
        "9"
    };
    assert(r@ =~= seq![digit(d as nat)]);
    r
}

/// `n` written in decimal.
pub fn decimal_text(n: u64) -> (r: String)
    ensures
        r@ == decimal(n as nat),
    decreases n,
{
    if n < 10 {
        String::from_str(digit_text(n))
    } else {
        let head = decimal_text(n / 10);
        head.concat(digit_text(n % 10))
    }
}

/// The id of piece `i` of `part` pieces of the link between `a` and `b`:
/// the merged id, then `:i/part`.
pub open spec fn piece_id(a: Seq<char>, b: Seq<char>, i: nat, part: nat) -> Seq<char> {
    merged_id(a, b) + seq![':'] + decimal(i) + seq!['/'] + decimal(part)
}

/// The id of piece `i` of `part` pieces of the link between `a` and `b`.
pub fn piece_id_text(a: &str, b: &str, i: u32, part: u32) -> (r: String)
    ensures
        r@ == piece_id(a@, b@, i as nat, part as nat),
{
    proof {
        reveal_strlit(":");
        reveal_strlit("/");
    }
    let m = merge_id(a, b);
    let di = decimal_text(i as u64);
    let dp = decimal_text(part as u64);
    let r = m.concat(":").concat(di.as_str()).concat("/").concat(dp.as_str());
    assert(r@ =~= piece_id(a@, b@, i as nat, part as nat));
    r
}

proof fn lemma_decimal_nonempty(n: nat)
    ensures
        decimal(n).len() >= 1,
    decreases n,
{
    if n >= 10 {
        lemma_decimal_nonempty(n / 10);
    }
}

/// Distinct numbers have distinct decimal writings.
pub proof fn lemma_decimal_injective(a: nat, b: nat)
    requires
        decimal(a) == decimal(b),
    ensures
        a == b,
    decreases a + b,
{
    let digits = seq!['0', '1', '2', '3', '4', '5', '6', '7', '8', '9'];
    if a < 10 && b < 10 {
        assert(decimal(a)[0] == digits[a as int]);
        assert(decimal(b)[0] == digits[b as int]);
    } else if a < 10 {
        lemma_decimal_nonempty(b / 10);
        assert(decimal(a).len() == 1);
    } else if b < 10 {
        lemma_decimal_nonempty(a / 10);
        assert(decimal(b).len() == 1);
    } else {
        let da = decimal(a);
        let db = decimal(b);
        assert(da.last() == digit(a % 10));
        assert(db.last() == digit(b % 10));
        assert(digits[(a % 10) as int] == digits[(b % 10) as int]);
        assert(a % 10 == b % 10);
        assert(da.drop_last() =~= decimal(a / 10));
        assert(db.drop_last() =~= decimal(b / 10));
        lemma_decimal_injective(a / 10, b / 10);
    }
}

/// Pieces of one link with the same count have distinct ids.
pub proof fn lemma_piece_id_injective(a: Seq<char>, b: Seq<char>, i: nat, j: nat, part: nat)
    requires
        piece_id(a, b, i, part) == piece_id(a, b, j, part),
    ensures
        i == j,
{
    let m = merged_id(a, b) + seq![':'];
    let tail = seq!['/'] + decimal(part);
    assert(piece_id(a, b, i, part) =~= m + decimal(i) + tail);
    assert(piece_id(a, b, j, part) =~= m + decimal(j) + tail);
    let s = piece_id(a, b, i, part);
    assert(decimal(i).len() == decimal(j).len());
    assert(decimal(i) =~= s.subrange(m.len() as int, (m.len() + decimal(i).len()) as int));
    assert(decimal(j) =~= s.subrange(m.len() as int, (m.len() + decimal(j).len()) as int));
    lemma_decimal_injective(i, j);
}

} // verus!
