//! Characters and strings: the lexicographic order on character sequences,
//! decimal rendering of metric values, group-key joining, and substring
//! search, together with the trusted wrappers over std that compute them.

use vstd::prelude::*;
use crate::types::Value;

verus! {

/// Strict lexicographic order on character sequences, by character scalar
/// value; a proper prefix comes first.
pub open spec fn lex_lt(a: Seq<char>, b: Seq<char>) -> bool
    decreases a.len(),
{
    if b.len() == 0 {
        false
    } else if a.len() == 0 {
        true
    } else if (a[0] as int) < (b[0] as int) {
        true
    } else if a[0] == b[0] {
        lex_lt(a.drop_first(), b.drop_first())
    } else {
        false
    }
}

/// The order is irreflexive: no sequence is below itself.
pub proof fn lemma_lex_irreflexive(a: Seq<char>)
    ensures
        !lex_lt(a, a),
    decreases a.len(),
{
    if a.len() > 0 {
        lemma_lex_irreflexive(a.drop_first());
    }
}

/// The order is transitive.
pub proof fn lemma_lex_transitive(a: Seq<char>, b: Seq<char>, c: Seq<char>)
    requires
        lex_lt(a, b),
        lex_lt(b, c),
    ensures
        lex_lt(a, c),
    decreases a.len(),
{
    if c.len() == 0 {
    } else if a.len() == 0 {
    } else {
        if (a[0] as int) < (b[0] as int) {
            if (b[0] as int) < (c[0] as int) {
            } else {
                assert(b[0] == c[0]);
            }
        } else {
            assert(a[0] == b[0]);
            if (b[0] as int) < (c[0] as int) {
            } else {
                assert(b[0] == c[0]);
                lemma_lex_transitive(a.drop_first(), b.drop_first(), c.drop_first());
            }
        }
    }
}

/// The order is total: two sequences neither of which is below the other are
/// equal.
pub proof fn lemma_lex_connected(a: Seq<char>, b: Seq<char>)
    requires
        !lex_lt(a, b),
        !lex_lt(b, a),
    ensures
        a == b,
    decreases a.len(),
{
    if a.len() == 0 {
        assert(b.len() == 0);
        assert(a =~= b);
    } else {
        assert(b.len() > 0);
        assert((a[0] as int) >= (b[0] as int));
        assert((b[0] as int) >= (a[0] as int));
        assert(a[0] == b[0]);
        lemma_lex_connected(a.drop_first(), b.drop_first());
        assert(a =~= seq![a[0]] + a.drop_first());
        assert(b =~= seq![b[0]] + b.drop_first());
    }
}

/// The character for one decimal digit.
pub open spec fn dec_digit(d: nat) -> char {
    if d == 0 {
        '0'
    } else if d == 1 {
        '1'
    } else if d == 2 {
        '2'
    } else if d == 3 {
        '3'
    } else if d == 4 {
        '4'
    } else if d == 5 {
        '5'
    } else if d == 6 {
        '6'
    } else if d == 7 {
        '7'
    } else if d == 8 {
        '8'
    } else {
        '9'
    }
}

/// The decimal digits of `n`, most significant first, no leading zeros
/// (except for `n == 0` itself).
pub open spec fn dec_digits(n: nat) -> Seq<char>
    decreases n,
{
    if n < 10 {
        seq![dec_digit(n)]
    } else {
        dec_digits(n / 10).push(dec_digit(n % 10))
    }
}

/// How a value reads inside a group key: a metric as its decimal digits, an
/// attribute as its characters.
pub open spec fn label_of(v: Value) -> Seq<char> {
    match v {
        Value::Metric(n) => dec_digits(n as nat),
        Value::Attribute(s) => s@,
    }
}

/// The labels of the values joined with the two-character separator `--`.
pub open spec fn join_labels(vs: Seq<Value>) -> Seq<char>
    decreases vs.len(),
{
    if vs.len() == 0 {
        Seq::empty()
    } else if vs.len() == 1 {
        label_of(vs[0])
    } else {
        join_labels(vs.drop_last()) + seq!['-', '-'] + label_of(vs.last())
    }
}

/// `needle` occurs contiguously inside `hay`.
pub open spec fn is_substring_of(needle: Seq<char>, hay: Seq<char>) -> bool {
    exists|i: int|
        0 <= i && i + needle.len() <= hay.len() && #[trigger] hay.subrange(i, i + needle.len())
            == needle
}

/// Relies on str's `PartialOrd`: strings order lexicographically by byte,
/// which on UTF-8 text equals ordering by character scalar value.
#[verifier::external_body]
pub fn str_lt(a: &str, b: &str) -> (r: bool)
    ensures
        r == lex_lt(a@, b@),
{
    a < b
}

/// Relies on u32's `Display` through `ToString::to_string`: the decimal
/// digits of the value, no sign, no leading zeros.
#[verifier::external_body]
pub fn u32_to_string(x: u32) -> (r: String)
    ensures
        r@ == dec_digits(x as nat),
{
    x.to_string()
}

/// Relies on `str::contains` with a `&str` pattern: substring containment.
#[verifier::external_body]
pub fn str_contains(hay: &String, needle: &String) -> (r: bool)
    ensures
        r == is_substring_of(needle@, hay@),
{
    hay.as_str().contains(needle.as_str())
}

/// The label of one value, as a string.
pub fn label_string(v: &Value) -> (r: String)
    ensures
        r@ == label_of(*v),
{
    match v {
        Value::Metric(n) => u32_to_string(*n),
        Value::Attribute(s) => s.clone(),
    }
}

/// Joins the labels of the given values with `--`: the group key.
pub fn join_label_string(vs: &Vec<Value>) -> (r: String)
    ensures
        r@ == join_labels(vs@),
{
    let mut out = String::new();
    let mut i: usize = 0;
    while i < vs.len()
        invariant
            0 <= i <= vs.len(),
            out@ == join_labels(vs@.take(i as int)),
        decreases vs.len() - i,
    {
        if i > 0 {
            out.append("--");
            proof {
                reveal_strlit("--");
            }
        }
        let lab = label_string(&vs[i]);
        out.append(lab.as_str());
        proof {
            crate::seqs::lemma_take_push(vs@, i as int);
            let t = vs@.take(i + 1 as int);
            assert(t.drop_last() =~= vs@.take(i as int));
            assert(t.last() == vs@[i as int]);
            if i == 0 {
                assert(out@ =~= join_labels(t));
            } else {
                assert(out@ =~= join_labels(t));
            }
        }
        i = i + 1;
    }
    proof {
        assert(vs@.take(vs@.len() as int) =~= vs@);
    }
    out
}

} // verus!
