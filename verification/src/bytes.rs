//! Byte strings and their lexicographic order, and strings as bytes and
//! characters.

use vstd::prelude::*;
use vstd::utf8::{encode_utf8, valid_utf8};

verus! {

/// `a` and `b` agree on their first `k` bytes, and there `a` ends or holds
/// the smaller byte, while `b` goes on.
pub open spec fn less_at(a: Seq<u8>, b: Seq<u8>, k: int) -> bool {
    &&& 0 <= k <= a.len()
    &&& k < b.len()
    &&& a.take(k) == b.take(k)
    &&& (k == a.len() || a[k] < b[k])
}

/// Strict lexicographic order on byte strings: a proper prefix comes first,
/// otherwise the first differing byte decides.
pub open spec fn lex_lt(a: Seq<u8>, b: Seq<u8>) -> bool {
    exists|k: int| #[trigger] less_at(a, b, k)
}

/// The first byte of a string, or `-1` for the empty string, which sorts
/// before every other.
pub open spec fn head(a: Seq<u8>) -> int {
    if a.len() == 0 {
        -1
    } else {
        a[0] as int
    }
}

/// How two byte strings stand to each other.
#[derive(Clone, Copy, PartialEq, Eq, Structural, Debug)]
pub enum Order {
    Less,
    Equal,
    Greater,
}

/// No string comes before itself.
pub proof fn lemma_lex_lt_irreflexive(a: Seq<u8>)
    ensures
        !lex_lt(a, a),
{
}

/// Of two strings at most one comes before the other.
pub proof fn lemma_lex_lt_asymmetric(a: Seq<u8>, b: Seq<u8>)
    requires
        lex_lt(a, b),
    ensures
        !lex_lt(b, a),
{
    let k = choose|k: int| less_at(a, b, k);
    if lex_lt(b, a) {
        let m = choose|m: int| less_at(b, a, m);
        if k < m {
            assert(b.take(m)[k] == a.take(m)[k]);
        } else if m < k {
            assert(a.take(k)[m] == b.take(k)[m]);
        }
    }
}

/// The order is transitive.
pub proof fn lemma_lex_lt_transitive(a: Seq<u8>, b: Seq<u8>, c: Seq<u8>)
    requires
        lex_lt(a, b),
        lex_lt(b, c),
    ensures
        lex_lt(a, c),
{
    let k = choose|k: int| less_at(a, b, k);
    let m = choose|m: int| less_at(b, c, m);
    let n = if k <= m { k } else { m };
    let ta = a.take(n);
    let tc = c.take(n);
    assert(ta =~= tc) by {
        assert forall|i: int| 0 <= i < n implies #[trigger] ta[i] == tc[i] by {
            assert(a.take(k)[i] == b.take(k)[i]);
            assert(b.take(m)[i] == c.take(m)[i]);
        }
    }
    if k < m {
        assert(b.take(m)[k] == c.take(m)[k]);
    } else if m < k {
        assert(a.take(k)[m] == b.take(k)[m]);
    }
    assert(less_at(a, c, n));
}

/// Any two different strings are ordered one way or the other.
pub proof fn lemma_lex_lt_total(a: Seq<u8>, b: Seq<u8>)
    ensures
        a == b || lex_lt(a, b) || lex_lt(b, a),
    decreases a.len(),
{
    assert(a.take(0) =~= b.take(0));
    if a.len() == 0 {
        if b.len() > 0 {
            assert(less_at(a, b, 0));
        } else {
            assert(a =~= b);
        }
    } else if b.len() == 0 {
        assert(less_at(b, a, 0));
    } else if a[0] < b[0] {
        assert(less_at(a, b, 0));
    } else if b[0] < a[0] {
        assert(less_at(b, a, 0));
    } else {
        let p = seq![a[0]];
        assert(a =~= p + a.drop_first());
        assert(b =~= p + b.drop_first());
        lemma_lex_lt_total(a.drop_first(), b.drop_first());
        lemma_lex_lt_prepend(p, a.drop_first(), b.drop_first());
        lemma_lex_lt_prepend(p, b.drop_first(), a.drop_first());
    }
}

/// A common prefix does not change how two strings are ordered.
pub proof fn lemma_lex_lt_prepend(p: Seq<u8>, a: Seq<u8>, b: Seq<u8>)
    ensures
        lex_lt(p + a, p + b) <==> lex_lt(a, b),
{
    let n = p.len() as int;
    if lex_lt(a, b) {
        let k = choose|k: int| less_at(a, b, k);
        assert((p + a).take(n + k) =~= p + a.take(k));
        assert((p + b).take(n + k) =~= p + b.take(k));
        assert(less_at(p + a, p + b, n + k));
    }
    if lex_lt(p + a, p + b) {
        let k = choose|k: int| less_at(p + a, p + b, k);
        if k < n {
            assert((p + a)[k] == (p + b)[k]);
            assert(false);
        }
        let ta = a.take(k - n);
        let tb = b.take(k - n);
        assert(ta =~= tb) by {
            assert forall|i: int| 0 <= i < k - n implies #[trigger] ta[i] == tb[i] by {
                assert((p + a).take(k)[n + i] == (p + b).take(k)[n + i]);
            }
        }
        assert(less_at(a, b, k - n));
    }
}

/// A string with the smaller head comes first.
pub proof fn lemma_head_lt(a: Seq<u8>, b: Seq<u8>)
    requires
        head(a) < head(b),
    ensures
        lex_lt(a, b),
{
    assert(a.take(0) =~= b.take(0));
    assert(less_at(a, b, 0));
}

/// A string that comes first does not have the larger head.
pub proof fn lemma_lt_head(a: Seq<u8>, b: Seq<u8>)
    requires
        lex_lt(a, b),
    ensures
        head(a) <= head(b),
{
    let k = choose|k: int| less_at(a, b, k);
    if k > 0 {
        assert(a.take(k)[0] == b.take(k)[0]);
    }
}

/// Length of the longest common prefix of `v1` and `v2`.
pub fn common_prefix(v1: &[u8], v2: &[u8]) -> (c: usize)
    ensures
        c <= v1@.len(),
        c <= v2@.len(),
        v1@.take(c as int) == v2@.take(c as int),
        c < v1@.len() && c < v2@.len() ==> v1@[c as int] != v2@[c as int],
{
    let mut i: usize = 0;
    while i < v1.len() && i < v2.len()
        invariant
            i <= v1@.len(),
            i <= v2@.len(),
            v1@.take(i as int) == v2@.take(i as int),
        decreases v1@.len() - i,
    {
        if v1[i] != v2[i] {
            return i;
        }
        assert(v1@.take(i + 1) =~= v1@.take(i as int).push(v1@[i as int]));
        assert(v2@.take(i + 1) =~= v2@.take(i as int).push(v2@[i as int]));
        i += 1;
    }
    i
}

/// Compares two byte strings lexicographically.
pub fn compare(a: &[u8], b: &[u8]) -> (o: Order)
    ensures
        o == Order::Less <==> lex_lt(a@, b@),
        o == Order::Equal <==> a@ == b@,
        o == Order::Greater <==> lex_lt(b@, a@),
{
    let c = common_prefix(a, b);
    proof {
        lemma_lex_lt_irreflexive(a@);
    }
    if c == a.len() && c == b.len() {
        assert(a@ =~= a@.take(c as int));
        assert(b@ =~= b@.take(c as int));
        Order::Equal
    } else if c == a.len() || (c < b.len() && a[c] < b[c]) {
        proof {
            assert(less_at(a@, b@, c as int));
            lemma_lex_lt_asymmetric(a@, b@);
        }
        Order::Less
    } else {
        proof {
            assert(less_at(b@, a@, c as int));
            lemma_lex_lt_asymmetric(b@, a@);
        }
        Order::Greater
    }
}

/// `String::from_utf8` of std, with its error dropped. The call succeeds
/// just when the bytes are valid UTF-8, and the string it then returns is
/// made of exactly those bytes.
#[verifier::external_body]
pub(crate) fn string_from_utf8(bytes: Vec<u8>) -> (s: Option<String>)
    ensures
        s is Some <==> valid_utf8(bytes@),
        s matches Some(text) ==> encode_utf8(text@) == bytes@,
{
    String::from_utf8(bytes).ok()
}

/// `str::chars` of std, collected: the characters of the text in their
/// order.
#[verifier::external_body]
pub(crate) fn chars_of(text: &str) -> (chars: Vec<char>)
    ensures
        chars@ == text@,
{
    text.chars().collect()
}

/// `String::from_iter` of std, over characters: the string made of the
/// characters in their order.
#[verifier::external_body]
pub(crate) fn string_of(chars: &Vec<char>) -> (text: String)
    ensures
        text@ == chars@,
{
    String::from_iter(chars.iter())
}

} // verus!
