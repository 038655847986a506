//! The order in which sibling names are kept: byte-wise lexicographic order
//! of their UTF-8 encoding, which is the order of `str`.

use vstd::prelude::*;
use vstd::utf8::*;

verus! {

/// Strict lexicographic order on byte sequences: a proper prefix comes first,
/// otherwise the first differing byte decides.
pub open spec fn lex_less(a: Seq<u8>, b: Seq<u8>) -> bool
    decreases a.len(),
{
    if b.len() == 0 {
        false
    } else if a.len() == 0 {
        true
    } else if a[0] != b[0] {
        a[0] < b[0]
    } else {
        lex_less(a.drop_first(), b.drop_first())
    }
}

/// Strict order on names: the order of their UTF-8 encodings.
pub open spec fn name_less(a: Seq<char>, b: Seq<char>) -> bool {
    lex_less(encode_utf8(a), encode_utf8(b))
}

/// How one name stands to another.
#[derive(Clone, Copy, Debug, PartialEq, Eq, Structural)]
pub enum NameOrder {
    Before,
    Same,
    After,
}

/// No byte sequence comes before itself.
pub proof fn lemma_lex_less_irreflexive(a: Seq<u8>)
    ensures
        !lex_less(a, a),
    decreases a.len(),
{
    if a.len() > 0 {
        lemma_lex_less_irreflexive(a.drop_first());
    }
}

/// Of two byte sequences at most one comes before the other.
pub proof fn lemma_lex_less_asymmetric(a: Seq<u8>, b: Seq<u8>)
    requires
        lex_less(a, b),
    ensures
        !lex_less(b, a),
    decreases a.len(),
{
    if a.len() > 0 && b.len() > 0 && a[0] == b[0] {
        lemma_lex_less_asymmetric(a.drop_first(), b.drop_first());
    }
}

/// The order on byte sequences is transitive.
pub proof fn lemma_lex_less_transitive(a: Seq<u8>, b: Seq<u8>, c: Seq<u8>)
    requires
        lex_less(a, b),
        lex_less(b, c),
    ensures
        lex_less(a, c),
    decreases a.len(),
{
    if a.len() > 0 && a[0] == b[0] && b[0] == c[0] {
        lemma_lex_less_transitive(a.drop_first(), b.drop_first(), c.drop_first());
    }
}

/// Two different byte sequences are ordered one way or the other.
pub proof fn lemma_lex_less_total(a: Seq<u8>, b: Seq<u8>)
    ensures
        lex_less(a, b) || a == b || lex_less(b, a),
    decreases a.len(),
{
    if a.len() > 0 && b.len() > 0 && a[0] == b[0] {
        lemma_lex_less_total(a.drop_first(), b.drop_first());
        if a.drop_first() == b.drop_first() {
            assert(a =~= seq![a[0]] + a.drop_first());
            assert(b =~= seq![b[0]] + b.drop_first());
        }
    } else if a.len() == 0 && b.len() == 0 {
        assert(a =~= b);
    }
}

/// Two sequences that agree on their first `n` bytes compare as what follows
/// those bytes.
pub proof fn lemma_lex_less_skip(a: Seq<u8>, b: Seq<u8>, n: int)
    requires
        0 <= n <= a.len(),
        n <= b.len(),
        a.take(n) == b.take(n),
    ensures
        lex_less(a, b) == lex_less(a.skip(n), b.skip(n)),
    decreases n,
{
    if n == 0 {
        assert(a.skip(0) =~= a);
        assert(b.skip(0) =~= b);
    } else {
        assert(a[0] == a.take(n)[0]);
        assert(b[0] == b.take(n)[0]);
        let a1 = a.drop_first();
        let b1 = b.drop_first();
        assert(a1.take(n - 1) =~= a.take(n).drop_first());
        assert(b1.take(n - 1) =~= b.take(n).drop_first());
        lemma_lex_less_skip(a1, b1, n - 1);
        assert(a1.skip(n - 1) =~= a.skip(n));
        assert(b1.skip(n - 1) =~= b.skip(n));
    }
}

/// Names with the same encoding are the same name.
pub proof fn lemma_encoding_injective(a: Seq<char>, b: Seq<char>)
    requires
        encode_utf8(a) == encode_utf8(b),
    ensures
        a == b,
{
    encode_utf8_decode_utf8(a);
    encode_utf8_decode_utf8(b);
}

/// No name comes before itself.
pub proof fn lemma_name_less_irreflexive(a: Seq<char>)
    ensures
        !name_less(a, a),
{
    lemma_lex_less_irreflexive(encode_utf8(a));
}

/// Of two names at most one comes before the other.
pub proof fn lemma_name_less_asymmetric(a: Seq<char>, b: Seq<char>)
    requires
        name_less(a, b),
    ensures
        !name_less(b, a),
        a != b,
{
    lemma_lex_less_asymmetric(encode_utf8(a), encode_utf8(b));
    lemma_lex_less_irreflexive(encode_utf8(a));
}

/// The order on names is transitive.
pub proof fn lemma_name_less_transitive(a: Seq<char>, b: Seq<char>, c: Seq<char>)
    requires
        name_less(a, b),
        name_less(b, c),
    ensures
        name_less(a, c),
{
    lemma_lex_less_transitive(encode_utf8(a), encode_utf8(b), encode_utf8(c));
}

/// Two different names are ordered one way or the other.
pub proof fn lemma_name_less_total(a: Seq<char>, b: Seq<char>)
    ensures
        name_less(a, b) || a == b || name_less(b, a),
{
    lemma_lex_less_total(encode_utf8(a), encode_utf8(b));
    if encode_utf8(a) == encode_utf8(b) {
        lemma_encoding_injective(a, b);
    }
}

/// Compares two names in the order of `str`.
pub fn compare_names(a: &str, b: &str) -> (order: NameOrder)
    ensures
        order == NameOrder::Before <==> name_less(a@, b@),
        order == NameOrder::Same <==> a@ == b@,
        order == NameOrder::After <==> name_less(b@, a@),
{
    let x = a.as_bytes();
    let y = b.as_bytes();
    let n: usize = x.len();
    let m: usize = y.len();
    let mut i: usize = 0;
    while i < n && i < m
        invariant
            x@ == encode_utf8(a@),
            y@ == encode_utf8(b@),
            n == x@.len(),
            m == y@.len(),
            i <= n,
            i <= m,
            x@.take(i as int) == y@.take(i as int),
        decreases n - i,
    {
        if x[i] != y[i] {
            proof {
                lemma_lex_less_skip(x@, y@, i as int);
                lemma_lex_less_skip(y@, x@, i as int);
                assert(x@.skip(i as int)[0] == x@[i as int]);
                assert(y@.skip(i as int)[0] == y@[i as int]);
                assert(x@ != y@);
            }
            if x[i] < y[i] {
                proof {
                    lemma_name_less_asymmetric(a@, b@);
                }
                return NameOrder::Before;
            } else {
                proof {
                    lemma_name_less_asymmetric(b@, a@);
                }
                return NameOrder::After;
            }
        }
        proof {
            assert(x@.take(i + 1) =~= x@.take(i as int).push(x@[i as int]));
            assert(y@.take(i + 1) =~= y@.take(i as int).push(y@[i as int]));
        }
        i += 1;
    }
    proof {
        lemma_lex_less_skip(x@, y@, i as int);
        lemma_lex_less_skip(y@, x@, i as int);
    }
    if n == m {
        proof {
            assert(x@.take(i as int) =~= x@);
            assert(y@.take(i as int) =~= y@);
            lemma_encoding_injective(a@, b@);
            lemma_name_less_irreflexive(a@);
        }
        NameOrder::Same
    } else if n < m {
        proof {
            lemma_name_less_asymmetric(a@, b@);
        }
        NameOrder::Before
    } else {
        proof {
            lemma_name_less_asymmetric(b@, a@);
        }
        NameOrder::After
    }
}

} // verus!
