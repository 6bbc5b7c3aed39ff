//! Lexicographic ordering of byte sequences.
//!
//! Type labels are compared by the natural byte-wise (and hence
//! codepoint-wise) lexicographic order of their UTF-8 encodings; the
//! report lists them in strictly ascending order. `bytes_cmp` is the
//! executable three-way comparison, proved against [`lex_lt`].

use vstd::prelude::*;

verus! {

/// `a` comes strictly before `b` in lexicographic order: at the first
/// position where they differ `a` has the smaller byte, or `a` is a
/// proper prefix of `b`.
pub open spec fn lex_lt(a: Seq<u8>, b: Seq<u8>) -> bool
    decreases a.len(),
{
    if b.len() == 0 {
        false
    } else if a.len() == 0 {
        true
    } else if a[0] < b[0] {
        true
    } else if a[0] > b[0] {
        false
    } else {
        lex_lt(a.drop_first(), b.drop_first())
    }
}

/// Result of a three-way comparison.
pub enum Cmp {
    Lt,
    Eq,
    Gt,
}

/// Lexicographic order is irreflexive and asymmetric: of two distinct
/// sequences exactly one comes first, and none precedes itself.
pub proof fn lemma_lex_lt_asymmetric(a: Seq<u8>, b: Seq<u8>)
    requires
        lex_lt(a, b),
    ensures
        !lex_lt(b, a),
        a != b,
    decreases a.len(),
{
    if a.len() != 0 && b.len() != 0 && a[0] == b[0] {
        lemma_lex_lt_asymmetric(a.drop_first(), b.drop_first());
        assert(a != b) by {
            if a == b {
                assert(a.drop_first() =~= b.drop_first());
            }
        }
    }
}

/// Lexicographic order is transitive.
pub proof fn lemma_lex_lt_transitive(a: Seq<u8>, b: Seq<u8>, c: Seq<u8>)
    requires
        lex_lt(a, b),
        lex_lt(b, c),
    ensures
        lex_lt(a, c),
    decreases a.len(),
{
    if a.len() != 0 && b.len() != 0 && c.len() != 0 && a[0] == b[0] && b[0] == c[0] {
        lemma_lex_lt_transitive(a.drop_first(), b.drop_first(), c.drop_first());
    }
}

/// Three-way lexicographic comparison of two byte slices.
pub fn bytes_cmp(a: &[u8], b: &[u8]) -> (r: Cmp)
    ensures
        match r {
            Cmp::Lt => lex_lt(a@, b@),
            Cmp::Eq => a@ == b@,
            Cmp::Gt => lex_lt(b@, a@),
        },
{
    let a_len = a.len();
    let b_len = b.len();
    let mut i: usize = 0;
    proof {
        assert(a@.skip(0) =~= a@);
        assert(b@.skip(0) =~= b@);
    }
    loop
        invariant
            i <= a_len,
            i <= b_len,
            a_len == a@.len(),
            b_len == b@.len(),
            lex_lt(a@, b@) == lex_lt(a@.skip(i as int), b@.skip(i as int)),
            lex_lt(b@, a@) == lex_lt(b@.skip(i as int), a@.skip(i as int)),
            (a@ == b@) <==> (a@.skip(i as int) =~= b@.skip(i as int)),
        decreases a_len - i,
    {
        if i == a_len || i == b_len {
            if a_len == b_len {
                assert(a@.skip(i as int) =~= b@.skip(i as int));
                return Cmp::Eq;
            } else if a_len < b_len {
                assert(a@.skip(i as int).len() == 0);
                assert(b@.skip(i as int).len() > 0);
                return Cmp::Lt;
            } else {
                assert(b@.skip(i as int).len() == 0);
                assert(a@.skip(i as int).len() > 0);
                return Cmp::Gt;
            }
        }
        let x = a[i];
        let y = b[i];
        if x < y {
            assert(a@.skip(i as int)[0] == x && b@.skip(i as int)[0] == y);
            return Cmp::Lt;
        } else if x > y {
            assert(a@.skip(i as int)[0] == x && b@.skip(i as int)[0] == y);
            return Cmp::Gt;
        }
        proof {
            let ai = a@.skip(i as int);
            let bi = b@.skip(i as int);
            assert(ai.drop_first() =~= a@.skip(i as int + 1));
            assert(bi.drop_first() =~= b@.skip(i as int + 1));
            assert(ai[0] == x && bi[0] == y);
            if a@.skip(i as int + 1) == b@.skip(i as int + 1) {
                assert forall|j: int| 0 <= j < ai.len() implies ai[j] == bi[j] by {
                    if j > 0 {
                        assert(ai[j] == a@.skip(i as int + 1)[j - 1]);
                        assert(bi[j] == b@.skip(i as int + 1)[j - 1]);
                    }
                }
                assert(ai =~= bi);
            }
        }
        i = i + 1;
    }
}

} // verus!
