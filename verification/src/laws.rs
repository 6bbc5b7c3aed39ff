//! The global laws of a run.
//!
//! Two theorems stand here. Determinism: the lines of a file determine the
//! completed table exactly — any two tables that match the same lines are
//! equal, so re-running on an unmodified file reproduces the table and,
//! with it, the report byte for byte ([`lemma_table_determined`]).
//! Reordering: the table, and hence the set of reported triples, does not
//! depend on the order of the lines, only on what lines there are
//! ([`lemma_reorder_same_table`]).

use vstd::prelude::*;

verus! {

use vstd::seq_lib::group_to_multiset_ensures;
use vstd::utf8::{encode_utf8, encode_utf8_decode_utf8};
use crate::decode::{key_of, label_of, line_ok};
use crate::order::{lex_lt, lemma_lex_lt_asymmetric};
use crate::process::{
    AggError, bytes_of, count_of, count_weight, error_matches, keys_of, label_from_lines,
    len_weight, line_weight, prefix_ok, table_matches, total_line_bytes,
};
use crate::stats::{
    bytes_at, entry_key, has_key, lemma_at_entry, num_at, num_weight, byte_weight, sorted_keys,
};
use crate::sums::{lemma_sum_by_permutation, lemma_sum_by_remove, sum_by};

/// A longer prefix of the lines never shrinks a per-key byte total.
proof fn lemma_bytes_of_prefix_le(ls: Seq<Seq<char>>, m: int, n: int, k: Seq<u8>)
    requires
        0 <= m <= n <= ls.len(),
    ensures
        bytes_of(ls.take(m), k) <= bytes_of(ls.take(n), k),
    decreases n - m,
{
    if m < n {
        lemma_bytes_of_prefix_le(ls, m, n - 1, k);
        assert(ls.take(n).drop_last() =~= ls.take(n - 1));
    }
}

/// Success is owed on valid input: when every line parses and no byte
/// accumulator overflows over the whole file, no failure can be reported.
pub proof fn lemma_valid_input_no_error(e: AggError, ls: Seq<Seq<char>>)
    requires
        prefix_ok(ls, ls.len() as int),
    ensures
        !error_matches(e, ls),
{
    if error_matches(e, ls) {
        match e {
            AggError::Parse { line, .. } => {
                assert(line_ok(ls[line - 1]));
            },
            AggError::Overflow { line } => {
                let k = key_of(ls[line - 1]);
                lemma_bytes_of_prefix_le(ls, line as int, ls.len() as int, k);
                assert(ls.take(ls.len() as int) =~= ls);
                assert(bytes_of(ls.take(ls.len() as int), k) <= u64::MAX);
            },
            AggError::Io { .. } => {},
            AggError::Decode { .. } => {},
        }
    }
}

/// UTF-8 encoding is injective: labels with one encoding are one label.
pub proof fn lemma_encode_injective(a: Seq<char>, b: Seq<char>)
    requires
        encode_utf8(a) == encode_utf8(b),
    ensures
        a == b,
{
    encode_utf8_decode_utf8(a);
    encode_utf8_decode_utf8(b);
}

/// Reordering lines changes no aggregate: two line sequences with the same
/// multiset of lines have the same per-key counts and byte totals, the
/// same total byte length, the same key set, and the same labels.
pub proof fn lemma_reorder_lines(l1: Seq<Seq<char>>, l2: Seq<Seq<char>>)
    requires
        l1.to_multiset() == l2.to_multiset(),
    ensures
        forall|k: Seq<u8>| #[trigger] count_of(l1, k) == count_of(l2, k),
        forall|k: Seq<u8>| #[trigger] bytes_of(l1, k) == bytes_of(l2, k),
        total_line_bytes(l1) == total_line_bytes(l2),
        keys_of(l1) =~= keys_of(l2),
        forall|lab: Seq<char>| #[trigger] label_from_lines(l1, lab) <==> label_from_lines(l2, lab),
{
    broadcast use group_to_multiset_ensures;

    assert forall|k: Seq<u8>| #[trigger] count_of(l1, k) == count_of(l2, k) by {
        lemma_sum_by_permutation(l1, l2, count_weight(k));
    }
    assert forall|k: Seq<u8>| #[trigger] bytes_of(l1, k) == bytes_of(l2, k) by {
        lemma_sum_by_permutation(l1, l2, line_weight(k));
    }
    lemma_sum_by_permutation(l1, l2, len_weight());
    assert forall|k: Seq<u8>| keys_of(l1).contains(k) implies keys_of(l2).contains(k) by {
        let i = choose|i: int|
            0 <= i < l1.len() && line_ok(#[trigger] l1[i]) && key_of(l1[i]) == k;
        assert(l1.contains(l1[i]));
        assert(l2.to_multiset().count(l1[i]) > 0);
        assert(l2.contains(l1[i]));
        let j = choose|j: int| 0 <= j < l2.len() && l2[j] == l1[i];
        assert(line_ok(l2[j]) && key_of(l2[j]) == k);
    }
    assert forall|k: Seq<u8>| keys_of(l2).contains(k) implies keys_of(l1).contains(k) by {
        let i = choose|i: int|
            0 <= i < l2.len() && line_ok(#[trigger] l2[i]) && key_of(l2[i]) == k;
        assert(l2.contains(l2[i]));
        assert(l1.to_multiset().count(l2[i]) > 0);
        assert(l1.contains(l2[i]));
        let j = choose|j: int| 0 <= j < l1.len() && l1[j] == l2[i];
        assert(line_ok(l1[j]) && key_of(l1[j]) == k);
    }
    assert forall|lab: Seq<char>| #[trigger] label_from_lines(l1, lab) implies label_from_lines(
        l2,
        lab,
    ) by {
        let i = choose|i: int|
            0 <= i < l1.len() && line_ok(#[trigger] l1[i]) && label_of(l1[i]) == lab;
        assert(l1.contains(l1[i]));
        assert(l2.to_multiset().count(l1[i]) > 0);
        assert(l2.contains(l1[i]));
        let j = choose|j: int| 0 <= j < l2.len() && l2[j] == l1[i];
        assert(line_ok(l2[j]) && label_of(l2[j]) == lab);
    }
    assert forall|lab: Seq<char>| #[trigger] label_from_lines(l2, lab) implies label_from_lines(
        l1,
        lab,
    ) by {
        let i = choose|i: int|
            0 <= i < l2.len() && line_ok(#[trigger] l2[i]) && label_of(l2[i]) == lab;
        assert(l2.contains(l2[i]));
        assert(l1.to_multiset().count(l2[i]) > 0);
        assert(l1.contains(l2[i]));
        let j = choose|j: int| 0 <= j < l1.len() && l1[j] == l2[i];
        assert(line_ok(l1[j]) && label_of(l1[j]) == lab);
    }
}

/// Two sorted tables with the same per-key counts and byte totals and the
/// same keys are one table.
proof fn lemma_sorted_same_aggregates(
    v1: Seq<(Seq<char>, u64, u64)>,
    v2: Seq<(Seq<char>, u64, u64)>,
)
    requires
        sorted_keys(v1),
        sorted_keys(v2),
        forall|k: Seq<u8>| #[trigger] num_at(v1, k) == num_at(v2, k),
        forall|k: Seq<u8>| #[trigger] bytes_at(v1, k) == bytes_at(v2, k),
        forall|k: Seq<u8>| #[trigger] has_key(v1, k) <==> has_key(v2, k),
    ensures
        v1 == v2,
    decreases v1.len(),
{
    if v1.len() == 0 {
        if v2.len() > 0 {
            assert(has_key(v2, entry_key(v2[0])));
            assert(has_key(v1, entry_key(v2[0])));
        }
        assert(v1 =~= v2);
    } else if v2.len() == 0 {
        assert(has_key(v1, entry_key(v1[0])));
        assert(has_key(v2, entry_key(v1[0])));
    } else {
        let k1 = entry_key(v1[0]);
        let k2 = entry_key(v2[0]);
        assert(has_key(v1, k1));
        assert(has_key(v2, k2));
        assert(has_key(v2, k1));
        assert(has_key(v1, k2));
        let j = choose|j: int| 0 <= j < v2.len() && entry_key(#[trigger] v2[j]) == k1;
        let m = choose|m: int| 0 <= m < v1.len() && entry_key(#[trigger] v1[m]) == k2;
        assert(k1 == k2) by {
            if j > 0 && m > 0 {
                assert(lex_lt(k2, k1));
                assert(lex_lt(k1, k2));
                lemma_lex_lt_asymmetric(k1, k2);
            } else if j > 0 {
                assert(lex_lt(k2, k1));
                assert(k1 == k2);
                lemma_lex_lt_asymmetric(k2, k1);
            } else if m > 0 {
                assert(lex_lt(k1, k2));
                assert(k2 == k1);
                lemma_lex_lt_asymmetric(k1, k2);
            }
        }
        lemma_encode_injective(v1[0].0, v2[0].0);
        lemma_at_entry(v1, 0);
        lemma_at_entry(v2, 0);
        assert(v1[0] == v2[0]);
        let t1 = v1.drop_first();
        let t2 = v2.drop_first();
        assert(v1.remove(0) =~= t1);
        assert(v2.remove(0) =~= t2);
        assert forall|p: int, q: int| 0 <= p < q < t1.len() implies lex_lt(
            entry_key(#[trigger] t1[p]),
            entry_key(#[trigger] t1[q]),
        ) by {
            assert(t1[p] == v1[p + 1] && t1[q] == v1[q + 1]);
        }
        assert forall|p: int, q: int| 0 <= p < q < t2.len() implies lex_lt(
            entry_key(#[trigger] t2[p]),
            entry_key(#[trigger] t2[q]),
        ) by {
            assert(t2[p] == v2[p + 1] && t2[q] == v2[q + 1]);
        }
        assert forall|k: Seq<u8>| #[trigger] num_at(t1, k) == num_at(t2, k) by {
            lemma_sum_by_remove(v1, 0, num_weight(k));
            lemma_sum_by_remove(v2, 0, num_weight(k));
            assert(num_at(v1, k) == num_at(v2, k));
            assert(sum_by(v1.remove(0), num_weight(k)) == num_at(t1, k));
            assert(sum_by(v2.remove(0), num_weight(k)) == num_at(t2, k));
            assert(num_weight(k)(v1[0]) == num_weight(k)(v2[0]));
        }
        assert forall|k: Seq<u8>| #[trigger] bytes_at(t1, k) == bytes_at(t2, k) by {
            lemma_sum_by_remove(v1, 0, byte_weight(k));
            lemma_sum_by_remove(v2, 0, byte_weight(k));
            assert(bytes_at(v1, k) == bytes_at(v2, k));
            assert(sum_by(v1.remove(0), byte_weight(k)) == bytes_at(t1, k));
            assert(sum_by(v2.remove(0), byte_weight(k)) == bytes_at(t2, k));
            assert(byte_weight(k)(v1[0]) == byte_weight(k)(v2[0]));
        }
        assert forall|k: Seq<u8>| #[trigger] has_key(t1, k) implies has_key(t2, k) by {
            let w = choose|w: int| 0 <= w < t1.len() && entry_key(#[trigger] t1[w]) == k;
            assert(t1[w] == v1[w + 1]);
            assert(lex_lt(k1, k));
            lemma_lex_lt_asymmetric(k1, k);
            assert(has_key(v1, k));
            assert(has_key(v2, k));
            let u = choose|u: int| 0 <= u < v2.len() && entry_key(#[trigger] v2[u]) == k;
            assert(u != 0);
            assert(t2[u - 1] == v2[u]);
        }
        assert forall|k: Seq<u8>| #[trigger] has_key(t2, k) implies has_key(t1, k) by {
            let w = choose|w: int| 0 <= w < t2.len() && entry_key(#[trigger] t2[w]) == k;
            assert(t2[w] == v2[w + 1]);
            assert(lex_lt(k1, k));
            lemma_lex_lt_asymmetric(k1, k);
            assert(has_key(v2, k));
            assert(has_key(v1, k));
            let u = choose|u: int| 0 <= u < v1.len() && entry_key(#[trigger] v1[u]) == k;
            assert(u != 0);
            assert(t1[u - 1] == v1[u]);
        }
        lemma_sorted_same_aggregates(t1, t2);
        assert forall|w: int| 0 <= w < v1.len() implies v1[w] == v2[w] by {
            if w > 0 {
                assert(v1[w] == t1[w - 1] && v2[w] == t2[w - 1]);
            }
        }
        assert(v1 =~= v2);
    }
}

/// Determinism: the lines determine the completed table exactly. Two
/// sorted tables that both match one sequence of lines are equal, so a
/// re-run on the same unmodified lines reproduces the same table and the
/// same report.
pub proof fn lemma_table_determined(
    v1: Seq<(Seq<char>, u64, u64)>,
    v2: Seq<(Seq<char>, u64, u64)>,
    lines: Seq<Seq<char>>,
)
    requires
        sorted_keys(v1),
        sorted_keys(v2),
        table_matches(v1, lines),
        table_matches(v2, lines),
    ensures
        v1 == v2,
{
    lemma_sorted_same_aggregates(v1, v2);
}

/// Reordering the lines of a valid input changes nothing reported: tables
/// matching two arrangements of the same lines are equal — the same
/// (label, count, bytes) triples, in the same order.
pub proof fn lemma_reorder_same_table(
    v1: Seq<(Seq<char>, u64, u64)>,
    v2: Seq<(Seq<char>, u64, u64)>,
    l1: Seq<Seq<char>>,
    l2: Seq<Seq<char>>,
)
    requires
        sorted_keys(v1),
        sorted_keys(v2),
        table_matches(v1, l1),
        table_matches(v2, l2),
        l1.to_multiset() == l2.to_multiset(),
    ensures
        v1 == v2,
{
    lemma_reorder_lines(l1, l2);
    assert(table_matches(v2, l1)) by {
        assert forall|k: Seq<u8>| #[trigger] num_at(v2, k) == count_of(l1, k) by {
            assert(num_at(v2, k) == count_of(l2, k));
        }
        assert forall|k: Seq<u8>| #[trigger] bytes_at(v2, k) == bytes_of(l1, k) by {
            assert(bytes_at(v2, k) == bytes_of(l2, k));
        }
        assert forall|k: Seq<u8>| #[trigger] has_key(v2, k) <==> keys_of(l1).contains(k) by {
            assert(has_key(v2, k) <==> keys_of(l2).contains(k));
            assert(keys_of(l1).contains(k) <==> keys_of(l2).contains(k));
        }
        assert forall|i: int| 0 <= i < v2.len() implies label_from_lines(
            l1,
            (#[trigger] v2[i]).0,
        ) by {
            assert(label_from_lines(l2, v2[i].0));
        }
    }
    lemma_table_determined(v1, v2, l1);
}

} // verus!
