//! The statistics table: per-label record counts and byte totals.
//!
//! A [`StatsTable`] maps type labels to a [`TypeData`] accumulator. It is
//! kept as a vector of entries in strictly ascending label order (by the
//! lexicographic order of the labels' UTF-8 encodings), so reporting it in
//! order is immediate and every label occurs at most once.
//!
//! The table's view is the sequence of `(label, count, bytes)` triples;
//! the aggregates [`num_at`] and [`bytes_at`] read it per key, and
//! [`total_num`] / [`total_bytes_tbl`] read it whole.

use vstd::prelude::*;

verus! {

use vstd::utf8::encode_utf8;
use crate::order::{Cmp, bytes_cmp, lex_lt, lemma_lex_lt_asymmetric, lemma_lex_lt_transitive};
use crate::sums::{sum_by, lemma_sum_by_remove};

/// Aggregate statistics of one type label.
pub struct TypeData {
    /// The number of records with this label.
    pub num: u64,
    /// The number of bytes used by all records with this label.
    pub bytes: u64,
}

struct Entry {
    label: String,
    data: TypeData,
}

/// A completed or growing run's mapping from type label to statistics.
pub struct StatsTable {
    entries: Vec<Entry>,
}

/// The key an entry is ordered by: its label's UTF-8 encoding.
pub open spec fn entry_key(e: (Seq<char>, u64, u64)) -> Seq<u8> {
    encode_utf8(e.0)
}

/// Entry keys are strictly ascending; in particular each key is unique.
pub open spec fn sorted_keys(v: Seq<(Seq<char>, u64, u64)>) -> bool {
    forall|i: int, j: int|
        0 <= i < j < v.len() ==> lex_lt(
            entry_key(#[trigger] v[i]),
            entry_key(#[trigger] v[j]),
        )
}

/// The count weight of an entry towards key `k`.
pub open spec fn num_weight(k: Seq<u8>) -> spec_fn((Seq<char>, u64, u64)) -> nat {
    |e: (Seq<char>, u64, u64)| if entry_key(e) == k { e.1 as nat } else { 0 }
}

/// The byte weight of an entry towards key `k`.
pub open spec fn byte_weight(k: Seq<u8>) -> spec_fn((Seq<char>, u64, u64)) -> nat {
    |e: (Seq<char>, u64, u64)| if entry_key(e) == k { e.2 as nat } else { 0 }
}

/// The count weight of an entry towards the whole table.
pub open spec fn total_num_weight() -> spec_fn((Seq<char>, u64, u64)) -> nat {
    |e: (Seq<char>, u64, u64)| e.1 as nat
}

/// The byte weight of an entry towards the whole table.
pub open spec fn total_byte_weight() -> spec_fn((Seq<char>, u64, u64)) -> nat {
    |e: (Seq<char>, u64, u64)| e.2 as nat
}

/// The record count the table stores under key `k` (0 when absent).
pub open spec fn num_at(v: Seq<(Seq<char>, u64, u64)>, k: Seq<u8>) -> nat {
    sum_by(v, num_weight(k))
}

/// The byte total the table stores under key `k` (0 when absent).
pub open spec fn bytes_at(v: Seq<(Seq<char>, u64, u64)>, k: Seq<u8>) -> nat {
    sum_by(v, byte_weight(k))
}

/// The table has an entry whose key is `k`.
pub open spec fn has_key(v: Seq<(Seq<char>, u64, u64)>, k: Seq<u8>) -> bool {
    exists|i: int| 0 <= i < v.len() && entry_key(#[trigger] v[i]) == k
}

/// Some entry carries exactly this label.
pub open spec fn label_in(v: Seq<(Seq<char>, u64, u64)>, lab: Seq<char>) -> bool {
    exists|i: int| 0 <= i < v.len() && (#[trigger] v[i]).0 == lab
}

/// The sum of all record counts in the table.
pub open spec fn total_num(v: Seq<(Seq<char>, u64, u64)>) -> nat {
    sum_by(v, total_num_weight())
}

/// The sum of all byte totals in the table.
pub open spec fn total_bytes_tbl(v: Seq<(Seq<char>, u64, u64)>) -> nat {
    sum_by(v, total_byte_weight())
}

/// A key that no entry carries contributes nothing to the per-key sums.
pub proof fn lemma_at_absent(v: Seq<(Seq<char>, u64, u64)>, k: Seq<u8>)
    requires
        forall|i: int| 0 <= i < v.len() ==> entry_key(#[trigger] v[i]) != k,
    ensures
        num_at(v, k) == 0,
        bytes_at(v, k) == 0,
    decreases v.len(),
{
    if v.len() > 0 {
        lemma_at_absent(v.drop_last(), k);
    }
}

/// In a sorted table the per-key sums read off the one entry with that key.
pub proof fn lemma_at_entry(v: Seq<(Seq<char>, u64, u64)>, i: int)
    requires
        sorted_keys(v),
        0 <= i < v.len(),
    ensures
        num_at(v, entry_key(v[i])) == v[i].1,
        bytes_at(v, entry_key(v[i])) == v[i].2,
{
    let k = entry_key(v[i]);
    let rest = v.remove(i);
    assert forall|j: int| 0 <= j < rest.len() implies entry_key(#[trigger] rest[j]) != k by {
        if j < i {
            assert(rest[j] == v[j]);
            lemma_lex_lt_asymmetric(entry_key(v[j]), k);
        } else {
            assert(rest[j] == v[j + 1]);
            lemma_lex_lt_asymmetric(k, entry_key(v[j + 1]));
        }
    }
    lemma_at_absent(rest, k);
    lemma_sum_by_remove(v, i, num_weight(k));
    lemma_sum_by_remove(v, i, byte_weight(k));
}

/// In a sorted table every per-key sum fits the accumulator width.
pub proof fn lemma_at_bounded(v: Seq<(Seq<char>, u64, u64)>, k: Seq<u8>)
    requires
        sorted_keys(v),
    ensures
        num_at(v, k) <= u64::MAX,
        bytes_at(v, k) <= u64::MAX,
{
    if has_key(v, k) {
        let i = choose|i: int| 0 <= i < v.len() && entry_key(#[trigger] v[i]) == k;
        lemma_at_entry(v, i);
    } else {
        assert(forall|i: int| 0 <= i < v.len() ==> entry_key(#[trigger] v[i]) != k);
        lemma_at_absent(v, k);
    }
}

impl View for StatsTable {
    type V = Seq<(Seq<char>, u64, u64)>;

    closed spec fn view(&self) -> Seq<(Seq<char>, u64, u64)> {
        self.entries@.map_values(|e: Entry| (e.label@, e.data.num, e.data.bytes))
    }
}

impl StatsTable {
    #[verifier::type_invariant]
    pub(crate) open spec fn wf(self) -> bool {
        sorted_keys(self@)
    }

    /// The number of distinct labels in the table.
    pub fn len(&self) -> (n: usize)
        ensures
            n == self@.len(),
    {
        self.entries.len()
    }

    /// The entry at position `i`: its label, record count and byte total.
    pub fn entry_at(&self, i: usize) -> (r: (&String, u64, u64))
        requires
            i < self@.len(),
        ensures
            r.0@ == self@[i as int].0,
            r.1 == self@[i as int].1,
            r.2 == self@[i as int].2,
    {
        let e = &self.entries[i];
        (&e.label, e.data.num, e.data.bytes)
    }

    /// An empty table: the state at the start of a run.
    pub fn new() -> (t: Self)
        ensures
            t@ =~= Seq::<(Seq<char>, u64, u64)>::empty(),
    {
        let t = StatsTable { entries: Vec::new() };
        proof {
            assert(t@ =~= Seq::<(Seq<char>, u64, u64)>::empty());
        }
        t
    }

    /// Accounts one record with the given label and byte length: the
    /// label's count rises by one and its byte total by `n_bytes`, every
    /// other label's numbers stay, and the sums over the whole table rise
    /// accordingly. Returns false, leaving the table unchanged, exactly
    /// when an accumulator would overflow.
    pub fn record(&mut self, label: String, n_bytes: u64) -> (ok: bool)
        ensures
            ({
                let k = encode_utf8(label@);
                let v0 = old(self)@;
                let v1 = final(self)@;
                &&& (ok <==> (num_at(v0, k) + 1 <= u64::MAX && bytes_at(v0, k) + n_bytes
                    <= u64::MAX))
                &&& (!ok ==> v1 == v0)
                &&& (ok ==> {
                    &&& num_at(v1, k) == num_at(v0, k) + 1
                    &&& bytes_at(v1, k) == bytes_at(v0, k) + n_bytes
                    &&& (forall|k2: Seq<u8>|
                        k2 != k ==> #[trigger] num_at(v1, k2) == num_at(v0, k2))
                    &&& (forall|k2: Seq<u8>|
                        k2 != k ==> #[trigger] bytes_at(v1, k2) == bytes_at(v0, k2))
                    &&& (forall|k2: Seq<u8>|
                        #[trigger] has_key(v1, k2) <==> (has_key(v0, k2) || k2 == k))
                    &&& (forall|i: int|
                        0 <= i < v1.len() ==> ((#[trigger] v1[i]).0 == label@ || label_in(
                            v0,
                            v1[i].0,
                        )))
                    &&& total_num(v1) == total_num(v0) + 1
                    &&& total_bytes_tbl(v1) == total_bytes_tbl(v0) + n_bytes
                })
            }),
    {
        proof {
            use_type_invariant(&*self);
        }
        let ghost k = encode_utf8(label@);
        let ghost v0 = self@;
        let mut es: Vec<Entry> = Vec::new();
        core::mem::swap(&mut es, &mut self.entries);
        let n = es.len();
        let mut i: usize = 0;
        while i < n
            invariant
                i <= n,
                n == es@.len(),
                v0 == es@.map_values(|e: Entry| (e.label@, e.data.num, e.data.bytes)),
                v0 == old(self)@,
                k == encode_utf8(label@),
                sorted_keys(v0),
                self.entries@.len() == 0,
                forall|j: int| 0 <= j < i ==> lex_lt(entry_key(#[trigger] v0[j]), k),
            decreases n - i,
        {
            match bytes_cmp(es[i].label.as_str().as_bytes(), label.as_str().as_bytes()) {
                Cmp::Lt => {
                    i = i + 1;
                }
                Cmp::Eq => {
                    proof {
                        assert(v0[i as int] == (es@[i as int].label@, es@[i as int].data.num,
                        es@[i as int].data.bytes));
                        assert(entry_key(v0[i as int]) == k);
                        lemma_at_entry(v0, i as int);
                    }
                    let num0 = es[i].data.num;
                    let bytes0 = es[i].data.bytes;
                    let new_num = match num0.checked_add(1) {
                        Some(m) => m,
                        None => {
                            self.entries = es;
                            proof {
                                assert(self@ =~= v0);
                            }
                            return false;
                        },
                    };
                    let new_bytes = match bytes0.checked_add(n_bytes) {
                        Some(m) => m,
                        None => {
                            self.entries = es;
                            proof {
                                assert(self@ =~= v0);
                            }
                            return false;
                        },
                    };
                    let e = Entry { label, data: TypeData { num: new_num, bytes: new_bytes } };
                    es[i] = e;
                    proof {
                        let v1 = es@.map_values(
                            |e: Entry| (e.label@, e.data.num, e.data.bytes),
                        );
                        assert(v1 =~= v0.update(i as int, (label@, new_num, new_bytes)));
                        assert(v1.remove(i as int) =~= v0.remove(i as int));
                        assert(v1[i as int] == (label@, new_num, new_bytes));
                        assert(entry_key(v1[i as int]) == k);
                        assert forall|j: int| 0 <= j < v1.len() implies entry_key(
                            #[trigger] v1[j],
                        ) == entry_key(v0[j]) by {}
                        assert forall|k2: Seq<u8>| #[trigger] num_at(v1, k2) == if k2 == k {
                            num_at(v0, k2) + 1
                        } else {
                            num_at(v0, k2)
                        } by {
                            lemma_sum_by_remove(v0, i as int, num_weight(k2));
                            lemma_sum_by_remove(v1, i as int, num_weight(k2));
                            assert(sum_by(v1.remove(i as int), num_weight(k2)) == sum_by(
                                v0.remove(i as int),
                                num_weight(k2),
                            ));
                            assert(num_weight(k2)(v0[i as int]) == if k2 == k {
                                num0 as nat
                            } else {
                                0nat
                            });
                            assert(num_weight(k2)(v1[i as int]) == if k2 == k {
                                new_num as nat
                            } else {
                                0nat
                            });
                        }
                        assert forall|k2: Seq<u8>| #[trigger] bytes_at(v1, k2) == if k2 == k {
                            bytes_at(v0, k2) + n_bytes as nat
                        } else {
                            bytes_at(v0, k2)
                        } by {
                            lemma_sum_by_remove(v0, i as int, byte_weight(k2));
                            lemma_sum_by_remove(v1, i as int, byte_weight(k2));
                            assert(sum_by(v1.remove(i as int), byte_weight(k2)) == sum_by(
                                v0.remove(i as int),
                                byte_weight(k2),
                            ));
                            assert(byte_weight(k2)(v0[i as int]) == if k2 == k {
                                bytes0 as nat
                            } else {
                                0nat
                            });
                            assert(byte_weight(k2)(v1[i as int]) == if k2 == k {
                                new_bytes as nat
                            } else {
                                0nat
                            });
                        }
                        lemma_sum_by_remove(v0, i as int, total_num_weight());
                        lemma_sum_by_remove(v1, i as int, total_num_weight());
                        lemma_sum_by_remove(v0, i as int, total_byte_weight());
                        lemma_sum_by_remove(v1, i as int, total_byte_weight());
                        assert(total_num_weight()(v0[i as int]) == num0 as nat);
                        assert(total_num_weight()(v1[i as int]) == new_num as nat);
                        assert(total_byte_weight()(v0[i as int]) == bytes0 as nat);
                        assert(total_byte_weight()(v1[i as int]) == new_bytes as nat);
                        assert forall|k2: Seq<u8>| #[trigger] has_key(v1, k2) implies (has_key(
                            v0,
                            k2,
                        ) || k2 == k) by {
                            let w = choose|w: int|
                                0 <= w < v1.len() && entry_key(#[trigger] v1[w]) == k2;
                            if w != i {
                                assert(entry_key(v0[w]) == k2);
                            }
                        }
                        assert forall|k2: Seq<u8>| (has_key(v0, k2) || k2 == k) implies #[trigger]
                            has_key(v1, k2) by {
                            if has_key(v0, k2) {
                                let w = choose|w: int|
                                    0 <= w < v0.len() && entry_key(#[trigger] v0[w]) == k2;
                                assert(entry_key(v1[w]) == k2);
                            } else {
                                assert(entry_key(v1[i as int]) == k2);
                            }
                        }
                    }
                    self.entries = es;
                    return true;
                }
                Cmp::Gt => {
                    proof {
                        assert(v0[i as int] == (es@[i as int].label@, es@[i as int].data.num,
                        es@[i as int].data.bytes));
                        assert(lex_lt(k, entry_key(v0[i as int])));
                        assert forall|j: int| i <= j < v0.len() implies lex_lt(
                            k,
                            entry_key(#[trigger] v0[j]),
                        ) by {
                            if j > i {
                                lemma_lex_lt_transitive(k, entry_key(v0[i as int]), entry_key(v0[j]));
                            }
                        }
                        assert forall|j: int| 0 <= j < v0.len() implies entry_key(
                            #[trigger] v0[j],
                        ) != k by {
                            if j < i {
                                lemma_lex_lt_asymmetric(entry_key(v0[j]), k);
                            } else {
                                lemma_lex_lt_asymmetric(k, entry_key(v0[j]));
                            }
                        }
                        lemma_at_absent(v0, k);
                    }
                    let e = Entry { label, data: TypeData { num: 1, bytes: n_bytes } };
                    es.insert(i, e);
                    proof {
                        let v1 = es@.map_values(
                            |e: Entry| (e.label@, e.data.num, e.data.bytes),
                        );
                        assert(v1 =~= v0.insert(i as int, (label@, 1u64, n_bytes)));
                        assert(v1.remove(i as int) =~= v0);
                        assert(entry_key(v1[i as int]) == k);
                        Self::lemma_after_insert(v0, v1, i as int, k, label@, 1u64, n_bytes);
                    }
                    self.entries = es;
                    return true;
                }
            }
        }
        proof {
            assert forall|j: int| 0 <= j < v0.len() implies entry_key(#[trigger] v0[j]) != k by {
                lemma_lex_lt_asymmetric(entry_key(v0[j]), k);
            }
            lemma_at_absent(v0, k);
        }
        let e = Entry { label, data: TypeData { num: 1, bytes: n_bytes } };
        es.push(e);
        proof {
            let v1 = es@.map_values(|e: Entry| (e.label@, e.data.num, e.data.bytes));
            assert(v1 =~= v0.insert(v0.len() as int, (label@, 1u64, n_bytes)));
            assert(v1.remove(v0.len() as int) =~= v0);
            assert(entry_key(v1[v0.len() as int]) == k);
            Self::lemma_after_insert(v0, v1, v0.len() as int, k, label@, 1u64, n_bytes);
        }
        self.entries = es;
        true
    }

    /// How every aggregate changes when a fresh entry for an absent key is
    /// placed at position `i`, all smaller keys before it and all larger
    /// keys after it.
    proof fn lemma_after_insert(
        v0: Seq<(Seq<char>, u64, u64)>,
        v1: Seq<(Seq<char>, u64, u64)>,
        i: int,
        k: Seq<u8>,
        lab: Seq<char>,
        num: u64,
        bytes: u64,
    )
        requires
            sorted_keys(v0),
            0 <= i <= v0.len(),
            v1 == v0.insert(i, (lab, num, bytes)),
            v1.remove(i) == v0,
            k == encode_utf8(lab),
            forall|j: int| 0 <= j < i ==> lex_lt(entry_key(#[trigger] v0[j]), k),
            forall|j: int| i <= j < v0.len() ==> lex_lt(k, entry_key(#[trigger] v0[j])),
        ensures
            sorted_keys(v1),
            num_at(v1, k) == num_at(v0, k) + num,
            bytes_at(v1, k) == bytes_at(v0, k) + bytes,
            forall|k2: Seq<u8>| k2 != k ==> #[trigger] num_at(v1, k2) == num_at(v0, k2),
            forall|k2: Seq<u8>| k2 != k ==> #[trigger] bytes_at(v1, k2) == bytes_at(v0, k2),
            forall|k2: Seq<u8>| #[trigger] has_key(v1, k2) <==> (has_key(v0, k2) || k2 == k),
            forall|w: int|
                0 <= w < v1.len() ==> ((#[trigger] v1[w]).0 == lab || label_in(v0, v1[w].0)),
            total_num(v1) == total_num(v0) + num,
            total_bytes_tbl(v1) == total_bytes_tbl(v0) + bytes,
    {
        assert(v1[i] == (lab, num, bytes));
        assert(entry_key(v1[i]) == k);
        assert forall|p: int, q: int| 0 <= p < q < v1.len() implies lex_lt(
            entry_key(#[trigger] v1[p]),
            entry_key(#[trigger] v1[q]),
        ) by {
            if p < i && q == i {
                assert(v1[p] == v0[p]);
            } else if p == i && q > i {
                assert(v1[q] == v0[q - 1]);
            } else if p < i && q > i {
                assert(v1[p] == v0[p] && v1[q] == v0[q - 1]);
                lemma_lex_lt_transitive(entry_key(v0[p]), k, entry_key(v0[q - 1]));
            } else if p > i && q > i {
                assert(v1[p] == v0[p - 1] && v1[q] == v0[q - 1]);
            } else if p < i && q < i {
                assert(v1[p] == v0[p] && v1[q] == v0[q]);
            }
        }
        assert forall|k2: Seq<u8>| #[trigger] num_at(v1, k2) == if k2 == k {
            num_at(v0, k2) + num as nat
        } else {
            num_at(v0, k2)
        } by {
            lemma_sum_by_remove(v1, i, num_weight(k2));
            assert(sum_by(v1.remove(i), num_weight(k2)) == sum_by(v0, num_weight(k2)));
            assert(num_weight(k2)(v1[i]) == if k2 == k {
                num as nat
            } else {
                0nat
            });
        }
        assert forall|k2: Seq<u8>| #[trigger] bytes_at(v1, k2) == if k2 == k {
            bytes_at(v0, k2) + bytes as nat
        } else {
            bytes_at(v0, k2)
        } by {
            lemma_sum_by_remove(v1, i, byte_weight(k2));
            assert(sum_by(v1.remove(i), byte_weight(k2)) == sum_by(v0, byte_weight(k2)));
            assert(byte_weight(k2)(v1[i]) == if k2 == k {
                bytes as nat
            } else {
                0nat
            });
        }
        lemma_sum_by_remove(v1, i, total_num_weight());
        lemma_sum_by_remove(v1, i, total_byte_weight());
        assert(total_num_weight()(v1[i]) == num as nat);
        assert(total_byte_weight()(v1[i]) == bytes as nat);
        assert forall|k2: Seq<u8>| #[trigger] has_key(v1, k2) implies (has_key(v0, k2) || k2
            == k) by {
            let w = choose|w: int| 0 <= w < v1.len() && entry_key(#[trigger] v1[w]) == k2;
            if w < i {
                assert(entry_key(v0[w]) == k2);
            } else if w > i {
                assert(entry_key(v0[w - 1]) == k2);
            }
        }
        assert forall|k2: Seq<u8>| (has_key(v0, k2) || k2 == k) implies #[trigger] has_key(
            v1,
            k2,
        ) by {
            if has_key(v0, k2) {
                let w = choose|w: int| 0 <= w < v0.len() && entry_key(#[trigger] v0[w]) == k2;
                if w < i {
                    assert(entry_key(v1[w]) == k2);
                } else {
                    assert(entry_key(v1[w + 1]) == k2);
                }
            } else {
                assert(entry_key(v1[i]) == k2);
            }
        }
        assert forall|w: int| 0 <= w < v1.len() implies ((#[trigger] v1[w]).0 == lab || label_in(
            v0,
            v1[w].0,
        )) by {
            if w < i {
                assert(v1[w] == v0[w]);
            } else if w > i {
                assert(v1[w] == v0[w - 1]);
            }
        }
    }
}

} // verus!
