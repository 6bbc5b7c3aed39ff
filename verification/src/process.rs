//! Processing a file's lines into a completed statistics table.
//!
//! The model of a run is stated over the sequence of lines alone:
//! [`count_of`] and [`bytes_of`] give, per aggregation key, how many lines
//! carry that key and how many bytes they use; [`keys_of`] gives the set of
//! keys that occur. [`process_lines`] either returns a table that matches
//! those functions exactly ([`table_matches`]), or the first error, with
//! the 1-based number of the line at which it arose.

use vstd::prelude::*;

verus! {

use crate::decode::{byte_len, extract_type_label, key_of, label_of, line_ok};
use crate::stats::{
    StatsTable, bytes_at, has_key, label_in, lemma_at_bounded, num_at, sorted_keys, total_bytes_tbl,
    total_num,
};
use crate::sums::sum_by;

/// What one line contributes to the record count of key `k`.
pub open spec fn count_weight(k: Seq<u8>) -> spec_fn(Seq<char>) -> nat {
    |l: Seq<char>| if line_ok(l) && key_of(l) == k { 1nat } else { 0nat }
}

/// What one line contributes to the byte total of key `k`.
pub open spec fn line_weight(k: Seq<u8>) -> spec_fn(Seq<char>) -> nat {
    |l: Seq<char>| if line_ok(l) && key_of(l) == k { byte_len(l) } else { 0nat }
}

/// What one line contributes to the byte total of the whole file.
pub open spec fn len_weight() -> spec_fn(Seq<char>) -> nat {
    |l: Seq<char>| byte_len(l)
}

/// How many lines carry key `k`.
pub open spec fn count_of(lines: Seq<Seq<char>>, k: Seq<u8>) -> nat {
    sum_by(lines, count_weight(k))
}

/// How many bytes the lines carrying key `k` use in all.
pub open spec fn bytes_of(lines: Seq<Seq<char>>, k: Seq<u8>) -> nat {
    sum_by(lines, line_weight(k))
}

/// How many bytes all lines use in all.
pub open spec fn total_line_bytes(lines: Seq<Seq<char>>) -> nat {
    sum_by(lines, len_weight())
}

/// The set of aggregation keys that occur among the lines.
pub open spec fn keys_of(lines: Seq<Seq<char>>) -> Set<Seq<u8>> {
    Set::new(
        |k: Seq<u8>|
            exists|i: int| 0 <= i < lines.len() && line_ok(#[trigger] lines[i]) && key_of(lines[i])
                == k,
    )
}

/// Some line that parses carries exactly this label.
pub open spec fn label_from_lines(lines: Seq<Seq<char>>, lab: Seq<char>) -> bool {
    exists|j: int| 0 <= j < lines.len() && line_ok(#[trigger] lines[j]) && label_of(lines[j]) == lab
}

/// The first `n` lines all parse and no byte accumulator overflows on them.
pub open spec fn prefix_ok(lines: Seq<Seq<char>>, n: int) -> bool {
    &&& forall|i: int| 0 <= i < n ==> line_ok(#[trigger] lines[i])
    &&& forall|k: Seq<u8>| #[trigger] bytes_of(lines.take(n), k) <= u64::MAX
}

/// The table's view agrees with the lines on every key: same counts, same
/// byte totals, entries for exactly the keys that occur, and no label that
/// no line carries.
pub open spec fn table_matches(v: Seq<(Seq<char>, u64, u64)>, lines: Seq<Seq<char>>) -> bool {
    &&& forall|k: Seq<u8>| #[trigger] num_at(v, k) == count_of(lines, k)
    &&& forall|k: Seq<u8>| #[trigger] bytes_at(v, k) == bytes_of(lines, k)
    &&& forall|k: Seq<u8>| #[trigger] has_key(v, k) <==> keys_of(lines).contains(k)
    &&& forall|i: int| 0 <= i < v.len() ==> label_from_lines(lines, (#[trigger] v[i]).0)
}

/// Why one line could not be accounted.
#[derive(Debug)]
pub enum LineError {
    /// The line is not a JSON object with a string-valued `type` field.
    Parse,
    /// An accumulator for the line's label would overflow.
    Overflow,
}

/// Why a run failed, with its context; see [`crate::report::error_message`].
#[derive(Debug)]
pub enum AggError {
    /// The file could not be opened or read.
    Io { path: String },
    /// The line's bytes are not valid text.
    Decode { line: usize },
    /// The line is not a JSON object with a string-valued `type` field.
    Parse { line: usize, text: String },
    /// An accumulator would exceed the 64-bit range at this line.
    Overflow { line: usize },
}

/// Which failure `process_lines` reports for these lines: the number of
/// the first offending line (1-based) with its raw text when it did not
/// parse, or the line at which a byte accumulator would leave the 64-bit
/// range. I/O failures arise outside this function.
pub open spec fn error_matches(e: AggError, ls: Seq<Seq<char>>) -> bool {
    match e {
        AggError::Parse { line, text } => {
            &&& 1 <= line <= ls.len()
            &&& prefix_ok(ls, line - 1)
            &&& !line_ok(ls[line - 1])
            &&& text@ == ls[line - 1]
        },
        AggError::Overflow { line } => {
            &&& 1 <= line <= ls.len()
            &&& prefix_ok(ls, line - 1)
            &&& line_ok(ls[line - 1])
            &&& bytes_of(ls.take(line as int), key_of(ls[line - 1])) > u64::MAX
        },
        AggError::Io { .. } => false,
        AggError::Decode { .. } => false,
    }
}

/// No key can be carried by more lines than there are.
pub proof fn lemma_count_le_len(lines: Seq<Seq<char>>, k: Seq<u8>)
    ensures
        count_of(lines, k) <= lines.len(),
    decreases lines.len(),
{
    if lines.len() > 0 {
        lemma_count_le_len(lines.drop_last(), k);
        assert(count_weight(k)(lines.last()) <= 1);
    }
}

/// Accounts one line: decodes its type label and records the line's byte
/// length under it. On success the table changes exactly as
/// [`StatsTable::record`] says for the line's key; on any error it is
/// unchanged.
pub fn process_line(stats: &mut StatsTable, line: &str) -> (r: Result<(), LineError>)
    ensures
        ({
            let v0 = old(stats)@;
            let v1 = final(stats)@;
            let k = key_of(line@);
            match r {
                Ok(()) => {
                    &&& line_ok(line@)
                    &&& num_at(v0, k) + 1 <= u64::MAX
                    &&& bytes_at(v0, k) + byte_len(line@) <= u64::MAX
                    &&& num_at(v1, k) == num_at(v0, k) + 1
                    &&& bytes_at(v1, k) == bytes_at(v0, k) + byte_len(line@)
                    &&& (forall|k2: Seq<u8>|
                        k2 != k ==> #[trigger] num_at(v1, k2) == num_at(v0, k2))
                    &&& (forall|k2: Seq<u8>|
                        k2 != k ==> #[trigger] bytes_at(v1, k2) == bytes_at(v0, k2))
                    &&& (forall|k2: Seq<u8>|
                        #[trigger] has_key(v1, k2) <==> (has_key(v0, k2) || k2 == k))
                    &&& (forall|i: int|
                        0 <= i < v1.len() ==> ((#[trigger] v1[i]).0 == label_of(line@)
                            || label_in(v0, v1[i].0)))
                    &&& total_num(v1) == total_num(v0) + 1
                    &&& total_bytes_tbl(v1) == total_bytes_tbl(v0) + byte_len(line@)
                },
                Err(LineError::Parse) => {
                    &&& !line_ok(line@)
                    &&& v1 == v0
                },
                Err(LineError::Overflow) => {
                    &&& line_ok(line@)
                    &&& (num_at(v0, k) + 1 > u64::MAX || bytes_at(v0, k) + byte_len(line@)
                        > u64::MAX)
                    &&& v1 == v0
                },
            }
        }),
{
    match extract_type_label(line) {
        None => Err(LineError::Parse),
        Some(lab) => {
            let n = line.as_bytes().len();
            let n64 = n as u64;
            proof {
                assert(n64 == byte_len(line@));
                assert(vstd::utf8::encode_utf8(lab@) == key_of(line@));
            }
            if stats.record(lab, n64) {
                Ok(())
            } else {
                Err(LineError::Overflow)
            }
        },
    }
}

/// Processes a whole file's lines, in order, starting at line number 1.
/// Either every line is accounted and the returned table matches the lines
/// exactly — in particular its counts sum to the number of lines and its
/// byte totals to the lines' total byte length — or the first failure is
/// returned: the number of the offending line, with its text when it did
/// not parse. No partial table is returned.
pub fn process_lines(lines: &Vec<String>) -> (r: Result<StatsTable, AggError>)
    ensures
        ({
            let ls = lines.deep_view();
            match r {
                Ok(t) => {
                    &&& prefix_ok(ls, ls.len() as int)
                    &&& sorted_keys(t@)
                    &&& table_matches(t@, ls)
                    &&& total_num(t@) == ls.len()
                    &&& total_bytes_tbl(t@) == total_line_bytes(ls)
                },
                Err(e) => error_matches(e, ls),
            }
        }),
{
    let ghost ls = lines.deep_view();
    let mut table = StatsTable::new();
    let n = lines.len();
    let mut i: usize = 0;
    proof {
        assert(ls.take(0) =~= Seq::<Seq<char>>::empty());
        assert(table@.len() == 0);
        lemma_table_empty(table@, ls.take(0));
    }
    while i < n
        invariant
            i <= n,
            n == lines@.len(),
            ls == lines.deep_view(),
            ls.len() == n,
            prefix_ok(ls, i as int),
            sorted_keys(table@),
            forall|k: Seq<u8>| #[trigger] num_at(table@, k) == count_of(ls.take(i as int), k),
            forall|k: Seq<u8>| #[trigger] bytes_at(table@, k) == bytes_of(ls.take(i as int), k),
            forall|k: Seq<u8>|
                #[trigger] has_key(table@, k) <==> keys_of(ls.take(i as int)).contains(k),
            forall|w: int|
                0 <= w < table@.len() ==> label_from_lines(
                    ls.take(i as int),
                    (#[trigger] table@[w]).0,
                ),
            total_num(table@) == i,
            total_bytes_tbl(table@) == total_line_bytes(ls.take(i as int)),
        decreases n - i,
    {
        let ghost v0 = table@;
        let ghost prefix = ls.take(i as int);
        let ghost longer = ls.take(i as int + 1);
        proof {
            assert(lines@[i as int]@ == ls[i as int]);
            assert(longer.drop_last() =~= prefix);
            assert(longer.last() == ls[i as int]);
        }
        let line: &String = &lines[i];
        match process_line(&mut table, line.as_str()) {
            Ok(()) => {
                proof {
                    use_type_invariant(&table);
                    let l = ls[i as int];
                    let k = key_of(l);
                    assert forall|k2: Seq<u8>| #[trigger] count_of(longer, k2) == count_of(
                        prefix,
                        k2,
                    ) + count_weight(k2)(l) && #[trigger] bytes_of(longer, k2) == bytes_of(
                        prefix,
                        k2,
                    ) + line_weight(k2)(l) by {}
                    assert forall|k2: Seq<u8>| #[trigger] num_at(table@, k2) == count_of(
                        longer,
                        k2,
                    ) by {
                        assert(count_weight(k2)(l) == if k2 == k {
                            1nat
                        } else {
                            0nat
                        });
                    }
                    assert forall|k2: Seq<u8>| #[trigger] bytes_at(table@, k2) == bytes_of(
                        longer,
                        k2,
                    ) by {
                        assert(line_weight(k2)(l) == if k2 == k {
                            byte_len(l)
                        } else {
                            0nat
                        });
                    }
                    assert forall|k2: Seq<u8>| #[trigger] has_key(table@, k2) <==> keys_of(
                        longer,
                    ).contains(k2) by {
                        if has_key(table@, k2) {
                            if has_key(v0, k2) {
                                let w = choose|w: int|
                                    0 <= w < prefix.len() && line_ok(#[trigger] prefix[w])
                                        && key_of(prefix[w]) == k2;
                                assert(longer[w] == prefix[w]);
                                assert(keys_of(longer).contains(k2));
                            } else {
                                assert(k2 == k);
                                assert(longer[i as int] == l);
                                assert(keys_of(longer).contains(k2));
                            }
                        }
                        if keys_of(longer).contains(k2) {
                            let w = choose|w: int|
                                0 <= w < longer.len() && line_ok(#[trigger] longer[w]) && key_of(
                                    longer[w],
                                ) == k2;
                            if w < i {
                                assert(prefix[w] == longer[w]);
                                assert(keys_of(prefix).contains(k2));
                            } else {
                                assert(longer[w] == l);
                                assert(k2 == k);
                            }
                        }
                    }
                    assert forall|w: int| 0 <= w < table@.len() implies label_from_lines(
                        longer,
                        (#[trigger] table@[w]).0,
                    ) by {
                        if table@[w].0 == label_of(l) {
                            assert(longer[i as int] == l);
                        } else {
                            assert(label_in(v0, table@[w].0));
                            let u = choose|u: int| 0 <= u < v0.len() && (#[trigger] v0[u]).0
                                == table@[w].0;
                            assert(label_from_lines(prefix, v0[u].0));
                            let j = choose|j: int|
                                0 <= j < prefix.len() && line_ok(#[trigger] prefix[j]) && label_of(
                                    prefix[j],
                                ) == v0[u].0;
                            assert(longer[j] == prefix[j]);
                        }
                    }
                    assert forall|k2: Seq<u8>| #[trigger] bytes_of(longer, k2) <= u64::MAX by {
                        lemma_at_bounded(table@, k2);
                    }
                    assert(total_line_bytes(longer) == total_line_bytes(prefix) + byte_len(l));
                }
                i = i + 1;
            },
            Err(LineError::Parse) => {
                return Err(AggError::Parse { line: i + 1, text: line.clone() });
            },
            Err(LineError::Overflow) => {
                proof {
                    let l = ls[i as int];
                    let k = key_of(l);
                    lemma_count_le_len(prefix, k);
                    assert(num_at(v0, k) <= i);
                    assert(num_at(v0, k) + 1 <= u64::MAX);
                    assert(bytes_at(v0, k) + byte_len(l) > u64::MAX);
                    assert(line_weight(k)(l) == byte_len(l));
                    assert(bytes_of(longer, k) == bytes_of(prefix, k) + byte_len(l));
                }
                return Err(AggError::Overflow { line: i + 1 });
            },
        }
    }
    proof {
        assert(ls.take(n as int) =~= ls);
    }
    Ok(table)
}

/// An empty table matches an empty sequence of lines.
proof fn lemma_table_empty(v: Seq<(Seq<char>, u64, u64)>, lines: Seq<Seq<char>>)
    requires
        v.len() == 0,
        lines.len() == 0,
    ensures
        forall|k: Seq<u8>| #[trigger] num_at(v, k) == count_of(lines, k),
        forall|k: Seq<u8>| #[trigger] bytes_at(v, k) == bytes_of(lines, k),
        forall|k: Seq<u8>| #[trigger] has_key(v, k) <==> keys_of(lines).contains(k),
        total_num(v) == 0,
        total_bytes_tbl(v) == 0,
        total_line_bytes(lines) == 0,
        prefix_ok(lines, 0),
{
}

} // verus!
