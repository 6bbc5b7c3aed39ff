//! Deterministic, human-readable output.
//!
//! A completed table is emitted as one line per label, in the table's
//! strictly ascending label order; every line shows the label, the record
//! count and the byte total, in that order. Numbers are rendered in
//! decimal by [`dec_chars`], so each report line is pinned, character by
//! character, by [`report_line`]. Error descriptions are pinned the same
//! way by [`message_of`].

use vstd::prelude::*;

verus! {

use vstd::string::StringExecFns;
use crate::process::{
    AggError, error_matches, process_lines, table_matches, total_line_bytes,
};
use crate::stats::{StatsTable, sorted_keys, total_bytes_tbl, total_num};

/// The decimal digit character of `d` (for `d < 10`).
pub open spec fn dec_digit(d: nat) -> char {
    ((48 + d) as u8) as char
}

/// The decimal rendering of `n`, most significant digit first, without
/// leading zeros (`0` itself is rendered as one digit).
pub open spec fn dec_chars(n: nat) -> Seq<char>
    decreases n,
{
    if n < 10 {
        seq![dec_digit(n)]
    } else {
        dec_chars(n / 10).push(dec_digit(n % 10))
    }
}

/// Relies on `String::from_iter` (through `collect`): the string holds
/// exactly the given characters, in order.
#[verifier::external_body]
fn chars_to_string(v: Vec<char>) -> (s: String)
    ensures
        s@ == v@,
{
    v.into_iter().collect()
}

/// Appends the decimal digits of `n` to `out`.
fn push_dec(n: u64, out: &mut Vec<char>)
    ensures
        final(out)@ == old(out)@ + dec_chars(n as nat),
    decreases n,
{
    let ghost pre = out@;
    if n >= 10 {
        push_dec(n / 10, out);
    }
    let d: u8 = (n % 10) as u8;
    let c: char = (48 + d) as char;
    out.push(c);
    proof {
        assert(c == dec_digit(n as nat % 10));
        if n < 10 {
            assert(out@ =~= pre + dec_chars(n as nat));
        } else {
            assert(out@ =~= pre + dec_chars(n as nat / 10).push(dec_digit(n as nat % 10)));
        }
    }
}

/// The decimal rendering of `n` as a string.
pub fn u64_to_string(n: u64) -> (s: String)
    ensures
        s@ == dec_chars(n as nat),
{
    let mut chars: Vec<char> = Vec::new();
    push_dec(n, &mut chars);
    proof {
        assert(chars@ =~= dec_chars(n as nat));
    }
    chars_to_string(chars)
}

/// The report line of one table entry: its label, quoted, then the record
/// count, then the byte total.
pub open spec fn report_line(e: (Seq<char>, u64, u64)) -> Seq<char> {
    "Type \""@ + e.0 + "\": Number of Objects: "@ + dec_chars(e.1 as nat)
        + "; Total Bytes: "@ + dec_chars(e.2 as nat)
}

/// Renders the completed table: one line per entry, in the table's own
/// order, which is strictly ascending by label. The output depends on the
/// table's contents alone.
pub fn render_report(table: &StatsTable) -> (out: Vec<String>)
    ensures
        sorted_keys(table@),
        out@.len() == table@.len(),
        forall|i: int| 0 <= i < table@.len() ==> (#[trigger] out@[i])@ == report_line(table@[i]),
{
    proof {
        use_type_invariant(&*table);
    }
    let mut out: Vec<String> = Vec::new();
    let n = table.len();
    let mut i: usize = 0;
    while i < n
        invariant
            i <= n,
            n == table@.len(),
            out@.len() == i,
            forall|j: int| 0 <= j < i ==> (#[trigger] out@[j])@ == report_line(table@[j]),
        decreases n - i,
    {
        let (lab, num, bytes) = table.entry_at(i);
        let mut line = String::new();
        line.append("Type \"");
        line.append(lab.as_str());
        line.append("\": Number of Objects: ");
        let num_str = u64_to_string(num);
        line.append(num_str.as_str());
        line.append("; Total Bytes: ");
        let bytes_str = u64_to_string(bytes);
        line.append(bytes_str.as_str());
        proof {
            assert(line@ =~= report_line(table@[i as int]));
        }
        out.push(line);
        i = i + 1;
    }
    out
}

/// One whole run: aggregates the lines and renders the report, or returns
/// the first failure. The output is one line per distinct label, sorted
/// strictly ascending, whose counts match the lines exactly; in particular
/// the counts sum to the number of lines and the byte totals to the lines'
/// total byte length.
pub fn run_report(lines: &Vec<String>) -> (r: Result<Vec<String>, AggError>)
    ensures
        match r {
            Ok(out) => exists|v: Seq<(Seq<char>, u64, u64)>|
                {
                    &&& #[trigger] sorted_keys(v)
                    &&& table_matches(v, lines.deep_view())
                    &&& total_num(v) == lines.deep_view().len()
                    &&& total_bytes_tbl(v) == total_line_bytes(lines.deep_view())
                    &&& out@.len() == v.len()
                    &&& forall|i: int|
                        0 <= i < v.len() ==> (#[trigger] out@[i])@ == report_line(v[i])
                },
            Err(e) => error_matches(e, lines.deep_view()),
        },
{
    match process_lines(lines) {
        Ok(table) => {
            let out = render_report(&table);
            proof {
                assert(sorted_keys(table@));
            }
            Ok(out)
        },
        Err(e) => Err(e),
    }
}

/// The description of an error: the failing line's 1-based number and, for
/// a parse failure, its raw text; for an I/O failure, the file's path.
pub open spec fn message_of(e: AggError) -> Seq<char> {
    match e {
        AggError::Io { path } => "Could not open the file "@ + path@,
        AggError::Decode { line } => "Could not process line number "@ + dec_chars(line as nat)
            + ": could not read valid text from the file"@,
        AggError::Parse { line, text } => "Could not process line number "@ + dec_chars(
            line as nat,
        ) + ": could not parse `"@ + text@ + "`"@,
        AggError::Overflow { line } => "Could not process line number "@ + dec_chars(line as nat)
            + ": total number of bytes processed exceeded the 64-bit range"@,
    }
}

/// Renders an error description, exactly as [`message_of`] states it.
pub fn error_message(e: &AggError) -> (s: String)
    ensures
        s@ == message_of(*e),
{
    match e {
        AggError::Io { path } => {
            let mut s = String::new();
            s.append("Could not open the file ");
            s.append(path.as_str());
            proof {
                assert(s@ =~= message_of(*e));
            }
            s
        },
        AggError::Decode { line } => {
            let mut s = String::new();
            s.append("Could not process line number ");
            let line_str = u64_to_string(*line as u64);
            s.append(line_str.as_str());
            s.append(": could not read valid text from the file");
            proof {
                assert(s@ =~= message_of(*e));
            }
            s
        },
        AggError::Parse { line, text } => {
            let mut s = String::new();
            s.append("Could not process line number ");
            let line_str = u64_to_string(*line as u64);
            s.append(line_str.as_str());
            s.append(": could not parse `");
            s.append(text.as_str());
            s.append("`");
            proof {
                assert(s@ =~= message_of(*e));
            }
            s
        },
        AggError::Overflow { line } => {
            let mut s = String::new();
            s.append("Could not process line number ");
            let line_str = u64_to_string(*line as u64);
            s.append(line_str.as_str());
            s.append(": total number of bytes processed exceeded the 64-bit range");
            proof {
                assert(s@ =~= message_of(*e));
            }
            s
        },
    }
}

} // verus!
