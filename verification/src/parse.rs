//! Splitting one input line into a record.
//!
//! A line holds exactly one `;`; the text ahead of it is the key, taken
//! verbatim, and the text after it must be a decimal numeral.  A line that
//! breaks either rule is rejected with the matching error.

use vstd::prelude::*;

use crate::number::number_fits;
use crate::number::number_val;
use crate::number::parse_number;
use crate::number::VALUE_LIMIT;
use crate::scan::contains_char;
use crate::scan::first_idx;
use crate::scan::lemma_first_idx_at;

verus! {

/// Why a record was rejected.
#[derive(Clone, Copy, Debug, PartialEq, Eq, Structural)]
pub enum RecordError {
    /// The line does not split into exactly two `;`-separated fields.
    MalformedRecord,
    /// The value field is not a decimal numeral the representation holds.
    InvalidNumber,
}

/// Exactly one `;` occurs in the line.
pub open spec fn wf_line(l: Seq<char>) -> bool {
    &&& contains_char(l, ';')
    &&& forall|j: int| 0 <= j < l.len() && j != first_idx(l, ';') ==> l[j] != ';'
}

/// The key field: everything ahead of the separator.
pub open spec fn key_of(l: Seq<char>) -> Seq<char> {
    l.take(first_idx(l, ';'))
}

/// The value field: everything after the separator.
pub open spec fn num_of(l: Seq<char>) -> Seq<char> {
    l.skip(first_idx(l, ';') + 1)
}

/// A line that yields a record.
pub open spec fn line_ok(l: Seq<char>) -> bool {
    wf_line(l) && number_fits(num_of(l))
}

/// The error a bad line is rejected with.
pub open spec fn error_of(l: Seq<char>) -> RecordError {
    if !wf_line(l) {
        RecordError::MalformedRecord
    } else {
        RecordError::InvalidNumber
    }
}

/// Splits a line into its key and its value.
#[verifier::loop_isolation(false)]
pub fn parse_line(l: &str) -> (r: Result<(String, i64), RecordError>)
    ensures
        r.is_ok() == line_ok(l@),
        r matches Ok(kv) ==> kv.0@ == key_of(l@) && kv.1 == number_val(num_of(l@))
            && -VALUE_LIMIT < kv.1 < VALUE_LIMIT,
        !wf_line(l@) ==> r == Err::<(String, i64), RecordError>(RecordError::MalformedRecord),
        wf_line(l@) && !number_fits(num_of(l@)) ==> r == Err::<(String, i64), RecordError>(
            RecordError::InvalidNumber,
        ),
{
    let n = l.unicode_len();
    let mut sep: usize = 0;
    let mut found = false;
    while sep < n && !found
        invariant
            0 <= sep <= n,
            found ==> sep < n && l@[sep as int] == ';',
            forall|j: int| 0 <= j < sep ==> l@[j] != ';',
        decreases n - sep + (if found { 0int } else { 1int }),
    {
        if l.get_char(sep) == ';' {
            found = true;
        } else {
            sep = sep + 1;
        }
    }
    if !found {
        proof {
            assert(!contains_char(l@, ';'));
        }
        return Err(RecordError::MalformedRecord);
    }
    proof {
        lemma_first_idx_at(l@, ';', sep as int);
    }
    let mut j: usize = sep + 1;
    while j < n
        invariant
            sep < j <= n,
            forall|k: int| sep < k < j ==> l@[k] != ';',
        decreases n - j,
    {
        if l.get_char(j) == ';' {
            proof {
                assert(!wf_line(l@));
            }
            return Err(RecordError::MalformedRecord);
        }
        j = j + 1;
    }
    proof {
        assert(wf_line(l@));
    }
    let key = String::from_str(l.substring_char(0, sep));
    let numtxt = l.substring_char(sep + 1, n);
    proof {
        assert(key@ =~= key_of(l@));
        assert(numtxt@ =~= num_of(l@));
    }
    match parse_number(numtxt) {
        Some(v) => Ok((key, v)),
        None => Err(RecordError::InvalidNumber),
    }
}

} // verus!
