//! Rendering the final report, and the whole pipeline over a batch of
//! lines.
//!
//! Each entry is rendered as `key=min/mean/max` with every number reduced
//! to tenths, entries joined with `", "` inside one pair of braces.  The
//! entries come out in strictly ascending key order because the table is
//! kept sorted.

use vstd::prelude::*;

use crate::aggregate::agg_entries;
use crate::aggregate::entries_inv;
use crate::aggregate::lemma_agg_inv;
use crate::aggregate::models;
use crate::aggregate::Aggregator;
use crate::aggregate::EntryModel;
use crate::aggregate::Record;
use crate::aggregate::StationEntry;
use crate::number::mean_tenths;
use crate::number::number_val;
use crate::number::round_half_up;
use crate::number::tenths_chars;
use crate::number::tenths_to_string;
use crate::number::value_tenths;
use crate::number::VALUE_LIMIT;
use crate::parse::error_of;
use crate::parse::key_of;
use crate::parse::line_ok;
use crate::parse::num_of;
use crate::parse::parse_line;
use crate::parse::RecordError;
use crate::station::stat_inv;

verus! {

/// Report text of one entry: `key=min/mean/max`, numbers in tenths.
pub open spec fn entry_chars(e: EntryModel) -> Seq<char> {
    e.key + seq!['='] + tenths_chars(value_tenths(e.st.min)) + seq!['/'] + tenths_chars(
        mean_tenths(e.st.sum, e.st.count),
    ) + seq!['/'] + tenths_chars(value_tenths(e.st.max))
}

/// Entry texts joined with `", "`.
pub open spec fn entries_chars(es: Seq<EntryModel>) -> Seq<char>
    decreases es.len(),
{
    if es.len() == 0 {
        Seq::<char>::empty()
    } else if es.len() == 1 {
        entry_chars(es[0])
    } else {
        entries_chars(es.drop_last()) + seq![',', ' '] + entry_chars(es.last())
    }
}

/// The whole report: the entries inside one pair of braces.
pub open spec fn report_chars(es: Seq<EntryModel>) -> Seq<char> {
    seq!['{'] + entries_chars(es) + seq!['}']
}

/// The character sequences of a batch of lines.
pub open spec fn line_views(lines: Seq<String>) -> Seq<Seq<char>> {
    lines.map_values(|l: String| l@)
}

/// The records of a batch of good lines.
pub open spec fn records_of(ls: Seq<Seq<char>>) -> Seq<Record> {
    ls.map_values(|l: Seq<char>| Record { key: key_of(l), val: number_val(num_of(l)) })
}

/// Rounds `n / d` half away from zero, upwards since both are
/// non-negative.
fn round_div_half(n: u128, d: u128) -> (t: u128)
    requires
        2 <= d <= 100000000000000000000000,
    ensures
        t == round_half_up(n as int, d as int),
        t <= n,
{
    let q = n / d;
    let r = n % d;
    proof {
        vstd::arithmetic::div_mod::lemma_fundamental_div_mod(n as int, d as int);
        vstd::arithmetic::div_mod::lemma_mod_pos_bound(n as int, d as int);
        let qi = n as int / d as int;
        let ri = n as int % d as int;
        if 2 * ri >= d {
            assert(2 * (n as int) + d == (qi + 1) * (2 * (d as int)) + (2 * ri - d)) by (nonlinear_arith)
                requires
                    n as int == (d as int) * qi + ri,
            ;
            vstd::arithmetic::div_mod::lemma_fundamental_div_mod_converse(
                2 * (n as int) + d,
                2 * (d as int),
                qi + 1,
                2 * ri - d,
            );
        } else {
            assert(2 * (n as int) + d == qi * (2 * (d as int)) + (2 * ri + d)) by (nonlinear_arith)
                requires
                    n as int == (d as int) * qi + ri,
            ;
            vstd::arithmetic::div_mod::lemma_fundamental_div_mod_converse(
                2 * (n as int) + d,
                2 * (d as int),
                qi,
                2 * ri + d,
            );
        }
        assert((if 2 * ri >= d as int {
            qi + 1
        } else {
            qi
        }) <= n as int) by (nonlinear_arith)
            requires
                n as int == (d as int) * qi + ri,
                0 <= ri < d as int,
                2 <= d as int,
                0 <= qi,
        ;
    }
    if 2 * r >= d {
        q + 1
    } else {
        q
    }
}

/// A scaled value reduced to tenths.
fn value_tenths_of(v: i64) -> (t: i64)
    requires
        -VALUE_LIMIT < v < VALUE_LIMIT,
    ensures
        t == value_tenths(v as int),
        -VALUE_LIMIT < t < VALUE_LIMIT,
{
    if v >= 0 {
        let t = round_div_half(v as u128, 1000) as u64;
        t as i64
    } else {
        let t = round_div_half((-v) as u128, 1000) as u64;
        -(t as i64)
    }
}

/// The mean of a statistic in tenths.
fn mean_tenths_of(sum: i128, count: u64) -> (t: i128)
    requires
        1 <= count,
        -((count as int) * (VALUE_LIMIT as int)) <= sum <= (count as int) * (VALUE_LIMIT as int),
    ensures
        t == mean_tenths(sum as int, count as int),
        -((count as int) * (VALUE_LIMIT as int)) <= t <= (count as int) * (VALUE_LIMIT as int),
{
    let d = 1000u128 * (count as u128);
    if sum >= 0 {
        let t = round_div_half(sum as u128, d);
        t as i128
    } else {
        let t = round_div_half((-sum) as u128, d);
        -(t as i128)
    }
}

/// Renders one entry as `key=min/mean/max`.
fn entry_string(e: &StationEntry) -> (s: String)
    requires
        stat_inv(e@.st, u64::MAX as int),
    ensures
        s@ == entry_chars(e@),
{
    proof {
        reveal_strlit("=");
        reveal_strlit("/");
        assert("="@ =~= seq!['=']);
        assert("/"@ =~= seq!['/']);
    }
    let mut s = String::from_str(e.key.as_str());
    s.append("=");
    let tmin = value_tenths_of(e.st.min);
    let smin = tenths_to_string(tmin as i128);
    s.append(smin.as_str());
    s.append("/");
    let tmean = mean_tenths_of(e.st.sum, e.st.count);
    let smean = tenths_to_string(tmean);
    s.append(smean.as_str());
    s.append("/");
    let tmax = value_tenths_of(e.st.max);
    let smax = tenths_to_string(tmax as i128);
    s.append(smax.as_str());
    proof {
        assert(s@ =~= entry_chars(e@));
    }
    s
}

impl Aggregator {
    /// Renders the report: the table's entries in ascending key order,
    /// joined with `", "`, inside braces.
    pub fn render(&self) -> (s: String)
        requires
            self.wf(),
        ensures
            s@ == report_chars(agg_entries(self.records@)),
    {
        proof {
            lemma_agg_inv(self.records@);
            reveal_strlit("{");
            reveal_strlit("}");
            assert("{"@ =~= seq!['{']);
            assert("}"@ =~= seq!['}']);
        }
        let ghost es = agg_entries(self.records@);
        let n = self.entries.len();
        let mut out = String::from_str("{");
        proof {
            assert(entries_chars(es.take(0)) =~= Seq::<char>::empty());
            assert(out@ =~= seq!['{'] + entries_chars(es.take(0)));
        }
        let mut i: usize = 0;
        while i < n
            invariant
                i <= n,
                n == self.entries.len(),
                es == agg_entries(self.records@),
                models(self.entries@) == es,
                entries_inv(es, self.records@.len() as int),
                out@ == seq!['{'] + entries_chars(es.take(i as int)),
            decreases n - i,
        {
            proof {
                reveal_strlit(", ");
                assert(", "@ =~= seq![',', ' ']);
                assert(models(self.entries@)[i as int] == self.entries@[i as int]@);
            }
            if i > 0 {
                out.append(", ");
            }
            let entry = entry_string(&self.entries[i]);
            out.append(entry.as_str());
            proof {
                if i == 0 {
                    assert(es.take(1)[0] == es[0]);
                    assert(out@ =~= seq!['{'] + entries_chars(es.take(1)));
                } else {
                    assert(es.take(i as int + 1).drop_last() =~= es.take(i as int));
                    assert(es.take(i as int + 1).last() == es[i as int]);
                    assert(out@ =~= seq!['{'] + entries_chars(es.take(i as int + 1)));
                }
            }
            i = i + 1;
        }
        out.append("}");
        proof {
            assert(es.take(n as int) =~= es);
            assert(out@ =~= report_chars(es));
        }
        out
    }
}

/// Runs the whole pipeline over a batch of lines: parse each line in
/// order, fold its record into the table, and render the report; stops at
/// the first bad line with its error.
#[verifier::loop_isolation(false)]
pub fn process_lines(lines: &Vec<String>) -> (r: Result<String, RecordError>)
    ensures
        r.is_ok() == (forall|i: int| 0 <= i < lines@.len() ==> line_ok(#[trigger] lines@[i]@)),
        r matches Ok(s) ==> s@ == report_chars(agg_entries(records_of(line_views(lines@)))),
        forall|i: int|
            (0 <= i < lines@.len() && !line_ok(#[trigger] lines@[i]@) && (forall|j: int|
                0 <= j < i ==> line_ok(#[trigger] lines@[j]@))) ==> r == Err::<String, RecordError>(
                error_of(lines@[i]@),
            ),
{
    let ghost ls = line_views(lines@);
    proof {
        assert(forall|j: int| 0 <= j < ls.len() ==> ls[j] == lines@[j]@);
    }
    let mut agg = Aggregator::new();
    proof {
        assert(records_of(ls.take(0)) =~= Seq::<Record>::empty());
    }
    let n = lines.len();
    let mut i: usize = 0;
    while i < n
        invariant
            i <= n,
            agg.wf(),
            agg.records@ == records_of(ls.take(i as int)),
            forall|j: int| 0 <= j < i ==> line_ok(#[trigger] ls[j]),
        decreases n - i,
    {
        match parse_line(lines[i].as_str()) {
            Ok(kv) => {
                let (key, value) = kv;
                proof {
                    assert(ls.take(i as int + 1).drop_last() =~= ls.take(i as int));
                    assert(records_of(ls.take(i as int + 1)) =~= records_of(
                        ls.take(i as int),
                    ).push(Record { key: key@, val: value as int }));
                }
                agg.update(key, value);
            },
            Err(e) => {
                proof {
                    assert(!line_ok(lines@[i as int]@));
                    assert(e == error_of(lines@[i as int]@));
                    assert forall|ii: int|
                        (0 <= ii < lines@.len() && !line_ok(#[trigger] lines@[ii]@) && (
                        forall|j: int| 0 <= j < ii ==> line_ok(#[trigger] lines@[j]@)))
                        implies e == error_of(lines@[ii]@) by {
                        if ii < i {
                            assert(line_ok(ls[ii]));
                            assert(ls[ii] == lines@[ii]@);
                            assert(false);
                        } else if ii > i {
                            assert(line_ok(lines@[i as int]@));
                            assert(false);
                        }
                    }
                }
                return Err(e);
            },
        }
        i = i + 1;
    }
    proof {
        assert(ls.take(n as int) =~= ls);
        assert forall|ii: int| 0 <= ii < lines@.len() implies line_ok(#[trigger] lines@[ii]@) by {
            assert(line_ok(ls[ii]));
            assert(ls[ii] == lines@[ii]@);
        }
    }
    let s = agg.render();
    Ok(s)
}

} // verus!
