//! The aggregation table.
//!
//! The table owns one statistic per distinct key and is kept sorted by key
//! throughout, so the final report needs no separate sorting step.  Its
//! whole behaviour is pinned by one spec-level fold, `agg_entries`: the
//! table after any run of updates equals that fold over the records seen.

use vstd::prelude::*;

use crate::lex::lex_lt;
use crate::lex::str_lex_lt;
use crate::number::VALUE_LIMIT;
use crate::station::stat_empty;
use crate::station::stat_inv;
use crate::station::stat_upd;
use crate::station::lemma_stat_upd_inv;
use crate::station::StatModel;
use crate::station::Station;

verus! {

/// One table entry, mathematically: a key and its statistic.
pub ghost struct EntryModel {
    pub key: Seq<char>,
    pub st: StatModel,
}

/// A record: a key and a value in scale units.
pub ghost struct Record {
    pub key: Seq<char>,
    pub val: int,
}

/// One record folded into a key-sorted entry sequence: the entry with the
/// record's key is updated in place, or a fresh entry is inserted at the
/// position its key orders it to.
pub open spec fn sorted_upd(es: Seq<EntryModel>, k: Seq<char>, v: int) -> Seq<EntryModel>
    decreases es.len(),
{
    if es.len() == 0 {
        seq![EntryModel { key: k, st: stat_upd(stat_empty(), v) }]
    } else if lex_lt(es[0].key, k) {
        seq![es[0]] + sorted_upd(es.drop_first(), k, v)
    } else if es[0].key == k {
        seq![EntryModel { key: k, st: stat_upd(es[0].st, v) }] + es.drop_first()
    } else {
        seq![EntryModel { key: k, st: stat_upd(stat_empty(), v) }] + es
    }
}

/// The table entries that a sequence of records folds to.
pub open spec fn agg_entries(records: Seq<Record>) -> Seq<EntryModel>
    decreases records.len(),
{
    if records.len() == 0 {
        Seq::<EntryModel>::empty()
    } else {
        sorted_upd(agg_entries(records.drop_last()), records.last().key, records.last().val)
    }
}

/// Every value lies strictly inside the representable bound.
pub open spec fn records_bounded(records: Seq<Record>) -> bool {
    forall|i: int| 0 <= i < records.len() ==> -(VALUE_LIMIT as int) < (#[trigger] records[i].val)
        < (VALUE_LIMIT as int)
}

/// Every statistic of the fold of `es` is well-bounded among `n` values.
pub open spec fn entries_inv(es: Seq<EntryModel>, n: int) -> bool {
    forall|j: int| 0 <= j < es.len() ==> stat_inv(#[trigger] es[j].st, n)
}

pub proof fn lemma_sorted_upd_inv(es: Seq<EntryModel>, k: Seq<char>, v: int, n: int)
    requires
        entries_inv(es, n),
        -(VALUE_LIMIT as int) < v < VALUE_LIMIT as int,
        0 <= n,
    ensures
        entries_inv(sorted_upd(es, k, v), n + 1),
    decreases es.len(),
{
    let r = sorted_upd(es, k, v);
    if es.len() == 0 {
        lemma_stat_upd_inv(stat_empty(), v, n);
    } else if lex_lt(es[0].key, k) {
        assert(entries_inv(es.drop_first(), n)) by {
            assert(forall|j: int| 0 <= j < es.drop_first().len() ==> es.drop_first()[j]
                == es[j + 1]);
        }
        lemma_sorted_upd_inv(es.drop_first(), k, v, n);
        assert forall|j: int| 0 <= j < r.len() implies stat_inv(#[trigger] r[j].st, n + 1) by {
            if j == 0 {
                assert(r[0] == es[0]);
            } else {
                assert(r[j] == sorted_upd(es.drop_first(), k, v)[j - 1]);
            }
        }
    } else if es[0].key == k {
        lemma_stat_upd_inv(es[0].st, v, n);
        assert forall|j: int| 0 <= j < r.len() implies stat_inv(#[trigger] r[j].st, n + 1) by {
            if j > 0 {
                assert(r[j] == es.drop_first()[j - 1]);
                assert(es.drop_first()[j - 1] == es[j]);
            }
        }
    } else {
        lemma_stat_upd_inv(stat_empty(), v, n);
        assert forall|j: int| 0 <= j < r.len() implies stat_inv(#[trigger] r[j].st, n + 1) by {
            if j > 0 {
                assert(r[j] == es[j - 1]);
            }
        }
    }
}

/// The fold of `n` bounded records has well-bounded statistics throughout.
pub proof fn lemma_agg_inv(records: Seq<Record>)
    requires
        records_bounded(records),
    ensures
        entries_inv(agg_entries(records), records.len() as int),
    decreases records.len(),
{
    if records.len() > 0 {
        assert(records_bounded(records.drop_last())) by {
            assert(forall|i: int| 0 <= i < records.len() - 1 ==> records.drop_last()[i]
                == records[i]);
        }
        lemma_agg_inv(records.drop_last());
        lemma_sorted_upd_inv(
            agg_entries(records.drop_last()),
            records.last().key,
            records.last().val,
            records.len() - 1,
        );
    }
}

/// Splitting a fold step at a scanned-past prefix: when every key in the
/// first `i` entries orders below `k`, those entries are kept as they are.
pub proof fn lemma_sorted_upd_split(es: Seq<EntryModel>, k: Seq<char>, v: int, i: int)
    requires
        0 <= i <= es.len(),
        forall|j: int| 0 <= j < i ==> lex_lt(#[trigger] es[j].key, k),
    ensures
        sorted_upd(es, k, v) == es.take(i) + sorted_upd(es.skip(i), k, v),
    decreases i,
{
    if i == 0 {
        assert(es.skip(0) =~= es);
        assert(sorted_upd(es, k, v) =~= es.take(0) + sorted_upd(es.skip(0), k, v));
    } else {
        let tail = es.drop_first();
        assert(forall|j: int| 0 <= j < i - 1 ==> tail[j] == es[j + 1]);
        lemma_sorted_upd_split(tail, k, v, i - 1);
        assert(tail.take(i - 1) =~= es.take(i).drop_first());
        assert(tail.skip(i - 1) =~= es.skip(i));
        assert(sorted_upd(es, k, v) =~= es.take(i) + sorted_upd(es.skip(i), k, v));
    }
}

/// One table entry: a key and the statistic of its values.
pub struct StationEntry {
    pub key: String,
    pub st: Station,
}

impl View for StationEntry {
    type V = EntryModel;

    open spec fn view(&self) -> EntryModel {
        EntryModel { key: self.key@, st: self.st@ }
    }
}

/// The entry models of a concrete entry sequence.
pub open spec fn models(entries: Seq<StationEntry>) -> Seq<EntryModel> {
    entries.map_values(|e: StationEntry| e@)
}

/// The aggregation table: one statistic per distinct key, entries sorted
/// ascending by key.  The ghost record log ties the table to the records
/// it has absorbed.
pub struct Aggregator {
    pub entries: Vec<StationEntry>,
    pub records: Ghost<Seq<Record>>,
}

impl Aggregator {
    /// The table is exactly the fold of the records seen so far.
    pub open spec fn wf(self) -> bool {
        &&& models(self.entries@) == agg_entries(self.records@)
        &&& records_bounded(self.records@)
    }

    /// An empty table.
    pub fn new() -> (a: Aggregator)
        ensures
            a.wf(),
            a.records@ == Seq::<Record>::empty(),
    {
        let a = Aggregator { entries: Vec::new(), records: Ghost(Seq::empty()) };
        proof {
            assert(models(a.entries@) =~= agg_entries(a.records@));
        }
        a
    }

    /// Applies one record: updates the key's statistic, creating it first
    /// when the key is new.
    pub fn update(&mut self, key: String, value: i64)
        requires
            old(self).wf(),
            old(self).records@.len() < u64::MAX,
            -VALUE_LIMIT < value < VALUE_LIMIT,
        ensures
            final(self).wf(),
            final(self).records@ == old(self).records@.push(
                Record { key: key@, val: value as int },
            ),
    {
        proof {
            lemma_agg_inv(self.records@);
        }
        let ghost rec = Record { key: key@, val: value as int };
        let ghost old_models = models(self.entries@);
        let ghost old_records = self.records@;
        let n = self.entries.len();
        let mut i: usize = 0;
        loop
            invariant
                i <= n,
                n == self.entries.len(),
                *self == *old(self),
                forall|j: int| 0 <= j < i ==> lex_lt(#[trigger] models(self.entries@)[j].key, key@),
            ensures
                i <= n,
                *self == *old(self),
                forall|j: int| 0 <= j < i ==> lex_lt(#[trigger] models(self.entries@)[j].key, key@),
                i == n || !lex_lt(models(self.entries@)[i as int].key, key@),
            decreases n - i,
        {
            if i == n {
                break;
            }
            if !str_lex_lt(self.entries[i].key.as_str(), key.as_str()) {
                break;
            }
            i = i + 1;
        }
        proof {
            lemma_sorted_upd_split(old_models, key@, value as int, i as int);
        }
        let hit = i < n && self.entries[i].key == key;
        if hit {
            let mut e = self.entries.remove(i);
            e.st.update(value);
            self.entries.insert(i, e);
            proof {
                self.records@ = old_records.push(rec);
                assert(models(self.entries@) =~= old_models.update(
                    i as int,
                    EntryModel { key: key@, st: stat_upd(old_models[i as int].st, value as int) },
                ));
                assert(old_models.skip(i as int)[0].key == key@);
                assert(old_models.skip(i as int).drop_first() =~= old_models.skip(i as int + 1));
                assert(sorted_upd(old_models, key@, value as int) =~= models(self.entries@));
                assert(old_records.push(rec).drop_last() =~= old_records);
                assert(agg_entries(self.records@) == sorted_upd(old_models, key@, value as int));
            }
        } else {
            let mut st = Station::new();
            st.update(value);
            let e = StationEntry { key, st };
            self.entries.insert(i, e);
            proof {
                self.records@ = old_records.push(rec);
                assert(models(self.entries@) =~= old_models.insert(
                    i as int,
                    EntryModel { key: rec.key, st: stat_upd(stat_empty(), value as int) },
                ));
                if i < n {
                    assert(old_models.skip(i as int)[0].key == old_models[i as int].key);
                    assert(old_models[i as int].key != rec.key);
                } else {
                    assert(old_models.skip(i as int) =~= Seq::<EntryModel>::empty());
                }
                assert(sorted_upd(old_models, rec.key, value as int) =~= models(self.entries@));
                assert(old_records.push(rec).drop_last() =~= old_records);
                assert(agg_entries(self.records@) == sorted_upd(old_models, rec.key, value as int));
            }
        }
    }
}

} // verus!
