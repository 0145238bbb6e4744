//! General properties of the aggregation.
//!
//! The per-key folds below say what each statistic must be in terms of the
//! raw record sequence; the lemmas tie every table the aggregator can
//! reach to those folds, show the report's key order, and show that the
//! table depends only on the multiset of records, not on their order.

use vstd::prelude::*;

use crate::aggregate::agg_entries;
use crate::aggregate::sorted_upd;
use crate::aggregate::EntryModel;
use crate::aggregate::Record;
use crate::lex::lex_lt;
use crate::lex::lemma_lex_asym;
use crate::lex::lemma_lex_connected;
use crate::lex::lemma_lex_irrefl;
use crate::lex::lemma_lex_trans;
use crate::number::VALUE_LIMIT;
use crate::station::stat_empty;
use crate::station::stat_upd;

verus! {

/// How many records carry key `k`.
pub open spec fn key_count(records: Seq<Record>, k: Seq<char>) -> int
    decreases records.len(),
{
    if records.len() == 0 {
        0
    } else {
        key_count(records.drop_last(), k) + if records.last().key == k {
            1int
        } else {
            0int
        }
    }
}

/// The sum of the values recorded for key `k`.
pub open spec fn key_sum(records: Seq<Record>, k: Seq<char>) -> int
    decreases records.len(),
{
    if records.len() == 0 {
        0
    } else {
        key_sum(records.drop_last(), k) + if records.last().key == k {
            records.last().val
        } else {
            0int
        }
    }
}

/// The least value recorded for key `k`, the upper sentinel when none is.
pub open spec fn key_min(records: Seq<Record>, k: Seq<char>) -> int
    decreases records.len(),
{
    if records.len() == 0 {
        VALUE_LIMIT as int
    } else {
        let m = key_min(records.drop_last(), k);
        if records.last().key == k && records.last().val < m {
            records.last().val
        } else {
            m
        }
    }
}

/// The greatest value recorded for key `k`, the lower sentinel when none
/// is.
pub open spec fn key_max(records: Seq<Record>, k: Seq<char>) -> int
    decreases records.len(),
{
    if records.len() == 0 {
        -(VALUE_LIMIT as int)
    } else {
        let m = key_max(records.drop_last(), k);
        if records.last().key == k && records.last().val > m {
            records.last().val
        } else {
            m
        }
    }
}

/// Entries ascend strictly in key order.
pub open spec fn ascending(es: Seq<EntryModel>) -> bool {
    forall|j1: int, j2: int|
        0 <= j1 < j2 < es.len() ==> lex_lt(#[trigger] es[j1].key, #[trigger] es[j2].key)
}

/// Index of the entry with key `k`, or -1 when there is none.
pub open spec fn find_key(es: Seq<EntryModel>, k: Seq<char>) -> int
    decreases es.len(),
{
    if es.len() == 0 {
        -1
    } else if es[0].key == k {
        0
    } else if find_key(es.drop_first(), k) == -1 {
        -1
    } else {
        1 + find_key(es.drop_first(), k)
    }
}

/// `find_key` points at the first entry with key `k` when one exists.
pub proof fn lemma_find_key_props(es: Seq<EntryModel>, k: Seq<char>)
    ensures
        find_key(es, k) == -1 ==> forall|j: int| 0 <= j < es.len() ==> (#[trigger] es[j].key) != k,
        find_key(es, k) != -1 ==> 0 <= find_key(es, k) < es.len() && es[find_key(es, k)].key == k,
    decreases es.len(),
{
    if es.len() > 0 && es[0].key != k {
        lemma_find_key_props(es.drop_first(), k);
        let t = es.drop_first();
        assert(forall|j: int| 0 <= j < t.len() ==> t[j] == es[j + 1]);
        if find_key(es, k) == -1 {
            assert forall|j: int| 0 <= j < es.len() implies (#[trigger] es[j].key) != k by {
                if j > 0 {
                    assert(es[j] == t[j - 1]);
                }
            }
        }
    }
}

/// An entry's own key is always found.
pub proof fn lemma_find_key_present(es: Seq<EntryModel>, j: int)
    requires
        0 <= j < es.len(),
    ensures
        find_key(es, es[j].key) >= 0,
    decreases es.len(),
{
    if es[0].key != es[j].key {
        assert(j > 0);
        assert(es.drop_first()[j - 1] == es[j]);
        lemma_find_key_present(es.drop_first(), j - 1);
    }
}

/// A key's record count never goes below zero.
pub proof fn lemma_key_count_nonneg(records: Seq<Record>, k: Seq<char>)
    ensures
        key_count(records, k) >= 0,
    decreases records.len(),
{
    if records.len() > 0 {
        lemma_key_count_nonneg(records.drop_last(), k);
    }
}

/// A key held by no record keeps the sentinels and zero totals.
pub proof fn lemma_key_absent(records: Seq<Record>, k: Seq<char>)
    requires
        key_count(records, k) == 0,
    ensures
        key_min(records, k) == VALUE_LIMIT as int,
        key_max(records, k) == -(VALUE_LIMIT as int),
        key_sum(records, k) == 0,
    decreases records.len(),
{
    if records.len() > 0 {
        lemma_key_count_nonneg(records.drop_last(), k);
        assert(records.last().key != k);
        lemma_key_absent(records.drop_last(), k);
    }
}

/// Where a fresh entry for key `k` goes: after every key that orders
/// below it.
pub open spec fn insert_pos(es: Seq<EntryModel>, k: Seq<char>) -> int
    decreases es.len(),
{
    if es.len() == 0 {
        0
    } else if lex_lt(es[0].key, k) {
        1 + insert_pos(es.drop_first(), k)
    } else {
        0
    }
}

/// What one fold step does to the entries: the entry holding `k` is
/// updated in place when there is one, else a fresh entry is put at its
/// ordered position.
pub open spec fn upd_effect(es: Seq<EntryModel>, k: Seq<char>, v: int) -> bool {
    if find_key(es, k) >= 0 {
        sorted_upd(es, k, v) == es.update(
            find_key(es, k),
            EntryModel { key: k, st: stat_upd(es[find_key(es, k)].st, v) },
        )
    } else {
        sorted_upd(es, k, v) == es.insert(
            insert_pos(es, k),
            EntryModel { key: k, st: stat_upd(stat_empty(), v) },
        )
    }
}

/// In a sorted table the insertion position of an absent key splits the
/// keys that order below it from those that order above it.
pub proof fn lemma_insert_pos_splits(es: Seq<EntryModel>, k: Seq<char>)
    requires
        ascending(es),
        find_key(es, k) == -1,
    ensures
        0 <= insert_pos(es, k) <= es.len(),
        forall|j: int| 0 <= j < insert_pos(es, k) ==> lex_lt(#[trigger] es[j].key, k),
        forall|j: int| insert_pos(es, k) <= j < es.len() ==> lex_lt(k, #[trigger] es[j].key),
    decreases es.len(),
{
    if es.len() == 0 {
    } else {
        let t = es.drop_first();
        assert(forall|j: int| 0 <= j < t.len() ==> t[j] == es[j + 1]);
        assert(ascending(t));
        assert(es[0].key != k);
        if lex_lt(es[0].key, k) {
            lemma_find_key_props(t, k);
            assert(find_key(t, k) == -1);
            lemma_insert_pos_splits(t, k);
            let p = insert_pos(es, k);
            assert forall|j: int| 0 <= j < p implies lex_lt(#[trigger] es[j].key, k) by {
                if j > 0 {
                    assert(es[j] == t[j - 1]);
                }
            }
            assert forall|j: int| p <= j < es.len() implies lex_lt(k, #[trigger] es[j].key) by {
                assert(es[j] == t[j - 1]);
            }
        } else {
            if !lex_lt(k, es[0].key) {
                lemma_lex_connected(es[0].key, k);
                assert(false);
            }
            assert forall|j: int| 0 <= j < es.len() implies lex_lt(k, #[trigger] es[j].key) by {
                if j > 0 {
                    lemma_lex_trans(k, es[0].key, es[j].key);
                }
            }
        }
    }
}

/// The fold step acts as `upd_effect` says.
pub proof fn lemma_sorted_upd_effect(es: Seq<EntryModel>, k: Seq<char>, v: int)
    requires
        ascending(es),
    ensures
        upd_effect(es, k, v),
    decreases es.len(),
{
    lemma_lex_irrefl(k);
    let r = sorted_upd(es, k, v);
    if es.len() == 0 {
        assert(r =~= es.insert(0, EntryModel { key: k, st: stat_upd(stat_empty(), v) }));
    } else if lex_lt(es[0].key, k) {
        let t = es.drop_first();
        assert(forall|j: int| 0 <= j < t.len() ==> t[j] == es[j + 1]);
        assert(ascending(t));
        lemma_sorted_upd_effect(t, k, v);
        assert(es[0].key != k);
        let ft = find_key(t, k);
        lemma_find_key_props(t, k);
        if ft >= 0 {
            assert(find_key(es, k) == 1 + ft);
            assert(es[1 + ft] == t[ft]);
            assert(r =~= es.update(
                1 + ft,
                EntryModel { key: k, st: stat_upd(es[1 + ft].st, v) },
            ));
        } else {
            assert(ft == -1);
            assert(find_key(es, k) == -1);
            lemma_insert_pos_splits(t, k);
            assert(insert_pos(es, k) == 1 + insert_pos(t, k));
            assert(r =~= es.insert(
                1 + insert_pos(t, k),
                EntryModel { key: k, st: stat_upd(stat_empty(), v) },
            ));
        }
    } else if es[0].key == k {
        assert(find_key(es, k) == 0);
        assert(r =~= es.update(0, EntryModel { key: k, st: stat_upd(es[0].st, v) }));
    } else {
        // The key orders ahead of the whole table, so it is absent.
        if !lex_lt(k, es[0].key) {
            lemma_lex_connected(es[0].key, k);
            assert(false);
        }
        assert forall|j: int| 0 <= j < es.len() implies (#[trigger] es[j].key) != k by {
            if j > 0 {
                lemma_lex_trans(k, es[0].key, es[j].key);
            }
            lemma_lex_irrefl(es[j].key);
        }
        lemma_find_key_props(es, k);
        if find_key(es, k) != -1 {
            assert(es[find_key(es, k)].key == k);
            assert(false);
        }
        assert(insert_pos(es, k) == 0);
        assert(r =~= es.insert(0, EntryModel { key: k, st: stat_upd(stat_empty(), v) }));
    }
}

/// The fold step keeps the entries strictly sorted by key.
pub proof fn lemma_sorted_upd_ascending(es: Seq<EntryModel>, k: Seq<char>, v: int)
    requires
        ascending(es),
    ensures
        ascending(sorted_upd(es, k, v)),
{
    lemma_sorted_upd_effect(es, k, v);
    let r = sorted_upd(es, k, v);
    let f = find_key(es, k);
    if f >= 0 {
        lemma_find_key_props(es, k);
        assert(forall|j: int| 0 <= j < r.len() ==> (#[trigger] r[j].key) == es[j].key);
        assert forall|j1: int, j2: int| 0 <= j1 < j2 < r.len() implies lex_lt(
            #[trigger] r[j1].key,
            #[trigger] r[j2].key,
        ) by {
            assert(lex_lt(es[j1].key, es[j2].key));
        }
    } else {
        let p = insert_pos(es, k);
        lemma_find_key_props(es, k);
        lemma_insert_pos_splits(es, k);
        assert forall|j1: int, j2: int| 0 <= j1 < j2 < r.len() implies lex_lt(
            #[trigger] r[j1].key,
            #[trigger] r[j2].key,
        ) by {
            if j1 < p && j2 < p {
                assert(r[j1] == es[j1] && r[j2] == es[j2]);
            } else if j1 < p && j2 == p {
                assert(r[j1] == es[j1] && r[j2].key == k);
            } else if j1 < p && j2 > p {
                assert(r[j1] == es[j1] && r[j2] == es[j2 - 1]);
            } else if j1 == p {
                assert(r[j1].key == k && r[j2] == es[j2 - 1]);
            } else {
                assert(r[j1] == es[j1 - 1] && r[j2] == es[j2 - 1]);
            }
        }
    }
}

/// An entry agrees with the per-key folds over the records.
pub open spec fn entry_matches(records: Seq<Record>, e: EntryModel) -> bool {
    &&& e.st.min == key_min(records, e.key)
    &&& e.st.max == key_max(records, e.key)
    &&& e.st.sum == key_sum(records, e.key)
    &&& e.st.count == key_count(records, e.key)
    &&& key_count(records, e.key) >= 1
}

/// The table of any record sequence is sorted, complete, and carries
/// exactly the per-key folds.
#[verifier::rlimit(100)]
pub proof fn lemma_agg_characterize(records: Seq<Record>)
    ensures
        ascending(agg_entries(records)),
        forall|j: int|
            0 <= j < agg_entries(records).len() ==> entry_matches(
                records,
                #[trigger] agg_entries(records)[j],
            ),
        forall|k: Seq<char>|
            #[trigger] key_count(records, k) >= 1 ==> find_key(agg_entries(records), k) >= 0,
    decreases records.len(),
{
    let es = agg_entries(records);
    if records.len() == 0 {
    } else {
        let prior = records.drop_last();
        let rec = records.last();
        let es0 = agg_entries(prior);
        lemma_agg_characterize(prior);
        lemma_sorted_upd_effect(es0, rec.key, rec.val);
        lemma_sorted_upd_ascending(es0, rec.key, rec.val);
        lemma_find_key_props(es0, rec.key);
        let f0 = find_key(es0, rec.key);
        let fresh = EntryModel { key: rec.key, st: stat_upd(stat_empty(), rec.val) };
        if f0 == -1 {
            if key_count(prior, rec.key) >= 1 {
                assert(false);
            }
            lemma_key_count_nonneg(prior, rec.key);
            lemma_key_absent(prior, rec.key);
        }
        // Keys other than the record's keep their folds.
        assert forall|kk: Seq<char>| kk != rec.key implies key_min(records, kk) == key_min(
            prior,
            kk,
        ) && key_max(records, kk) == key_max(prior, kk) && key_sum(records, kk) == key_sum(
            prior,
            kk,
        ) && key_count(records, kk) == key_count(prior, kk) by {}
        if f0 >= 0 {
            let e1 = EntryModel { key: rec.key, st: stat_upd(es0[f0].st, rec.val) };
            assert(es == es0.update(f0, e1));
            assert(entry_matches(prior, es0[f0]));
            assert(es0[f0].key == rec.key);
            assert(entry_matches(records, e1));
            assert forall|j: int| 0 <= j < es.len() implies entry_matches(
                records,
                #[trigger] es[j],
            ) by {
                if j != f0 {
                    assert(es[j] == es0[j]);
                    assert(entry_matches(prior, es0[j]));
                    if es0[j].key == rec.key {
                        assert(lex_lt(es0[f0].key, es0[j].key) || lex_lt(es0[j].key, es0[f0].key));
                        lemma_lex_irrefl(es0[j].key);
                        assert(false);
                    }
                }
            }
            assert forall|kk: Seq<char>| #[trigger] key_count(records, kk) >= 1 implies find_key(
                es,
                kk,
            ) >= 0 by {
                lemma_find_key_props(es, kk);
                if find_key(es, kk) == -1 {
                    if kk == rec.key {
                        assert(es[f0].key == kk);
                        assert(false);
                    } else {
                        let jp = find_key(es0, kk);
                        lemma_find_key_props(es0, kk);
                        assert(jp >= 0);
                        assert(jp != f0);
                        assert(es[jp] == es0[jp]);
                        assert(false);
                    }
                }
            }
        } else {
            let p = insert_pos(es0, rec.key);
            lemma_insert_pos_splits(es0, rec.key);
            assert(es == es0.insert(p, fresh));
            assert(entry_matches(records, fresh));
            assert forall|j: int| 0 <= j < es.len() implies entry_matches(
                records,
                #[trigger] es[j],
            ) by {
                if j < p {
                    assert(es[j] == es0[j]);
                    assert(entry_matches(prior, es0[j]));
                    assert(es0[j].key != rec.key);
                } else if j == p {
                    assert(es[j] == fresh);
                } else {
                    assert(es[j] == es0[j - 1]);
                    assert(entry_matches(prior, es0[j - 1]));
                    assert(es0[j - 1].key != rec.key);
                }
            }
            assert forall|kk: Seq<char>| #[trigger] key_count(records, kk) >= 1 implies find_key(
                es,
                kk,
            ) >= 0 by {
                lemma_find_key_props(es, kk);
                if find_key(es, kk) == -1 {
                    if kk == rec.key {
                        assert(es[p].key == kk);
                        assert(false);
                    } else {
                        let jp = find_key(es0, kk);
                        lemma_find_key_props(es0, kk);
                        assert(jp >= 0);
                        if jp < p {
                            assert(es[jp] == es0[jp]);
                        } else {
                            assert(es[jp + 1] == es0[jp]);
                        }
                        assert(false);
                    }
                }
            }
        }
    }
}

/// Taking one record out of the sequence takes exactly its contribution
/// out of every per-key fold, wherever the record stood.
pub proof fn lemma_key_stats_remove(s: Seq<Record>, idx: int, k: Seq<char>)
    requires
        0 <= idx < s.len(),
    ensures
        key_count(s, k) == key_count(s.remove(idx), k) + (if s[idx].key == k {
            1int
        } else {
            0int
        }),
        key_sum(s, k) == key_sum(s.remove(idx), k) + (if s[idx].key == k {
            s[idx].val
        } else {
            0int
        }),
        key_min(s, k) == (if s[idx].key == k && s[idx].val < key_min(s.remove(idx), k) {
            s[idx].val
        } else {
            key_min(s.remove(idx), k)
        }),
        key_max(s, k) == (if s[idx].key == k && s[idx].val > key_max(s.remove(idx), k) {
            s[idx].val
        } else {
            key_max(s.remove(idx), k)
        }),
    decreases s.len(),
{
    if idx == s.len() - 1 {
        assert(s.remove(idx) =~= s.drop_last());
    } else {
        let t = s.drop_last();
        lemma_key_stats_remove(t, idx, k);
        assert(s.remove(idx).drop_last() =~= t.remove(idx));
        assert(s.remove(idx).last() == s.last());
        assert(t[idx] == s[idx]);
    }
}

/// The per-key count, sum, minimum and maximum depend only on which
/// records arrive, never on their order.
pub proof fn lemma_key_stats_permutation(r1: Seq<Record>, r2: Seq<Record>, k: Seq<char>)
    requires
        r1.to_multiset() == r2.to_multiset(),
    ensures
        key_count(r1, k) == key_count(r2, k),
        key_sum(r1, k) == key_sum(r2, k),
        key_min(r1, k) == key_min(r2, k),
        key_max(r1, k) == key_max(r2, k),
    decreases r1.len(),
{
    broadcast use vstd::seq_lib::group_to_multiset_ensures;
    broadcast use vstd::multiset::group_multiset_axioms;

    if r1.len() == 0 {
        assert(r1.to_multiset().len() == r1.len());
        assert(r2.to_multiset().len() == r2.len());
        assert(r2.len() == 0);
    } else {
        let rec = r1.last();
        let t1 = r1.drop_last();
        assert(r1 =~= t1.push(rec));
        assert(t1.push(rec).to_multiset() =~= t1.to_multiset().insert(rec));
        assert(r1.to_multiset().count(rec) > 0);
        assert(r2.to_multiset().count(rec) > 0);
        assert(r2.contains(rec));
        let idx = choose|i: int| 0 <= i < r2.len() && r2[i] == rec;
        assert(r2.remove(idx).to_multiset() =~= r2.to_multiset().remove(rec));
        assert(t1.to_multiset() =~= r2.remove(idx).to_multiset());
        lemma_key_stats_permutation(t1, r2.remove(idx), k);
        lemma_key_stats_remove(r2, idx, k);
    }
}

/// Two strictly sorted tables that hold the same keys with the same
/// entries are the same table.
#[verifier::rlimit(100)]
pub proof fn lemma_ascending_unique(es1: Seq<EntryModel>, es2: Seq<EntryModel>)
    requires
        ascending(es1),
        ascending(es2),
        forall|k: Seq<char>|
            #![trigger find_key(es1, k)]
            #![trigger find_key(es2, k)]
            ((find_key(es1, k) >= 0 <==> find_key(es2, k) >= 0) && (find_key(es1, k) >= 0
                ==> es1[find_key(es1, k)] == es2[find_key(es2, k)])),
    ensures
        es1 == es2,
    decreases es1.len(),
{
    if es1.len() == 0 {
        if es2.len() > 0 {
            lemma_find_key_present(es2, 0);
            assert(find_key(es1, es2[0].key) >= 0);
            lemma_find_key_props(es1, es2[0].key);
            assert(false);
        }
        assert(es1 =~= es2);
    } else if es2.len() == 0 {
        lemma_find_key_present(es1, 0);
        lemma_find_key_props(es2, es1[0].key);
        assert(false);
    } else {
        let k1 = es1[0].key;
        let k2 = es2[0].key;
        assert(find_key(es1, k1) == 0);
        assert(find_key(es2, k2) == 0);
        lemma_find_key_props(es2, k1);
        lemma_find_key_props(es1, k2);
        let j2 = find_key(es2, k1);
        let j1 = find_key(es1, k2);
        assert(j2 >= 0);
        assert(j1 >= 0);
        if j2 > 0 && j1 > 0 {
            assert(lex_lt(k2, es2[j2].key));
            assert(lex_lt(k1, es1[j1].key));
            lemma_lex_asym(k2, k1);
            assert(false);
        }
        assert(k1 == k2);
        assert(es1[0] == es2[0]);
        let t1 = es1.drop_first();
        let t2 = es2.drop_first();
        assert(forall|j: int| 0 <= j < t1.len() ==> t1[j] == es1[j + 1]);
        assert(forall|j: int| 0 <= j < t2.len() ==> t2[j] == es2[j + 1]);
        assert(ascending(t1));
        assert(ascending(t2));
        assert forall|k: Seq<char>|
            #![trigger find_key(t1, k)]
            #![trigger find_key(t2, k)]
            ((find_key(t1, k) >= 0 <==> find_key(t2, k) >= 0) && (find_key(t1, k) >= 0
                ==> t1[find_key(t1, k)] == t2[find_key(t2, k)])) by {
            lemma_find_key_props(t1, k);
            lemma_find_key_props(t2, k);
            if k == k1 {
                // The head's key is in neither tail: each tail key orders
                // strictly after it.
                if find_key(t1, k) >= 0 {
                    assert(t1[find_key(t1, k)] == es1[find_key(t1, k) + 1]);
                    assert(lex_lt(es1[0].key, es1[find_key(t1, k) + 1].key));
                    lemma_lex_irrefl(k);
                    assert(false);
                }
                if find_key(t2, k) >= 0 {
                    assert(t2[find_key(t2, k)] == es2[find_key(t2, k) + 1]);
                    assert(lex_lt(es2[0].key, es2[find_key(t2, k) + 1].key));
                    lemma_lex_irrefl(k);
                    assert(false);
                }
            } else {
                assert(find_key(es1, k) >= 0 <==> find_key(t1, k) >= 0);
                assert(find_key(es2, k) >= 0 <==> find_key(t2, k) >= 0);
                if find_key(t1, k) >= 0 {
                    assert(find_key(es1, k) == 1 + find_key(t1, k));
                    assert(find_key(es2, k) == 1 + find_key(t2, k));
                    assert(es1[find_key(es1, k)] == es2[find_key(es2, k)]);
                    assert(t1[find_key(t1, k)] == es1[1 + find_key(t1, k)]);
                    assert(t2[find_key(t2, k)] == es2[1 + find_key(t2, k)]);
                }
            }
        }
        lemma_ascending_unique(t1, t2);
        assert(es1.len() == es2.len());
        assert forall|j: int| 0 <= j < es1.len() implies es1[j] == es2[j] by {
            if j > 0 {
                assert(es1[j] == t1[j - 1]);
                assert(es2[j] == t2[j - 1]);
            }
        }
        assert(es1 =~= es2);
    }
}

/// A record's key is counted at least once, and the per-key fold's
/// minimum never exceeds the record's value while its maximum never falls
/// below it.
pub proof fn lemma_key_bounds(records: Seq<Record>, i: int)
    requires
        0 <= i < records.len(),
    ensures
        key_count(records, records[i].key) >= 1,
        key_min(records, records[i].key) <= records[i].val,
        key_max(records, records[i].key) >= records[i].val,
    decreases records.len(),
{
    if i == records.len() - 1 {
        lemma_key_count_nonneg(records.drop_last(), records[i].key);
    } else {
        lemma_key_bounds(records.drop_last(), i);
        lemma_key_count_nonneg(records.drop_last(), records[i].key);
        assert(records.drop_last()[i] == records[i]);
    }
}

/// Reducing a value to tenths keeps the order of values: rounding both
/// ends of an inequality cannot cross them.
pub proof fn lemma_value_tenths_monotone(a: int, b: int)
    requires
        a <= b,
    ensures
        crate::number::value_tenths(a) <= crate::number::value_tenths(b),
{
    if a >= 0 {
        vstd::arithmetic::div_mod::lemma_div_is_ordered(2 * a + 1000, 2 * b + 1000, 2000);
    } else if b >= 0 {
        vstd::arithmetic::div_mod::lemma_div_pos_is_pos(2 * (-a) + 1000, 2000);
        vstd::arithmetic::div_mod::lemma_div_pos_is_pos(2 * b + 1000, 2000);
    } else {
        vstd::arithmetic::div_mod::lemma_div_is_ordered(2 * (-b) + 1000, 2 * (-a) + 1000, 2000);
    }
}

/// The report lists each key at most once, in strictly ascending key
/// order.
pub proof fn lemma_entries_sorted(records: Seq<Record>)
    ensures
        ascending(agg_entries(records)),
        forall|j1: int, j2: int|
            0 <= j1 < j2 < agg_entries(records).len() ==> (#[trigger] agg_entries(
                records,
            )[j1].key) != (#[trigger] agg_entries(records)[j2].key),
{
    lemma_agg_characterize(records);
    let es = agg_entries(records);
    assert forall|j1: int, j2: int|
        0 <= j1 < j2 < es.len() implies (#[trigger] es[j1].key) != (#[trigger] es[j2].key) by {
        assert(lex_lt(es[j1].key, es[j2].key));
        lemma_lex_irrefl(es[j1].key);
    }
}

/// The statistic shown for a key bounds every value recorded for it: the
/// minimum from below, the maximum from above; so do the rendered tenths.
pub proof fn lemma_min_max_bound(records: Seq<Record>, i: int)
    requires
        0 <= i < records.len(),
    ensures
        find_key(agg_entries(records), records[i].key) >= 0,
        agg_entries(records)[find_key(agg_entries(records), records[i].key)].st.min <= records[i].val,
        records[i].val <= agg_entries(records)[find_key(agg_entries(records), records[i].key)].st.max,
        crate::number::value_tenths(
            agg_entries(records)[find_key(agg_entries(records), records[i].key)].st.min,
        ) <= crate::number::value_tenths(records[i].val),
        crate::number::value_tenths(records[i].val) <= crate::number::value_tenths(
            agg_entries(records)[find_key(agg_entries(records), records[i].key)].st.max,
        ),
{
    lemma_agg_characterize(records);
    lemma_key_bounds(records, i);
    let es = agg_entries(records);
    let k = records[i].key;
    lemma_find_key_props(es, k);
    assert(entry_matches(records, es[find_key(es, k)]));
    lemma_value_tenths_monotone(es[find_key(es, k)].st.min, records[i].val);
    lemma_value_tenths_monotone(records[i].val, es[find_key(es, k)].st.max);
}

/// Each entry carries exactly the totals and extremes of its key's
/// records: its mean is the quotient of that sum over that count.
pub proof fn lemma_entry_totals(records: Seq<Record>, j: int)
    requires
        0 <= j < agg_entries(records).len(),
    ensures
        agg_entries(records)[j].st.sum == key_sum(records, agg_entries(records)[j].key),
        agg_entries(records)[j].st.count == key_count(records, agg_entries(records)[j].key),
        agg_entries(records)[j].st.min == key_min(records, agg_entries(records)[j].key),
        agg_entries(records)[j].st.max == key_max(records, agg_entries(records)[j].key),
        agg_entries(records)[j].st.count >= 1,
{
    lemma_agg_characterize(records);
    assert(entry_matches(records, agg_entries(records)[j]));
}

/// Reordering the records changes nothing: two record sequences with the
/// same multiset of records fold to the same table, and so to the same
/// report.
pub proof fn lemma_report_permutation(r1: Seq<Record>, r2: Seq<Record>)
    requires
        r1.to_multiset() == r2.to_multiset(),
    ensures
        agg_entries(r1) == agg_entries(r2),
        crate::report::report_chars(agg_entries(r1)) == crate::report::report_chars(
            agg_entries(r2),
        ),
{
    lemma_agg_characterize(r1);
    lemma_agg_characterize(r2);
    let es1 = agg_entries(r1);
    let es2 = agg_entries(r2);
    assert forall|k: Seq<char>|
        #![trigger find_key(es1, k)]
        #![trigger find_key(es2, k)]
        ((find_key(es1, k) >= 0 <==> find_key(es2, k) >= 0) && (find_key(es1, k) >= 0
            ==> es1[find_key(es1, k)] == es2[find_key(es2, k)])) by {
        lemma_find_key_props(es1, k);
        lemma_find_key_props(es2, k);
        lemma_key_stats_permutation(r1, r2, k);
        if find_key(es1, k) >= 0 {
            assert(entry_matches(r1, es1[find_key(es1, k)]));
            assert(key_count(r1, k) >= 1);
        }
        if find_key(es2, k) >= 0 {
            assert(entry_matches(r2, es2[find_key(es2, k)]));
            assert(key_count(r2, k) >= 1);
        }
        if find_key(es1, k) >= 0 && find_key(es2, k) >= 0 {
            assert(es1[find_key(es1, k)].st == es2[find_key(es2, k)].st);
        }
    }
    lemma_ascending_unique(es1, es2);
}

} // verus!
