use vstd::prelude::*;
use vstd::bytes::lemma_auto_spec_u32_to_from_le_bytes;
use crate::db::{
    add_model, empty_model, header_of, is_live, lemma_rebuilt, model_wf, new_entry, open_model,
    rebuilt, ranked, remove_model, replay, results_match, results_view, tombstone,
    update_model, DbModel,
};
use crate::ranking::{lemma_top_unique, live_mask, Neighbor};
use crate::storage::{
    entry_bytes, header_bytes, lemma_log_round_trip, log_bytes, metadata_fits, records_bytes,
    EntryModel, HEADER_LEN,
};
use crate::types::{DbError, MetadataModel, Metric, SearchResult};

verus! {

/// No entry is tombstoned.
pub open spec fn all_live(es: Seq<EntryModel>) -> bool {
    forall|i: int| 0 <= i < es.len() ==> !(#[trigger] es[i]).deleted
}

proof fn lemma_replay_live(metric: Metric, d: usize, es: Seq<EntryModel>)
    requires
        model_wf(DbModel { metric, dim: d, entries: es }),
        all_live(es),
    ensures
        replay(empty_model(metric, d), es) == Ok::<DbModel, DbError>(
            DbModel { metric, dim: d, entries: es },
        ),
    decreases es.len(),
{
    if es.len() > 0 {
        let pre = es.drop_last();
        let e = es.last();
        let n = es.len() - 1;
        assert(model_wf(DbModel { metric, dim: d, entries: pre })) by {
            assert forall|i: int| 0 <= i < pre.len() implies (#[trigger] pre[i]).vector.len() == d
                && metadata_fits(pre[i].metadata) by {
                assert(pre[i] == es[i]);
            }
            assert forall|i: int, j: int|
                0 <= i < pre.len() && 0 <= j < pre.len() && i != j && !pre[i].deleted
                    && !pre[j].deleted implies (#[trigger] pre[i]).id != (#[trigger] pre[j]).id by {
                assert(pre[i] == es[i] && pre[j] == es[j]);
            }
        }
        assert(all_live(pre)) by {
            assert forall|i: int| 0 <= i < pre.len() implies !(#[trigger] pre[i]).deleted by {
                assert(pre[i] == es[i]);
            }
        }
        lemma_replay_live(metric, d, pre);
        assert forall|i: int| 0 <= i < pre.len() implies (#[trigger] pre[i]).id != e.id by {
            assert(pre[i] == es[i]);
            assert(!es[n].deleted);
        }
        assert(tombstone(pre, e.id) =~= pre);
        assert(!is_live(pre, e.id));
        assert(es[n].vector.len() == d);
        assert(pre.push(new_entry(e.id, e.vector, e.metadata)) =~= es);
        assert(es.last() == e);
        assert(tombstone(pre, e.id) == pre);
    } else {
        assert(es =~= seq![]);
    }
}

/// Reopening: the log file of a database without tombstoned entries,
/// opened with the database's metric, gives back that database.
pub proof fn lemma_reopen(m: DbModel)
    requires
        model_wf(m),
        all_live(m.entries),
    ensures
        open_model(log_bytes(header_of(m), m.entries), m.metric) == Ok::<DbModel, DbError>(m),
{
    lemma_log_round_trip(header_of(m), m.entries);
    lemma_replay_live(m.metric, m.dim, m.entries);
}

/// Adding persists: where the file holds a database's log, rewriting the
/// header in place with the one the add returns and appending its record
/// leaves a file that reopens to the database after the add.
pub proof fn lemma_add_persists(m: DbModel, id: usize, v: Seq<u32>, md: MetadataModel)
    requires
        model_wf(m),
        all_live(m.entries),
        metadata_fits(md),
        add_model(m, id, v, md) is Ok,
    ensures
        ({
            let m2 = add_model(m, id, v, md)->Ok_0;
            let file = header_bytes(header_of(m2)) + log_bytes(header_of(m), m.entries).skip(
                HEADER_LEN as int,
            ) + entry_bytes(new_entry(id, v, md));
            &&& file == log_bytes(header_of(m2), m2.entries)
            &&& open_model(file, m.metric) == Ok::<DbModel, DbError>(m2)
        }),
{
    let m2 = add_model(m, id, v, md)->Ok_0;
    let old_file = log_bytes(header_of(m), m.entries);
    lemma_auto_spec_u32_to_from_le_bytes();
    assert(header_bytes(header_of(m)).len() == HEADER_LEN);
    assert(old_file.skip(HEADER_LEN as int) =~= records_bytes(m.entries));
    assert(m2.entries.drop_last() =~= m.entries);
    let file = header_bytes(header_of(m2)) + old_file.skip(HEADER_LEN as int) + entry_bytes(
        new_entry(id, v, md),
    );
    assert(file =~= log_bytes(header_of(m2), m2.entries));
    crate::db::lemma_add_wf(m, id, v, md);
    assert(all_live(m2.entries)) by {
        assert forall|i: int| 0 <= i < m2.entries.len() implies !(#[trigger] m2.entries[i]).deleted by {
            if i < m.entries.len() {
                assert(m2.entries[i] == m.entries[i]);
            }
        }
    }
    lemma_reopen(m2);
}

/// An add under a live id fails with `DuplicateId` and changes nothing.
pub proof fn lemma_duplicate_rejected(m: DbModel, id: usize, v: Seq<u32>, md: MetadataModel)
    requires
        is_live(m.entries, id),
    ensures
        add_model(m, id, v, md) == Err::<DbModel, DbError>(DbError::DuplicateId),
{
}

/// The first successful add fixes the dimension to its vector's length;
/// afterwards adds and updates keep it, and a vector of another length is
/// refused with `DimensionMismatch` by an add of a new id and by an update.
pub proof fn lemma_dimension_fixed(
    m: DbModel,
    id: usize,
    v: Seq<u32>,
    md: MetadataModel,
    id2: usize,
    v2: Seq<u32>,
    md2: MetadataModel,
)
    requires
        add_model(m, id, v, md) is Ok,
    ensures
        ({
            let m2 = add_model(m, id, v, md)->Ok_0;
            &&& m2.dim == v.len() > 0
            &&& m.dim != 0 ==> m2.dim == m.dim
            &&& v2.len() != m2.dim && !is_live(m2.entries, id2) ==> add_model(m2, id2, v2, md2)
                == Err::<DbModel, DbError>(DbError::DimensionMismatch)
            &&& v2.len() != m2.dim ==> update_model(m2, id2, v2, md2) == Err::<DbModel, DbError>(
                DbError::DimensionMismatch,
            )
            &&& add_model(m2, id2, v2, md2) is Ok ==> add_model(m2, id2, v2, md2)->Ok_0.dim
                == m2.dim
            &&& update_model(m2, id2, v2, md2) is Ok ==> update_model(m2, id2, v2, md2)->Ok_0.dim
                == m2.dim
            &&& remove_model(m2, id2) is Ok ==> remove_model(m2, id2)->Ok_0.dim == m2.dim
        }),
{
}

/// After a remove, no query's results hold the removed id, whatever `k`.
pub proof fn lemma_removed_never_found(
    m: DbModel,
    id: usize,
    k: usize,
    found: Seq<Neighbor>,
    r: Seq<SearchResult>,
)
    requires
        model_wf(m),
        remove_model(m, id) is Ok,
        ranked(remove_model(m, id)->Ok_0, k, found, r),
    ensures
        forall|i: int| 0 <= i < r.len() ==> (#[trigger] r[i]).id != id,
{
    let m2 = remove_model(m, id)->Ok_0;
    lemma_rebuilt(m.entries, id, None);
    let keys = choose|keys: Seq<(u32, usize)>|
        crate::ranking::is_top(live_mask(m2.entries), found, crate::db::effective_k(m2, k), keys)
            && results_match(m2.entries, keys, r);
    assert forall|i: int| 0 <= i < r.len() implies (#[trigger] r[i]).id != id by {
        let s = keys[i].1 as int;
        assert(r[i].id == m2.entries[s].id);
        if m2.entries[s].id == id {
            assert(rebuilt(m.entries, id, None)[s].id == id);
        }
    }
}

/// Compaction: the file that a remove returns holds exactly the live
/// entries left, with nothing of the removed id, and reopens to the
/// database after the remove.
pub proof fn lemma_remove_compacts(m: DbModel, id: usize)
    requires
        model_wf(m),
        remove_model(m, id) is Ok,
    ensures
        ({
            let m2 = remove_model(m, id)->Ok_0;
            &&& all_live(m2.entries)
            &&& forall|i: int| 0 <= i < m2.entries.len() ==> (#[trigger] m2.entries[i]).id != id
            &&& open_model(log_bytes(header_of(m2), m2.entries), m.metric) == Ok::<DbModel, DbError>(
                m2,
            )
        }),
{
    let m2 = remove_model(m, id)->Ok_0;
    lemma_rebuilt(m.entries, id, None);
    crate::db::lemma_remove_wf(m, id);
    lemma_reopen(m2);
}

/// Compaction after an update: the returned file holds exactly the live
/// entries, the updated one with its new data, and reopens to the database
/// after the update.
pub proof fn lemma_update_compacts(m: DbModel, id: usize, v: Seq<u32>, md: MetadataModel)
    requires
        model_wf(m),
        metadata_fits(md),
        update_model(m, id, v, md) is Ok,
    ensures
        ({
            let m2 = update_model(m, id, v, md)->Ok_0;
            &&& all_live(m2.entries)
            &&& forall|i: int|
                0 <= i < m2.entries.len() && (#[trigger] m2.entries[i]).id == id ==> m2.entries[i]
                    == new_entry(id, v, md)
            &&& open_model(log_bytes(header_of(m2), m2.entries), m.metric) == Ok::<DbModel, DbError>(
                m2,
            )
        }),
{
    let m2 = update_model(m, id, v, md)->Ok_0;
    lemma_rebuilt(m.entries, id, Some(new_entry(id, v, md)));
    crate::db::lemma_update_wf(m, id, v, md);
    lemma_reopen(m2);
}

/// Opening a log file with a metric other than the stored one fails with
/// `MetricMismatch`; opening takes the file's bytes and writes none.
pub proof fn lemma_metric_mismatch(m: DbModel, metric: Metric)
    requires
        model_wf(m),
        all_live(m.entries),
        metric != m.metric,
    ensures
        open_model(log_bytes(header_of(m), m.entries), metric) == Err::<DbModel, DbError>(
            DbError::MetricMismatch,
        ),
{
    lemma_log_round_trip(header_of(m), m.entries);
}

/// Ranking is a function of its inputs: two answers to the same query over
/// the same candidates are the same. So each answer of a batch equals the
/// answer of the query asked alone.
pub proof fn lemma_search_deterministic(
    m: DbModel,
    k: usize,
    found: Seq<Neighbor>,
    r1: Seq<SearchResult>,
    r2: Seq<SearchResult>,
)
    requires
        ranked(m, k, found, r1),
        ranked(m, k, found, r2),
    ensures
        results_view(r1) == results_view(r2),
{
    let n = crate::db::effective_k(m, k);
    let live = live_mask(m.entries);
    let k1 = choose|keys: Seq<(u32, usize)>|
        crate::ranking::is_top(live, found, n, keys) && results_match(m.entries, keys, r1);
    let k2 = choose|keys: Seq<(u32, usize)>|
        crate::ranking::is_top(live, found, n, keys) && results_match(m.entries, keys, r2);
    lemma_top_unique(live, found, n, k1, k2);
    assert(results_view(r1) =~= results_view(r2));
}

} // verus!
