use vstd::prelude::*;
use crate::ranking::{is_top, live_mask, top_keys, Key, Neighbor};
use crate::storage::{
    decode_log, encode_entry, encode_header, encode_log, entry_bytes, header_bytes, log_bytes,
    metadata_fits, metadata_sizes, encodable, models, parse_log, EntryModel, Header, StoredEntry, VERSION,
};
use crate::types::{DbError, Metadata, Metric, Params, SearchResult};
use std::collections::HashSet;

verus! {

broadcast use vstd::std_specs::hash::group_hash_axioms;

/// The mathematical value of a database: its metric, its dimension (0 until
/// the first vector fixes it) and its entries in slot order.
pub struct DbModel {
    pub metric: Metric,
    pub dim: usize,
    pub entries: Seq<EntryModel>,
}

pub open spec fn empty_model(metric: Metric, dim: usize) -> DbModel {
    DbModel { metric, dim, entries: seq![] }
}

pub open spec fn is_live(es: Seq<EntryModel>, id: usize) -> bool {
    exists|i: int| 0 <= i < es.len() && (#[trigger] es[i]).id == id && !es[i].deleted
}

pub open spec fn live_count(es: Seq<EntryModel>) -> nat
    decreases es.len(),
{
    if es.len() == 0 {
        0
    } else {
        live_count(es.drop_last()) + if es.last().deleted {
            0nat
        } else {
            1nat
        }
    }
}

/// The ids of the live entries.
pub open spec fn live_ids(es: Seq<EntryModel>) -> Set<usize> {
    Set::new(|id: usize| is_live(es, id))
}

/// No two live entries share an id.
pub open spec fn unique_live(es: Seq<EntryModel>) -> bool {
    forall|i: int, j: int|
        0 <= i < es.len() && 0 <= j < es.len() && i != j && !es[i].deleted && !es[j].deleted
            ==> (#[trigger] es[i]).id != (#[trigger] es[j]).id
}

/// The invariants of a database: every vector has the fixed dimension,
/// which fits the header, and live ids are unique.
pub open spec fn model_wf(m: DbModel) -> bool {
    &&& m.dim <= u32::MAX
    &&& m.dim == 0 ==> m.entries.len() == 0
    &&& forall|i: int|
        0 <= i < m.entries.len() ==> (#[trigger] m.entries[i]).vector.len() == m.dim
            && metadata_fits(m.entries[i].metadata)
    &&& unique_live(m.entries)
}

/// A vector of length `n` may be stored where the dimension is `dim`: the
/// first non-empty vector fixes the dimension, later ones must match it.
pub open spec fn dim_ok(dim: usize, n: int) -> bool {
    if dim == 0 {
        0 < n <= u32::MAX
    } else {
        n == dim
    }
}

pub open spec fn new_entry(id: usize, v: Seq<u32>, md: crate::types::MetadataModel) -> EntryModel {
    EntryModel { id, vector: v, metadata: md, deleted: false }
}

pub open spec fn add_model(
    m: DbModel,
    id: usize,
    v: Seq<u32>,
    md: crate::types::MetadataModel,
) -> Result<DbModel, DbError> {
    if is_live(m.entries, id) {
        Err(DbError::DuplicateId)
    } else if !dim_ok(m.dim, v.len() as int) {
        Err(DbError::DimensionMismatch)
    } else {
        Ok(
            DbModel {
                metric: m.metric,
                dim: v.len() as usize,
                entries: m.entries.push(new_entry(id, v, md)),
            },
        )
    }
}

pub open spec fn tombstone(es: Seq<EntryModel>, id: usize) -> Seq<EntryModel> {
    es.map_values(
        |e: EntryModel|
            if e.id == id {
                EntryModel { id: e.id, vector: e.vector, metadata: e.metadata, deleted: true }
            } else {
                e
            },
    )
}

/// Replaying one log record: a tombstone retires the id; an entry retires
/// any live entry of its id and is then added.
pub open spec fn apply_record(m: DbModel, r: EntryModel) -> Result<DbModel, DbError> {
    let t = DbModel { metric: m.metric, dim: m.dim, entries: tombstone(m.entries, r.id) };
    if r.deleted {
        Ok(t)
    } else {
        add_model(t, r.id, r.vector, r.metadata)
    }
}

pub open spec fn replay(m: DbModel, rs: Seq<EntryModel>) -> Result<DbModel, DbError>
    decreases rs.len(),
{
    if rs.len() == 0 {
        Ok(m)
    } else {
        match replay(m, rs.drop_last()) {
            Err(x) => Err(x),
            Ok(m1) => apply_record(m1, rs.last()),
        }
    }
}

/// What opening the log file `b` with `metric` gives.
pub open spec fn open_model(b: Seq<u8>, metric: Metric) -> Result<DbModel, DbError> {
    match parse_log(b) {
        Err(x) => Err(x),
        Ok((h, rs)) => if h.metric != metric {
            Err(DbError::MetricMismatch)
        } else {
            replay(empty_model(metric, h.dim as usize), rs)
        },
    }
}

/// The live entries in slot order, with those of `id` left out or, given
/// `rep`, replaced by it.
pub open spec fn rebuilt(es: Seq<EntryModel>, id: usize, rep: Option<EntryModel>) -> Seq<EntryModel>
    decreases es.len(),
{
    if es.len() == 0 {
        seq![]
    } else {
        let r = rebuilt(es.drop_last(), id, rep);
        let e = es.last();
        if e.deleted {
            r
        } else if e.id != id {
            r.push(e)
        } else {
            match rep {
                Some(x) => r.push(x),
                None => r,
            }
        }
    }
}

pub open spec fn remove_model(m: DbModel, id: usize) -> Result<DbModel, DbError> {
    if !is_live(m.entries, id) {
        Err(DbError::NotFound)
    } else {
        Ok(DbModel { metric: m.metric, dim: m.dim, entries: rebuilt(m.entries, id, None) })
    }
}

pub open spec fn update_model(
    m: DbModel,
    id: usize,
    v: Seq<u32>,
    md: crate::types::MetadataModel,
) -> Result<DbModel, DbError> {
    if v.len() != m.dim {
        Err(DbError::DimensionMismatch)
    } else if !is_live(m.entries, id) {
        Err(DbError::NotFound)
    } else {
        Ok(
            DbModel {
                metric: m.metric,
                dim: m.dim,
                entries: rebuilt(m.entries, id, Some(new_entry(id, v, md))),
            },
        )
    }
}

/// The header a database's log file holds.
pub open spec fn header_of(m: DbModel) -> Header {
    Header { version: VERSION, metric: m.metric, dim: m.dim as u32 }
}

/// The number of results a query for `k` may return.
pub open spec fn effective_k(m: DbModel, k: usize) -> int {
    if k < live_count(m.entries) {
        k as int
    } else {
        live_count(m.entries) as int
    }
}

/// The beam width a query for `k` uses.
pub open spec fn width_for(m: DbModel, ef_search: usize, k: usize) -> int {
    let w = if 2 * effective_k(m, k) > usize::MAX {
        usize::MAX as int
    } else {
        2 * effective_k(m, k)
    };
    if ef_search < w {
        w
    } else {
        ef_search as int
    }
}

/// `r` lists, for each key, the entry of its slot with the key's distance.
pub open spec fn results_match(es: Seq<EntryModel>, keys: Seq<Key>, r: Seq<SearchResult>) -> bool {
    &&& r.len() == keys.len()
    &&& forall|i: int|
        0 <= i < r.len() ==> {
            &&& keys[i].1 < es.len()
            &&& (#[trigger] r[i]).id == es[keys[i].1 as int].id
            &&& r[i].distance == keys[i].0
            &&& r[i].metadata@ == es[keys[i].1 as int].metadata
        }
}

/// `r` is the ranked answer to a query for `k` whose index candidates were
/// `found`: the closest live candidates in order of distance, ties by slot,
/// at most `effective_k` of them.
pub open spec fn ranked(m: DbModel, k: usize, found: Seq<Neighbor>, r: Seq<SearchResult>) -> bool {
    exists|keys: Seq<Key>|
        is_top(live_mask(m.entries), found, effective_k(m, k), keys) && results_match(
            m.entries,
            keys,
            r,
        )
}

/// The observable value of a list of results.
pub open spec fn results_view(r: Seq<SearchResult>) -> Seq<(usize, u32, crate::types::MetadataModel)> {
    r.map_values(|x: SearchResult| (x.id, x.distance, x.metadata@))
}

/// What a log append after an `add` writes: the header, where the add fixed
/// the dimension, and the record.
pub struct LogAppend {
    pub header: Option<Vec<u8>>,
    pub record: Vec<u8>,
}

/// The in-memory state of a vector database: the entry table in slot order
/// (co-indexed with the graph index that the caller keeps), the dimension
/// and the metric. Operations return the bytes that the log file receives.
pub struct VectorDB {
    metric: Metric,
    dim: usize,
    entries: Vec<StoredEntry>,
    ids: HashSet<usize>,
    params: Params,
}

impl View for VectorDB {
    type V = DbModel;

    closed spec fn view(&self) -> DbModel {
        DbModel { metric: self.metric, dim: self.dim, entries: models(self.entries@) }
    }
}


pub open spec fn opt_model(o: Option<StoredEntry>) -> Option<EntryModel> {
    match o {
        Some(x) => Some(x@),
        None => None,
    }
}

// ---------------------------------------------------------------------------
// Facts about the model.

proof fn lemma_tombstone(m: DbModel, id: usize)
    requires
        model_wf(m),
    ensures
        model_wf(DbModel { metric: m.metric, dim: m.dim, entries: tombstone(m.entries, id) }),
        !is_live(tombstone(m.entries, id), id),
        tombstone(m.entries, id).len() == m.entries.len(),
{
    let t = tombstone(m.entries, id);
    assert forall|i: int, j: int|
        0 <= i < t.len() && 0 <= j < t.len() && i != j && !t[i].deleted && !t[j].deleted implies (
    #[trigger] t[i]).id != (#[trigger] t[j]).id by {
        assert(m.entries[i].id != m.entries[j].id);
    }
    assert forall|i: int| 0 <= i < t.len() implies (#[trigger] t[i]).vector.len() == m.dim
        && metadata_fits(t[i].metadata) by {
        assert(m.entries[i].vector.len() == m.dim);
    }
}

proof fn lemma_tombstone_ids(es: Seq<EntryModel>, id: usize)
    ensures
        live_ids(tombstone(es, id)) == live_ids(es).remove(id),
{
    let t = tombstone(es, id);
    assert forall|x: usize| live_ids(t).contains(x) <==> live_ids(es).remove(id).contains(x) by {
        if is_live(t, x) {
            let i = choose|i: int| 0 <= i < t.len() && (#[trigger] t[i]).id == x && !t[i].deleted;
            assert(es[i].id == x && !es[i].deleted);
        }
        if is_live(es, x) && x != id {
            let i = choose|i: int| 0 <= i < es.len() && (#[trigger] es[i]).id == x && !es[i].deleted;
            assert(t[i].id == x && !t[i].deleted);
        }
    }
    assert(live_ids(t) =~= live_ids(es).remove(id));
}

proof fn lemma_push_ids(es: Seq<EntryModel>, e: EntryModel)
    requires
        !e.deleted,
    ensures
        live_ids(es.push(e)) == live_ids(es).insert(e.id),
{
    let p = es.push(e);
    assert forall|x: usize| live_ids(p).contains(x) <==> live_ids(es).insert(e.id).contains(x) by {
        if is_live(p, x) && x != e.id {
            let i = choose|i: int| 0 <= i < p.len() && (#[trigger] p[i]).id == x && !p[i].deleted;
            assert(es[i] == p[i]);
        }
        if is_live(es, x) {
            let i = choose|i: int| 0 <= i < es.len() && (#[trigger] es[i]).id == x && !es[i].deleted;
            assert(p[i] == es[i]);
        }
        if x == e.id {
            assert(p[es.len() as int] == e);
        }
    }
    assert(live_ids(p) =~= live_ids(es).insert(e.id));
}

/// A rebuild keeps every live entry of another id and, given one, the
/// replacement for a live entry of `id`.
proof fn lemma_rebuilt_keeps(es: Seq<EntryModel>, id: usize, rep: Option<EntryModel>)
    ensures
        forall|j: int|
            0 <= j < es.len() && !es[j].deleted && es[j].id != id ==> rebuilt(es, id, rep).contains(
                #[trigger] es[j],
            ),
        is_live(es, id) && rep is Some ==> rebuilt(es, id, rep).contains(rep->Some_0),
    decreases es.len(),
{
    if es.len() > 0 {
        let pre = es.drop_last();
        let n = es.len() - 1;
        lemma_rebuilt_keeps(pre, id, rep);
        let r0 = rebuilt(pre, id, rep);
        let r = rebuilt(es, id, rep);
        assert forall|j: int|
            0 <= j < es.len() && !es[j].deleted && es[j].id != id implies r.contains(
            #[trigger] es[j],
        ) by {
            if j < n {
                assert(pre[j] == es[j]);
                let k = choose|k: int| 0 <= k < r0.len() && r0[k] == pre[j];
                assert(r[k] == r0[k]);
            } else {
                assert(r[r.len() - 1] == es[n]);
            }
        }
        if is_live(es, id) && rep is Some {
            let j = choose|j: int| 0 <= j < es.len() && (#[trigger] es[j]).id == id && !es[j].deleted;
            if j < n {
                assert(pre[j] == es[j]);
                assert(is_live(pre, id));
                let k = choose|k: int| 0 <= k < r0.len() && r0[k] == rep->Some_0;
                assert(r[k] == r0[k]);
            } else {
                assert(r[r.len() - 1] == rep->Some_0);
            }
        }
    }
}

proof fn lemma_rebuilt_live_ids(es: Seq<EntryModel>, id: usize, rep: Option<EntryModel>)
    requires
        unique_live(es),
        is_live(es, id),
        match rep {
            Some(x) => x.id == id && !x.deleted,
            None => true,
        },
    ensures
        live_ids(rebuilt(es, id, rep)) == match rep {
            Some(_) => live_ids(es),
            None => live_ids(es).remove(id),
        },
{
    lemma_rebuilt(es, id, rep);
    lemma_rebuilt_keeps(es, id, rep);
    let r = rebuilt(es, id, rep);
    let want = match rep {
        Some(_) => live_ids(es),
        None => live_ids(es).remove(id),
    };
    assert forall|x: usize| live_ids(r).contains(x) <==> want.contains(x) by {
        if is_live(r, x) {
            let k = choose|k: int| 0 <= k < r.len() && (#[trigger] r[k]).id == x && !r[k].deleted;
            if x != id {
                let j = choose|j: int| 0 <= j < es.len() && es[j] == r[k];
                assert(es[j].id == x && !es[j].deleted);
            }
        }
        if want.contains(x) {
            if x != id {
                let j = choose|j: int| 0 <= j < es.len() && (#[trigger] es[j]).id == x && !es[j].deleted;
                assert(r.contains(es[j]));
                let k = choose|k: int| 0 <= k < r.len() && r[k] == es[j];
                assert(r[k].id == x && !r[k].deleted);
            } else {
                let x0 = rep->Some_0;
                assert(r.contains(x0));
                let k = choose|k: int| 0 <= k < r.len() && r[k] == x0;
                assert(r[k].id == x && !r[k].deleted);
            }
        }
    }
    assert(live_ids(r) =~= want);
}

pub(crate) proof fn lemma_add_wf(m: DbModel, id: usize, v: Seq<u32>, md: crate::types::MetadataModel)
    requires
        model_wf(m),
        metadata_fits(md),
        add_model(m, id, v, md) is Ok,
    ensures
        model_wf(add_model(m, id, v, md)->Ok_0),
{
    let m2 = add_model(m, id, v, md)->Ok_0;
    let n = m.entries.len() as int;
    assert forall|i: int| 0 <= i < m2.entries.len() implies (#[trigger] m2.entries[i]).vector.len()
        == m2.dim && metadata_fits(m2.entries[i].metadata) by {
        if i < n {
            assert(m2.entries[i] == m.entries[i]);
        }
    }
    assert forall|i: int, j: int|
        0 <= i < m2.entries.len() && 0 <= j < m2.entries.len() && i != j && !m2.entries[i].deleted
            && !m2.entries[j].deleted implies (#[trigger] m2.entries[i]).id != (
    #[trigger] m2.entries[j]).id by {
        if i == n {
            assert(m2.entries[j] == m.entries[j]);
        } else if j == n {
            assert(m2.entries[i] == m.entries[i]);
        } else {
            assert(m2.entries[i] == m.entries[i]);
            assert(m2.entries[j] == m.entries[j]);
        }
    }
}

/// What a rebuild keeps: only live entries, each an old live entry of
/// another id or the replacement for a live entry of `id`, with unique ids.
pub(crate) proof fn lemma_rebuilt(es: Seq<EntryModel>, id: usize, rep: Option<EntryModel>)
    requires
        unique_live(es),
        match rep {
            Some(x) => x.id == id && !x.deleted,
            None => true,
        },
    ensures
        forall|k: int|
            0 <= k < rebuilt(es, id, rep).len() ==> !(#[trigger] rebuilt(es, id, rep)[k]).deleted,
        forall|k: int|
            0 <= k < rebuilt(es, id, rep).len() && (#[trigger] rebuilt(es, id, rep)[k]).id != id
                ==> exists|j: int| 0 <= j < es.len() && es[j] == rebuilt(es, id, rep)[k],
        forall|k: int|
            0 <= k < rebuilt(es, id, rep).len() && (#[trigger] rebuilt(es, id, rep)[k]).id == id
                ==> rep == Some(rebuilt(es, id, rep)[k]) && is_live(es, id),
        unique_live(rebuilt(es, id, rep)),
    decreases es.len(),
{
    if es.len() > 0 {
        let pre = es.drop_last();
        assert(unique_live(pre)) by {
            assert forall|i: int, j: int|
                0 <= i < pre.len() && 0 <= j < pre.len() && i != j && !pre[i].deleted
                    && !pre[j].deleted implies (#[trigger] pre[i]).id != (#[trigger] pre[j]).id by {
                assert(pre[i] == es[i] && pre[j] == es[j]);
            }
        }
        lemma_rebuilt(pre, id, rep);
        let r0 = rebuilt(pre, id, rep);
        let r = rebuilt(es, id, rep);
        let e = es.last();
        let n = es.len() - 1;
        assert forall|k: int| 0 <= k < r.len() && (#[trigger] r[k]).id != id implies exists|j: int|
            0 <= j < es.len() && es[j] == r[k] by {
            if k < r0.len() {
                assert(r[k] == r0[k]);
                let j = choose|j: int| 0 <= j < pre.len() && pre[j] == r0[k];
                assert(es[j] == pre[j]);
            } else {
                assert(es[n] == r[k]);
            }
        }
        assert forall|k: int| 0 <= k < r.len() && (#[trigger] r[k]).id == id implies rep == Some(
            r[k],
        ) && is_live(es, id) by {
            if k < r0.len() {
                assert(r[k] == r0[k]);
                let j = choose|j: int| 0 <= j < pre.len() && (#[trigger] pre[j]).id == id && !pre[j].deleted;
                assert(es[j] == pre[j]);
            } else {
                assert(es[n].id == id && !es[n].deleted);
            }
        }
        assert forall|k: int| 0 <= k < r.len() implies !(#[trigger] r[k]).deleted by {
            if k < r0.len() {
                assert(r[k] == r0[k]);
            }
        }
        assert forall|i: int, j: int|
            0 <= i < r.len() && 0 <= j < r.len() && i != j && !r[i].deleted && !r[j].deleted implies (
        #[trigger] r[i]).id != (#[trigger] r[j]).id by {
            if i < r0.len() && j < r0.len() {
                assert(r[i] == r0[i] && r[j] == r0[j]);
            } else if r.len() > r0.len() {
                // one of them is the element pushed for the last entry
                let (a, b) = if i < r0.len() {
                    (i, j)
                } else {
                    (j, i)
                };
                assert(b == r0.len());
                assert(r[a] == r0[a]);
                if r[a].id == r[b].id {
                    if r[b].id == id {
                        let jj = choose|jj: int| 0 <= jj < pre.len() && (#[trigger] pre[jj]).id == id && !pre[jj].deleted;
                        assert(es[jj] == pre[jj]);
                        assert(es[n].id == id);
                    } else {
                        let jj = choose|jj: int| 0 <= jj < pre.len() && pre[jj] == r0[a];
                        assert(es[jj] == pre[jj]);
                        assert(es[n] == r[b]);
                    }
                }
            }
        }
    }
}

pub(crate) proof fn lemma_remove_wf(m: DbModel, id: usize)
    requires
        model_wf(m),
        remove_model(m, id) is Ok,
    ensures
        model_wf(remove_model(m, id)->Ok_0),
{
    lemma_rebuilt_wf(m, id, None);
}

pub(crate) proof fn lemma_update_wf(m: DbModel, id: usize, v: Seq<u32>, md: crate::types::MetadataModel)
    requires
        model_wf(m),
        metadata_fits(md),
        update_model(m, id, v, md) is Ok,
    ensures
        model_wf(update_model(m, id, v, md)->Ok_0),
{
    lemma_rebuilt_wf(m, id, Some(new_entry(id, v, md)));
}

proof fn lemma_rebuilt_wf(m: DbModel, id: usize, rep: Option<EntryModel>)
    requires
        model_wf(m),
        match rep {
            Some(x) => x.id == id && !x.deleted && x.vector.len() == m.dim && metadata_fits(
                x.metadata,
            ),
            None => true,
        },
    ensures
        model_wf(DbModel { metric: m.metric, dim: m.dim, entries: rebuilt(m.entries, id, rep) }),
{
    lemma_rebuilt(m.entries, id, rep);
    let r = rebuilt(m.entries, id, rep);
    assert forall|k: int| 0 <= k < r.len() implies (#[trigger] r[k]).vector.len() == m.dim
        && metadata_fits(r[k].metadata) by {
        if r[k].id != id {
            let j = choose|j: int| 0 <= j < m.entries.len() && m.entries[j] == r[k];
            assert(m.entries[j].vector.len() == m.dim);
        }
    }
    if m.dim == 0 {
        assert(m.entries.len() == 0);
        assert(r =~= seq![]);
    }
}

proof fn lemma_replay_err_extends(m: DbModel, rs: Seq<EntryModel>, n: int, x: DbError)
    requires
        0 <= n <= rs.len(),
        replay(m, rs.take(n)) == Err::<DbModel, DbError>(x),
    ensures
        replay(m, rs) == Err::<DbModel, DbError>(x),
    decreases rs.len(),
{
    if n == rs.len() {
        assert(rs.take(n) =~= rs);
    } else {
        assert(rs.drop_last().take(n) =~= rs.take(n));
        lemma_replay_err_extends(m, rs.drop_last(), n, x);
    }
}

proof fn lemma_replay_step(m: DbModel, rs: Seq<EntryModel>, i: int)
    requires
        0 <= i < rs.len(),
    ensures
        replay(m, rs.take(i + 1)) == match replay(m, rs.take(i)) {
            Err(x) => Err(x),
            Ok(m1) => apply_record(m1, rs[i]),
        },
{
    assert(rs.take(i + 1).drop_last() =~= rs.take(i));
}


// ---------------------------------------------------------------------------
// The database.

impl VectorDB {
    /// The model's invariants hold, and the id set holds the live ids.
    pub closed spec fn wf(&self) -> bool {
        &&& model_wf(self@)
        &&& self.ids@ == live_ids(self@.entries)
    }

    pub proof fn lemma_wf(&self)
        requires
            self.wf(),
        ensures
            model_wf(self@),
    {
    }

    /// The beam widths this database was opened with.
    pub closed spec fn spec_params(&self) -> Params {
        self.params
    }

    pub fn params(&self) -> (r: Params)
        ensures
            r == self.spec_params(),
    {
        self.params
    }

    /// A fresh, empty database and the bytes of its new log file.
    pub fn create(metric: Metric, params: Params) -> (r: (VectorDB, Vec<u8>))
        ensures
            r.0@ == empty_model(metric, 0),
            r.0.wf(),
            r.0.spec_params() == params,
            r.1@ == header_bytes(header_of(r.0@)),
    {
        let db = VectorDB { metric, dim: 0, entries: Vec::new(), ids: HashSet::new(), params };
        proof {
            assert(models(db.entries@) =~= seq![]);
            assert(db.ids@ =~= live_ids(db@.entries));
        }
        let bytes = encode_header(&Header { version: VERSION, metric, dim: 0 });
        (db, bytes)
    }

    /// The dimension every vector must have; 0 until the first vector is added.
    pub fn dimension(&self) -> (r: usize)
        ensures
            r == self@.dim,
    {
        self.dim
    }

    pub fn metric(&self) -> (r: Metric)
        ensures
            r == self@.metric,
    {
        self.metric
    }

    /// The entry table in slot order, from which the graph index is built.
    pub fn entries(&self) -> (r: &Vec<StoredEntry>)
        ensures
            models(r@) == self@.entries,
    {
        &self.entries
    }

    /// The header of this database's log file.
    pub fn header(&self) -> (r: Header)
        requires
            self.wf(),
        ensures
            r == header_of(self@),
    {
        Header { version: VERSION, metric: self.metric, dim: self.dim as u32 }
    }

    proof fn lemma_encodable(&self)
        requires
            self.wf(),
        ensures
            forall|i: int|
                0 <= i < self.entries@.len() ==> encodable(#[trigger] self.entries@[i]@),
    {
        assert forall|i: int| 0 <= i < self.entries@.len() implies encodable(
            #[trigger] self.entries@[i]@,
        ) by {
            assert(self@.entries[i] == self.entries@[i]@);
        }
    }

    fn dim_accepts(&self, n: usize) -> (r: bool)
        ensures
            r == dim_ok(self@.dim, n as int),
    {
        if self.dim == 0 {
            n > 0 && n <= u32::MAX as usize
        } else {
            n == self.dim
        }
    }

    fn tombstone_id(&mut self, id: usize)
        ensures
            final(self)@ == (DbModel {
                metric: old(self)@.metric,
                dim: old(self)@.dim,
                entries: tombstone(old(self)@.entries, id),
            }),
            final(self).spec_params() == old(self).spec_params(),
            final(self).ids@ == old(self).ids@.remove(id),
    {
        self.ids.remove(&id);
        let ghost start = models(self.entries@);
        let mut i: usize = 0;
        while i < self.entries.len()
            invariant
                self.metric == old(self).metric,
                self.dim == old(self).dim,
                self.params == old(self).params,
                self.ids@ == old(self).ids@.remove(id),
                start == models(old(self).entries@),
                i <= self.entries@.len(),
                self.entries@.len() == start.len(),
                forall|j: int| 0 <= j < i ==> (#[trigger] self.entries@[j])@ == tombstone(start, id)[j],
                forall|j: int| i <= j < start.len() ==> (#[trigger] self.entries@[j])@ == start[j],
            decreases self.entries.len() - i,
        {
            if self.entries[i].id == id {
                self.entries[i].deleted = true;
            }
            i = i + 1;
        }
        assert(models(self.entries@) =~= tombstone(start, id));
    }

    fn apply_entry(&mut self, e: StoredEntry) -> (r: Result<(), DbError>)
        requires
            old(self).wf(),
        ensures
            final(self).spec_params() == old(self).spec_params(),
            match r {
                Ok(()) => apply_record(old(self)@, e@) == Ok::<DbModel, DbError>(final(self)@)
                    && final(self).wf(),
                Err(x) => apply_record(old(self)@, e@) == Err::<DbModel, DbError>(x),
            },
    {
        metadata_sizes(&e.metadata);
        proof {
            lemma_tombstone(self@, e.id);
            lemma_tombstone_ids(self@.entries, e.id);
        }
        let id = e.id;
        self.tombstone_id(id);
        if e.deleted {
            return Ok(());
        }
        if !self.dim_accepts(e.vector.len()) {
            return Err(DbError::DimensionMismatch);
        }
        proof {
            lemma_add_wf(self@, e.id, e.vector@, e.metadata@);
        }
        self.dim = e.vector.len();
        let ghost es = models(self.entries@);
        let ghost em = e@;
        self.entries.push(e);
        self.ids.insert(id);
        proof {
            assert(models(self.entries@) =~= es.push(em));
            lemma_push_ids(es, em);
        }
        Ok(())
    }

    /// Opens a database from the bytes of its log file with the default
    /// beam widths.
    pub fn open(bytes: &[u8], metric: Metric) -> (r: Result<VectorDB, DbError>)
        ensures
            match r {
                Ok(db) => open_model(bytes@, metric) == Ok::<DbModel, DbError>(db@) && db.wf()
                    && db.spec_params() == (Params { ef_construction: 200, ef_search: 50 }),
                Err(x) => open_model(bytes@, metric) == Err::<DbModel, DbError>(x),
            },
    {
        VectorDB::open_with_params(bytes, metric, Params::default())
    }

    /// Opens a database from the bytes of its log file, replaying every
    /// record in order.
    pub fn open_with_params(bytes: &[u8], metric: Metric, params: Params) -> (r: Result<
        VectorDB,
        DbError,
    >)
        ensures
            match r {
                Ok(db) => open_model(bytes@, metric) == Ok::<DbModel, DbError>(db@) && db.wf()
                    && db.spec_params() == params,
                Err(x) => open_model(bytes@, metric) == Err::<DbModel, DbError>(x),
            },
    {
        let (h, records) = match decode_log(bytes) {
            Ok(p) => p,
            Err(x) => return Err(x),
        };
        if h.metric != metric {
            return Err(DbError::MetricMismatch);
        }
        let ghost rs = models(records@);
        assert(parse_log(bytes@) == Ok::<(Header, Seq<EntryModel>), DbError>((h, rs)));
        let ghost init = empty_model(metric, h.dim as usize);
        let mut db = VectorDB {
            metric,
            dim: h.dim as usize,
            entries: Vec::new(),
            ids: HashSet::new(),
            params,
        };
        proof {
            assert(models(db.entries@) =~= seq![]);
            assert(db.ids@ =~= live_ids(db@.entries));
            assert(rs.take(0) =~= seq![]);
        }
        let mut i: usize = 0;
        while i < records.len()
            invariant
                rs == models(records@),
                parse_log(bytes@) == Ok::<(Header, Seq<EntryModel>), DbError>((h, rs)),
                h.metric == metric,
                init == empty_model(metric, h.dim as usize),
                i <= records@.len(),
                db.wf(),
                db.params == params,
                replay(init, rs.take(i as int)) == Ok::<DbModel, DbError>(db@),
            decreases records.len() - i,
        {
            proof {
                lemma_replay_step(init, rs, i as int);
            }
            let e = records[i].duplicate();
            match db.apply_entry(e) {
                Ok(()) => {},
                Err(x) => {
                    proof {
                        assert(rs[i as int] == e@);
                        assert(replay(init, rs.take(i + 1)) == Err::<DbModel, DbError>(x));
                        lemma_replay_err_extends(init, rs, i + 1, x);
                    }
                    return Err(x);
                },
            }
            i = i + 1;
        }
        proof {
            assert(rs.take(i as int) =~= rs);
        }
        Ok(db)
    }

    /// Adds an entry under `id`. The first vector fixes the dimension, which
    /// the returned header records; the returned record is appended to the
    /// log. On error nothing changes.
    pub fn add(&mut self, id: usize, vector: Vec<u32>, metadata: Metadata) -> (r: Result<
        LogAppend,
        DbError,
    >)
        requires
            old(self).wf(),
        ensures
            final(self).wf(),
            final(self).spec_params() == old(self).spec_params(),
            match r {
                Ok(a) => {
                    &&& add_model(old(self)@, id, vector@, metadata@) == Ok::<DbModel, DbError>(
                        final(self)@,
                    )
                    &&& a.record@ == entry_bytes(new_entry(id, vector@, metadata@))
                    &&& (a.header is Some <==> old(self)@.dim == 0)
                    &&& (a.header is Some ==> a.header->Some_0@ == header_bytes(
                        header_of(final(self)@),
                    ))
                },
                Err(x) => add_model(old(self)@, id, vector@, metadata@) == Err::<DbModel, DbError>(
                    x,
                ) && final(self)@ == old(self)@,
            },
    {
        if self.ids.contains(&id) {
            return Err(DbError::DuplicateId);
        }
        if !self.dim_accepts(vector.len()) {
            return Err(DbError::DimensionMismatch);
        }
        metadata_sizes(&metadata);
        proof {
            lemma_add_wf(self@, id, vector@, metadata@);
        }
        let header = if self.dim == 0 {
            self.dim = vector.len();
            Some(encode_header(&Header { version: VERSION, metric: self.metric, dim: vector.len() as u32 }))
        } else {
            None
        };
        let entry = StoredEntry { id, vector, metadata, deleted: false };
        let record = encode_entry(&entry);
        let ghost es = models(self.entries@);
        let ghost em = entry@;
        self.entries.push(entry);
        self.ids.insert(id);
        proof {
            assert(models(self.entries@) =~= es.push(em));
            lemma_push_ids(es, em);
        }
        Ok(LogAppend { header, record })
    }

    fn rebuild(&mut self, id: usize, rep: Option<StoredEntry>)
        requires
            old(self).wf(),
            is_live(old(self)@.entries, id),
            match rep {
                Some(x) => x.id == id && !x.deleted && x.vector@.len() == old(self)@.dim
                    && metadata_fits(x.metadata@),
                None => true,
            },
        ensures
            final(self)@ == (DbModel {
                metric: old(self)@.metric,
                dim: old(self)@.dim,
                entries: rebuilt(old(self)@.entries, id, opt_model(rep)),
            }),
            final(self).wf(),
            final(self).spec_params() == old(self).spec_params(),
    {
        let ghost start = models(self.entries@);
        let ghost repm = opt_model(rep);
        let mut out: Vec<StoredEntry> = Vec::new();
        let mut i: usize = 0;
        proof {
            assert(start.take(0) =~= seq![]);
            assert(models(out@) =~= seq![]);
        }
        while i < self.entries.len()
            invariant
                start == models(self.entries@),
                repm == opt_model(rep),
                i <= self.entries@.len(),
                models(out@) == rebuilt(start.take(i as int), id, repm),
            decreases self.entries.len() - i,
        {
            proof {
                assert(start.take(i + 1).drop_last() =~= start.take(i as int));
            }
            let ghost before = models(out@);
            if !self.entries[i].deleted {
                if self.entries[i].id != id {
                    let d = self.entries[i].duplicate();
                    out.push(d);
                    proof {
                        assert(models(out@) =~= before.push(start[i as int]));
                    }
                } else {
                    match &rep {
                        Some(x) => {
                            let d = x.duplicate();
                            out.push(d);
                            proof {
                                assert(models(out@) =~= before.push(x@));
                            }
                        },
                        None => {},
                    }
                }
            }
            i = i + 1;
        }
        proof {
            assert(start.take(i as int) =~= start);
            lemma_rebuilt(start, id, repm);
            let r = rebuilt(start, id, repm);
            assert forall|k: int| 0 <= k < r.len() implies (#[trigger] r[k]).vector.len()
                == self@.dim && metadata_fits(r[k].metadata) by {
                if r[k].id != id {
                    let j = choose|j: int| 0 <= j < start.len() && start[j] == r[k];
                    assert(start[j].vector.len() == self@.dim);
                }
            }
            if self.dim == 0 {
                assert(start.len() == 0);
                assert(r =~= seq![]);
            }
        }
        self.entries = out;
        if rep.is_none() {
            self.ids.remove(&id);
        }
        proof {
            lemma_rebuilt_live_ids(start, id, repm);
        }
    }

    /// Removes the live entry of `id` and compacts: the entry table keeps
    /// the live entries in their order, and the returned bytes are the whole
    /// new log file.
    pub fn remove(&mut self, id: usize) -> (r: Result<Vec<u8>, DbError>)
        requires
            old(self).wf(),
        ensures
            final(self).wf(),
            final(self).spec_params() == old(self).spec_params(),
            match r {
                Ok(b) => remove_model(old(self)@, id) == Ok::<DbModel, DbError>(final(self)@)
                    && b@ == log_bytes(header_of(final(self)@), final(self)@.entries),
                Err(x) => remove_model(old(self)@, id) == Err::<DbModel, DbError>(x)
                    && final(self)@ == old(self)@,
            },
    {
        if !self.ids.contains(&id) {
            return Err(DbError::NotFound);
        }
        self.rebuild(id, None);
        let h = self.header();
        proof {
            self.lemma_encodable();
        }
        Ok(encode_log(&h, &self.entries))
    }

    /// Replaces the live entry of `id` in place and compacts, as `remove`
    /// does.
    pub fn update(&mut self, id: usize, vector: Vec<u32>, metadata: Metadata) -> (r: Result<
        Vec<u8>,
        DbError,
    >)
        requires
            old(self).wf(),
        ensures
            final(self).wf(),
            final(self).spec_params() == old(self).spec_params(),
            match r {
                Ok(b) => update_model(old(self)@, id, vector@, metadata@) == Ok::<
                    DbModel,
                    DbError,
                >(final(self)@) && b@ == log_bytes(header_of(final(self)@), final(self)@.entries),
                Err(x) => update_model(old(self)@, id, vector@, metadata@) == Err::<
                    DbModel,
                    DbError,
                >(x) && final(self)@ == old(self)@,
            },
    {
        if vector.len() != self.dim {
            return Err(DbError::DimensionMismatch);
        }
        if !self.ids.contains(&id) {
            return Err(DbError::NotFound);
        }
        metadata_sizes(&metadata);
        let rep = StoredEntry { id, vector, metadata, deleted: false };
        self.rebuild(id, Some(rep));
        let h = self.header();
        proof {
            self.lemma_encodable();
        }
        Ok(encode_log(&h, &self.entries))
    }

    fn count_live(&self) -> (r: usize)
        ensures
            r == live_count(self@.entries),
    {
        let ghost es = self@.entries;
        let mut n: usize = 0;
        let mut i: usize = 0;
        proof {
            assert(es.take(0) =~= seq![]);
        }
        while i < self.entries.len()
            invariant
                es == self@.entries,
                i <= es.len(),
                n <= i,
                n == live_count(es.take(i as int)),
            decreases self.entries.len() - i,
        {
            proof {
                assert(es.take(i + 1).drop_last() =~= es.take(i as int));
            }
            if !self.entries[i].deleted {
                n = n + 1;
            }
            i = i + 1;
        }
        proof {
            assert(es.take(i as int) =~= es);
        }
        n
    }

    fn results_for(&self, keys: &Vec<Key>) -> (r: Vec<SearchResult>)
        requires
            forall|i: int| 0 <= i < keys@.len() ==> (#[trigger] keys@[i]).1 < self@.entries.len(),
        ensures
            results_match(self@.entries, keys@, r@),
    {
        let mut out: Vec<SearchResult> = Vec::new();
        let mut i: usize = 0;
        while i < keys.len()
            invariant
                i <= keys@.len(),
                forall|j: int| 0 <= j < keys@.len() ==> (#[trigger] keys@[j]).1 < self@.entries.len(),
                results_match(self@.entries, keys@.take(i as int), out@),
            decreases keys.len() - i,
        {
            let (distance, slot) = keys[i];
            let e = &self.entries[slot];
            let item = SearchResult { id: e.id, distance, metadata: e.metadata.duplicate() };
            out.push(item);
            proof {
                assert(self@.entries[slot as int] == self.entries@[slot as int]@);
                assert(keys@.take(i + 1).drop_last() =~= keys@.take(i as int));
                assert forall|j: int| 0 <= j < out@.len() implies {
                    &&& keys@.take(i + 1)[j].1 < self@.entries.len()
                    &&& (#[trigger] out@[j]).id == self@.entries[keys@.take(i + 1)[j].1 as int].id
                    &&& out@[j].distance == keys@.take(i + 1)[j].0
                    &&& out@[j].metadata@ == self@.entries[keys@.take(i + 1)[j].1 as int].metadata
                } by {
                    if j < i {
                        assert(keys@.take(i + 1)[j] == keys@.take(i as int)[j]);
                    }
                }
            }
            i = i + 1;
        }
        proof {
            assert(keys@.take(i as int) =~= keys@);
        }
        out
    }

    /// Checks a query's dimension and gives the beam width for asking the
    /// graph index for `k` neighbours: the larger of `ef_search` and twice
    /// the number of results the query may return.
    pub fn beam_width(&self, query: &[u32], k: usize) -> (r: Result<usize, DbError>)
        ensures
            match r {
                Ok(w) => query@.len() == self@.dim && w == width_for(
                    self@,
                    self.spec_params().ef_search,
                    k,
                ),
                Err(x) => query@.len() != self@.dim && x == DbError::DimensionMismatch,
            },
    {
        if query.len() != self.dim {
            return Err(DbError::DimensionMismatch);
        }
        let live = self.count_live();
        let n = if k < live { k } else { live };
        let w = if n > usize::MAX / 2 { usize::MAX } else { 2 * n };
        Ok(if self.params.ef_search < w { w } else { self.params.ef_search })
    }

    /// Ranks the candidates that the graph index returned for `query`: the
    /// closest live ones by distance, ties by slot, at most `min(k, live)`.
    pub fn search(&self, query: &[u32], k: usize, found: &[Neighbor]) -> (r: Result<
        Vec<SearchResult>,
        DbError,
    >)
        ensures
            match r {
                Ok(v) => query@.len() == self@.dim && ranked(self@, k, found@, v@),
                Err(x) => query@.len() != self@.dim && x == DbError::DimensionMismatch,
            },
    {
        if query.len() != self.dim {
            return Err(DbError::DimensionMismatch);
        }
        let live = self.count_live();
        let n = if k < live { k } else { live };
        let keys = top_keys(&self.entries, found, n);
        proof {
            assert(live_mask(models(self.entries@)).len() == self.entries@.len());
            assert forall|i: int| 0 <= i < keys@.len() implies (#[trigger] keys@[i]).1
                < self@.entries.len() by {
                assert(crate::ranking::is_candidate(
                    live_mask(models(self.entries@)),
                    found@,
                    keys@[i],
                ));
            }
        }
        let v = self.results_for(&keys);
        Ok(v)
    }

    /// Answers each query on its own, as `search` does.
    pub fn search_batch(&self, queries: &[Vec<u32>], k: usize, found: &[Vec<Neighbor>]) -> (r:
        Result<Vec<Vec<SearchResult>>, DbError>)
        requires
            queries@.len() == found@.len(),
        ensures
            match r {
                Ok(v) => v@.len() == queries@.len() && (forall|i: int|
                    0 <= i < v@.len() ==> (#[trigger] queries@[i])@.len() == self@.dim) && forall|i: int|
                    0 <= i < v@.len() ==> ranked(
                        self@,
                        k,
                        found@[i]@,
                        (#[trigger] v@[i])@,
                    ),
                Err(x) => x == DbError::DimensionMismatch && exists|i: int|
                    0 <= i < queries@.len() && (#[trigger] queries@[i])@.len() != self@.dim,
            },
    {
        let mut out: Vec<Vec<SearchResult>> = Vec::new();
        let mut i: usize = 0;
        while i < queries.len()
            invariant
                queries@.len() == found@.len(),
                i <= queries@.len(),
                out@.len() == i,
                forall|j: int| 0 <= j < i ==> (#[trigger] queries@[j])@.len() == self@.dim,
                forall|j: int|
                    0 <= j < i ==> ranked(
                        self@,
                        k,
                        found@[j]@,
                        (#[trigger] out@[j])@,
                    ),
            decreases queries.len() - i,
        {
            let q = queries[i].as_slice();
            let f = found[i].as_slice();
            assert(q@ == queries@[i as int]@);
            assert(f@ == found@[i as int]@);
            match self.search(q, k, f) {
                Ok(v) => {
                    assert(ranked(self@, k, found@[i as int]@, v@));
                    let ghost before = out@;
                    let ghost vv = v@;
                    out.push(v);
                    proof {
                        assert forall|j: int| 0 <= j < i + 1 implies ranked(self@, k, found@[j]@, (#[trigger] out@[j])@) by {
                            if j < i {
                                assert(out@[j] == before[j]);
                            } else {
                                assert(out@[j]@ == vv);
                            }
                        }
                    }
                },
                Err(x) => {
                    return Err(x);
                },
            }
            i = i + 1;
        }
        Ok(out)
    }
}

} // verus!
