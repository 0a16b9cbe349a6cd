use vstd::prelude::*;
use crate::key_range::KeyRange;
use crate::level_handler::LevelHandler;
use crate::level_handler::TableStat;

verus! {

/// One table of a level, flattened to plain values for persistence.
#[derive(Debug, PartialEq, Eq)]
pub struct TableRecord {
    pub left: Vec<u8>,
    pub right: Vec<u8>,
    pub table_id: u64,
    pub compact_task: Option<u64>,
}

/// One pending compaction output entry, flattened.
#[derive(Debug, PartialEq, Eq)]
pub struct PendingRecord {
    pub left: Vec<u8>,
    pub right: Vec<u8>,
    pub task_id: u64,
}

/// A level's full durable state: the variant tag and both vectors, in
/// field order, ready for the metadata store's serializer.
#[derive(Debug, PartialEq, Eq)]
pub struct LevelSnapshot {
    pub overlapping: bool,
    pub tables: Vec<TableRecord>,
    pub pending_output_ranges: Vec<PendingRecord>,
}

/// The mathematical content of one resident table.
pub open spec fn table_model(ts: TableStat) -> (Seq<u8>, Seq<u8>, u64, Option<u64>) {
    (ts.key_range.left@, ts.key_range.right@, ts.table_id, ts.compact_task)
}

/// The mathematical content of one flattened table record.
pub open spec fn record_model(r: TableRecord) -> (Seq<u8>, Seq<u8>, u64, Option<u64>) {
    (r.left@, r.right@, r.table_id, r.compact_task)
}

/// The mathematical content of one pending output entry.
pub open spec fn pending_entry_model(e: (KeyRange, u64)) -> (Seq<u8>, Seq<u8>, u64) {
    (e.0.left@, e.0.right@, e.1)
}

/// The mathematical content of one flattened pending record.
pub open spec fn pending_record_model(r: PendingRecord) -> (Seq<u8>, Seq<u8>, u64) {
    (r.left@, r.right@, r.task_id)
}

/// A table sequence, as plain values.
pub open spec fn tables_model(s: Seq<TableStat>) -> Seq<(Seq<u8>, Seq<u8>, u64, Option<u64>)> {
    s.map_values(|ts: TableStat| table_model(ts))
}

/// A table-record sequence, as plain values.
pub open spec fn records_model(s: Seq<TableRecord>) -> Seq<(Seq<u8>, Seq<u8>, u64, Option<u64>)> {
    s.map_values(|r: TableRecord| record_model(r))
}

/// A pending-entry sequence, as plain values.
pub open spec fn pendings_model(s: Seq<(KeyRange, u64)>) -> Seq<(Seq<u8>, Seq<u8>, u64)> {
    s.map_values(|e: (KeyRange, u64)| pending_entry_model(e))
}

/// A pending-record sequence, as plain values.
pub open spec fn pending_records_model(s: Seq<PendingRecord>) -> Seq<(Seq<u8>, Seq<u8>, u64)> {
    s.map_values(|r: PendingRecord| pending_record_model(r))
}

/// Everything a level handler holds, as plain mathematical values:
/// variant tag, tables in order, pending output entries in order.
pub open spec fn handler_model(h: LevelHandler) -> (
    bool,
    Seq<(Seq<u8>, Seq<u8>, u64, Option<u64>)>,
    Seq<(Seq<u8>, Seq<u8>, u64)>,
) {
    (
        h.is_overlapping(),
        tables_model(h.tables()),
        pendings_model(h.pending()),
    )
}

/// Everything a snapshot holds, as the same plain mathematical values.
pub open spec fn snapshot_model(s: LevelSnapshot) -> (
    bool,
    Seq<(Seq<u8>, Seq<u8>, u64, Option<u64>)>,
    Seq<(Seq<u8>, Seq<u8>, u64)>,
) {
    (
        s.overlapping,
        records_model(s.tables@),
        pending_records_model(s.pending_output_ranges@),
    )
}

fn clone_key(k: &Vec<u8>) -> (r: Vec<u8>)
    ensures
        r@ == k@,
{
    let mut out: Vec<u8> = Vec::new();
    let mut i: usize = 0;
    while i < k.len()
        invariant
            0 <= i <= k@.len(),
            out@ == k@.subrange(0, i as int),
        decreases k@.len() - i,
    {
        out.push(k[i]);
        proof {
            assert(out@ =~= k@.subrange(0, i + 1));
        }
        i = i + 1;
    }
    proof {
        assert(out@ =~= k@);
    }
    out
}

proof fn lemma_record_step(pre: Seq<TableRecord>, rec: TableRecord, ts: Seq<TableStat>, i: int)
    requires
        0 <= i < ts.len(),
        records_model(pre) == tables_model(ts.subrange(0, i)),
        record_model(rec) == table_model(ts[i]),
    ensures
        records_model(pre.push(rec)) == tables_model(ts.subrange(0, i + 1)),
{
    assert(records_model(pre).len() == pre.len());
    assert(tables_model(ts.subrange(0, i)).len() == i);
    assert forall|k: int| 0 <= k < pre.len() + 1 implies records_model(pre.push(rec))[k]
        == tables_model(ts.subrange(0, i + 1))[k] by {
        if k < pre.len() {
            assert(records_model(pre)[k] == tables_model(ts.subrange(0, i))[k]);
            assert(pre.push(rec)[k] == pre[k]);
            assert(ts.subrange(0, i + 1)[k] == ts.subrange(0, i)[k]);
        } else {
            assert(pre.push(rec)[k] == rec);
            assert(ts.subrange(0, i + 1)[k] == ts[i]);
        }
    }
    assert(records_model(pre.push(rec)) =~= tables_model(ts.subrange(0, i + 1)));
}

proof fn lemma_table_step(pre: Seq<TableStat>, t: TableStat, rs: Seq<TableRecord>, i: int)
    requires
        0 <= i < rs.len(),
        tables_model(pre) == records_model(rs.subrange(0, i)),
        table_model(t) == record_model(rs[i]),
    ensures
        tables_model(pre.push(t)) == records_model(rs.subrange(0, i + 1)),
{
    assert(tables_model(pre).len() == pre.len());
    assert(records_model(rs.subrange(0, i)).len() == i);
    assert forall|k: int| 0 <= k < pre.len() + 1 implies tables_model(pre.push(t))[k]
        == records_model(rs.subrange(0, i + 1))[k] by {
        if k < pre.len() {
            assert(tables_model(pre)[k] == records_model(rs.subrange(0, i))[k]);
            assert(pre.push(t)[k] == pre[k]);
            assert(rs.subrange(0, i + 1)[k] == rs.subrange(0, i)[k]);
        } else {
            assert(pre.push(t)[k] == t);
            assert(rs.subrange(0, i + 1)[k] == rs[i]);
        }
    }
    assert(tables_model(pre.push(t)) =~= records_model(rs.subrange(0, i + 1)));
}

proof fn lemma_pending_record_step(
    pre: Seq<PendingRecord>,
    rec: PendingRecord,
    es: Seq<(KeyRange, u64)>,
    i: int,
)
    requires
        0 <= i < es.len(),
        pending_records_model(pre) == pendings_model(es.subrange(0, i)),
        pending_record_model(rec) == pending_entry_model(es[i]),
    ensures
        pending_records_model(pre.push(rec)) == pendings_model(es.subrange(0, i + 1)),
{
    assert(pending_records_model(pre).len() == pre.len());
    assert(pendings_model(es.subrange(0, i)).len() == i);
    assert forall|k: int| 0 <= k < pre.len() + 1 implies pending_records_model(pre.push(rec))[k]
        == pendings_model(es.subrange(0, i + 1))[k] by {
        if k < pre.len() {
            assert(pending_records_model(pre)[k] == pendings_model(es.subrange(0, i))[k]);
            assert(pre.push(rec)[k] == pre[k]);
            assert(es.subrange(0, i + 1)[k] == es.subrange(0, i)[k]);
        } else {
            assert(pre.push(rec)[k] == rec);
            assert(es.subrange(0, i + 1)[k] == es[i]);
        }
    }
    assert(pending_records_model(pre.push(rec)) =~= pendings_model(es.subrange(0, i + 1)));
}

proof fn lemma_pending_entry_step(
    pre: Seq<(KeyRange, u64)>,
    e: (KeyRange, u64),
    rs: Seq<PendingRecord>,
    i: int,
)
    requires
        0 <= i < rs.len(),
        pendings_model(pre) == pending_records_model(rs.subrange(0, i)),
        pending_entry_model(e) == pending_record_model(rs[i]),
    ensures
        pendings_model(pre.push(e)) == pending_records_model(rs.subrange(0, i + 1)),
{
    assert(pendings_model(pre).len() == pre.len());
    assert(pending_records_model(rs.subrange(0, i)).len() == i);
    assert forall|k: int| 0 <= k < pre.len() + 1 implies pendings_model(pre.push(e))[k]
        == pending_records_model(rs.subrange(0, i + 1))[k] by {
        if k < pre.len() {
            assert(pendings_model(pre)[k] == pending_records_model(rs.subrange(0, i))[k]);
            assert(pre.push(e)[k] == pre[k]);
            assert(rs.subrange(0, i + 1)[k] == rs.subrange(0, i)[k]);
        } else {
            assert(pre.push(e)[k] == e);
            assert(rs.subrange(0, i + 1)[k] == rs[i]);
        }
    }
    assert(pendings_model(pre.push(e)) =~= pending_records_model(rs.subrange(0, i + 1)));
}

/// Flattens a level's tables to their record form.
fn tables_to_records(tables: &Vec<TableStat>) -> (out: Vec<TableRecord>)
    ensures
        records_model(out@) == tables_model(tables@),
{
    let mut out: Vec<TableRecord> = Vec::new();
    let mut i: usize = 0;
    proof {
        assert(records_model(out@) =~= tables_model(tables@.subrange(0, 0)));
    }
    while i < tables.len()
        invariant
            0 <= i <= tables@.len(),
            records_model(out@) == tables_model(tables@.subrange(0, i as int)),
        decreases tables@.len() - i,
    {
        let ts = &tables[i];
        let rec = TableRecord {
            left: clone_key(&ts.key_range.left),
            right: clone_key(&ts.key_range.right),
            table_id: ts.table_id,
            compact_task: match ts.compact_task {
                Some(t) => Some(t),
                None => None,
            },
        };
        let ghost pre = out@;
        proof {
            assert(record_model(rec) == table_model(tables@[i as int]));
        }
        out.push(rec);
        proof {
            lemma_record_step(pre, rec, tables@, i as int);
        }
        i = i + 1;
    }
    proof {
        assert(tables@.subrange(0, tables@.len() as int) =~= tables@);
    }
    out
}

/// Flattens a level's pending output entries to their record form.
fn pending_to_records(pending: &Vec<(KeyRange, u64)>) -> (out: Vec<PendingRecord>)
    ensures
        pending_records_model(out@) == pendings_model(pending@),
{
    let mut out: Vec<PendingRecord> = Vec::new();
    let mut i: usize = 0;
    proof {
        assert(pending_records_model(out@) =~= pendings_model(pending@.subrange(0, 0)));
    }
    while i < pending.len()
        invariant
            0 <= i <= pending@.len(),
            pending_records_model(out@) == pendings_model(pending@.subrange(0, i as int)),
        decreases pending@.len() - i,
    {
        let e = &pending[i];
        let rec = PendingRecord {
            left: clone_key(&e.0.left),
            right: clone_key(&e.0.right),
            task_id: e.1,
        };
        let ghost pre = out@;
        proof {
            assert(pending_record_model(rec) == pending_entry_model(pending@[i as int]));
        }
        out.push(rec);
        proof {
            lemma_pending_record_step(pre, rec, pending@, i as int);
        }
        i = i + 1;
    }
    proof {
        assert(pending@.subrange(0, pending@.len() as int) =~= pending@);
    }
    out
}

/// Rebuilds a level's tables from their record form.
fn records_to_tables(records: &Vec<TableRecord>) -> (out: Vec<TableStat>)
    ensures
        tables_model(out@) == records_model(records@),
{
    let mut out: Vec<TableStat> = Vec::new();
    let mut i: usize = 0;
    proof {
        assert(tables_model(out@) =~= records_model(records@.subrange(0, 0)));
    }
    while i < records.len()
        invariant
            0 <= i <= records@.len(),
            tables_model(out@) == records_model(records@.subrange(0, i as int)),
        decreases records@.len() - i,
    {
        let rec = &records[i];
        let ts = TableStat {
            key_range: KeyRange { left: clone_key(&rec.left), right: clone_key(&rec.right) },
            table_id: rec.table_id,
            compact_task: match rec.compact_task {
                Some(t) => Some(t),
                None => None,
            },
        };
        let ghost pre = out@;
        proof {
            assert(table_model(ts) == record_model(records@[i as int]));
        }
        out.push(ts);
        proof {
            lemma_table_step(pre, ts, records@, i as int);
        }
        i = i + 1;
    }
    proof {
        assert(records@.subrange(0, records@.len() as int) =~= records@);
    }
    out
}

/// Rebuilds a level's pending output entries from their record form.
fn records_to_pending(records: &Vec<PendingRecord>) -> (out: Vec<(KeyRange, u64)>)
    ensures
        pendings_model(out@) == pending_records_model(records@),
{
    let mut out: Vec<(KeyRange, u64)> = Vec::new();
    let mut i: usize = 0;
    proof {
        assert(pendings_model(out@) =~= pending_records_model(records@.subrange(0, 0)));
    }
    while i < records.len()
        invariant
            0 <= i <= records@.len(),
            pendings_model(out@) == pending_records_model(records@.subrange(0, i as int)),
        decreases records@.len() - i,
    {
        let rec = &records[i];
        let e = (
            KeyRange { left: clone_key(&rec.left), right: clone_key(&rec.right) },
            rec.task_id,
        );
        let ghost pre = out@;
        proof {
            assert(pending_entry_model(e) == pending_record_model(records@[i as int]));
        }
        out.push(e);
        proof {
            lemma_pending_entry_step(pre, e, records@, i as int);
        }
        i = i + 1;
    }
    proof {
        assert(records@.subrange(0, records@.len() as int) =~= records@);
    }
    out
}

/// Flattens a handler's full state into its durable snapshot form,
/// losing nothing.
pub fn to_snapshot(h: &LevelHandler) -> (s: LevelSnapshot)
    ensures
        snapshot_model(s) == handler_model(*h),
{
    match h {
        LevelHandler::Nonoverlapping(tables, pending) => LevelSnapshot {
            overlapping: false,
            tables: tables_to_records(tables),
            pending_output_ranges: pending_to_records(pending),
        },
        LevelHandler::Overlapping(tables, pending) => LevelSnapshot {
            overlapping: true,
            tables: tables_to_records(tables),
            pending_output_ranges: pending_to_records(pending),
        },
    }
}

/// Rebuilds a handler from its durable snapshot form, losing nothing.
pub fn from_snapshot(s: &LevelSnapshot) -> (h: LevelHandler)
    ensures
        handler_model(h) == snapshot_model(*s),
{
    let tables = records_to_tables(&s.tables);
    let pending = records_to_pending(&s.pending_output_ranges);
    if s.overlapping {
        LevelHandler::Overlapping(tables, pending)
    } else {
        LevelHandler::Nonoverlapping(tables, pending)
    }
}

/// Two handlers with the same mathematical content agree on the
/// variant, on every table's id, key range and claim, and on every
/// pending output entry, in order.
pub proof fn lemma_equal_models_agree(a: LevelHandler, b: LevelHandler)
    requires
        handler_model(a) == handler_model(b),
    ensures
        a.is_overlapping() == b.is_overlapping(),
        a.tables().len() == b.tables().len(),
        forall|i: int|
            0 <= i < a.tables().len()
                ==> table_model(#[trigger] a.tables()[i]) == table_model(b.tables()[i]),
        a.pending().len() == b.pending().len(),
        forall|i: int|
            0 <= i < a.pending().len()
                ==> pending_entry_model(#[trigger] a.pending()[i]) == pending_entry_model(
                b.pending()[i],
            ),
{
    assert(tables_model(a.tables()) == tables_model(b.tables()));
    assert(pendings_model(a.pending()) == pendings_model(b.pending()));
    assert(tables_model(a.tables()).len() == a.tables().len());
    assert(tables_model(b.tables()).len() == b.tables().len());
    assert(pendings_model(a.pending()).len() == a.pending().len());
    assert(pendings_model(b.pending()).len() == b.pending().len());
    assert forall|i: int| 0 <= i < a.tables().len() implies table_model(
        #[trigger] a.tables()[i],
    ) == table_model(b.tables()[i]) by {
        assert(tables_model(a.tables())[i] == table_model(a.tables()[i]));
        assert(tables_model(b.tables())[i] == table_model(b.tables()[i]));
    }
    assert forall|i: int| 0 <= i < a.pending().len() implies pending_entry_model(
        #[trigger] a.pending()[i],
    ) == pending_entry_model(b.pending()[i]) by {
        assert(pendings_model(a.pending())[i] == pending_entry_model(a.pending()[i]));
        assert(pendings_model(b.pending())[i] == pending_entry_model(b.pending()[i]));
    }
}

/// Round trip: a handler flattened to its snapshot and rebuilt from it
/// keeps its whole state — the variant tag, every table and every
/// pending output entry, in order. `h` is the original handler, `s` its
/// snapshot as `to_snapshot` describes it, and `g` the handler that
/// `from_snapshot` rebuilds from `s`.
pub proof fn lemma_snapshot_round_trip(h: LevelHandler, s: LevelSnapshot, g: LevelHandler)
    requires
        snapshot_model(s) == handler_model(h),
        handler_model(g) == snapshot_model(s),
    ensures
        handler_model(g) == handler_model(h),
        g.is_overlapping() == h.is_overlapping(),
        g.tables().len() == h.tables().len(),
        forall|i: int|
            0 <= i < g.tables().len()
                ==> table_model(#[trigger] g.tables()[i]) == table_model(h.tables()[i]),
        g.pending().len() == h.pending().len(),
        forall|i: int|
            0 <= i < g.pending().len()
                ==> pending_entry_model(#[trigger] g.pending()[i]) == pending_entry_model(
                h.pending()[i],
            ),
{
    lemma_equal_models_agree(g, h);
}

} // verus!
