use vstd::prelude::*;
use crate::key_range::KeyRange;
use crate::key_range::spec_overlap;

verus! {

/// Metadata for one SST resident at a level: its key span, its stable
/// identity, and the compaction task (if any) holding an exclusive claim
/// on it.
#[derive(Clone, Debug, PartialEq, Eq)]
pub struct TableStat {
    pub key_range: KeyRange,
    pub table_id: u64,
    pub compact_task: Option<u64>,
}

/// State machine for one level of the LSM tree.
///
/// Both variants carry the same payload: the tables resident at the
/// level, and the `(output key range, task id)` pairs of compaction
/// tasks whose output will land in this level. `Nonoverlapping` levels
/// keep their tables pairwise disjoint by key range (leveled
/// compaction); `Overlapping` levels may not (tiering). The lifecycle
/// operations below are identical for the two variants; the difference
/// only steers the scheduler's candidate selection.
#[derive(Clone, Debug, PartialEq, Eq)]
pub enum LevelHandler {
    Nonoverlapping(Vec<TableStat>, Vec<(KeyRange, u64)>),
    Overlapping(Vec<TableStat>, Vec<(KeyRange, u64)>),
}

/// Is this table claimed by task `t`?
pub open spec fn claimed_by(ts: TableStat, t: u64) -> bool {
    ts.compact_task == Some(t)
}

/// `ts` with any claim held by task `t` released; other tables are left
/// as they are.
pub open spec fn released(ts: TableStat, t: u64) -> TableStat {
    if claimed_by(ts, t) {
        TableStat { key_range: ts.key_range, table_id: ts.table_id, compact_task: None }
    } else {
        ts
    }
}

/// Every table of `s`, with claims held by task `t` released.
pub open spec fn released_tables(s: Seq<TableStat>, t: u64) -> Seq<TableStat> {
    s.map_values(|ts: TableStat| released(ts, t))
}

/// The tables of `s` that are not claimed by task `t`, in order.
pub open spec fn retained_tables(s: Seq<TableStat>, t: u64) -> Seq<TableStat>
    decreases s.len(),
{
    if s.len() == 0 {
        s
    } else {
        let rest = retained_tables(s.drop_last(), t);
        if claimed_by(s.last(), t) {
            rest
        } else {
            rest.push(s.last())
        }
    }
}

/// The ids of the tables of `s` that are claimed by task `t`, in order.
pub open spec fn popped_ids(s: Seq<TableStat>, t: u64) -> Seq<u64>
    decreases s.len(),
{
    if s.len() == 0 {
        Seq::<u64>::empty()
    } else {
        let rest = popped_ids(s.drop_last(), t);
        if claimed_by(s.last(), t) {
            rest.push(s.last().table_id)
        } else {
            rest
        }
    }
}

/// The pending output entries of `p` that are not owned by task `t`, in
/// order.
pub open spec fn remaining_pending(p: Seq<(KeyRange, u64)>, t: u64) -> Seq<(KeyRange, u64)>
    decreases p.len(),
{
    if p.len() == 0 {
        p
    } else {
        let rest = remaining_pending(p.drop_last(), t);
        if p.last().1 == t {
            rest
        } else {
            rest.push(p.last())
        }
    }
}

/// Some table of `s` carries id `id` and a claim by task `t`.
pub open spec fn id_was_claimed(s: Seq<TableStat>, t: u64, id: u64) -> bool {
    exists|i: int| 0 <= i < s.len() && claimed_by(#[trigger] s[i], t) && s[i].table_id == id
}

/// The ids of the tables of `s` that carry no claim, in order.
pub open spec fn unclaimed_ids(s: Seq<TableStat>) -> Seq<u64>
    decreases s.len(),
{
    if s.len() == 0 {
        Seq::<u64>::empty()
    } else {
        let rest = unclaimed_ids(s.drop_last());
        if s.last().compact_task is None {
            rest.push(s.last().table_id)
        } else {
            rest
        }
    }
}

/// No two tables of `s` share a `table_id`.
pub open spec fn unique_table_ids(s: Seq<TableStat>) -> bool {
    forall|i: int, j: int|
        0 <= i < j < s.len() ==> s[i].table_id != s[j].table_id
}

/// No two pending output entries of `p` are owned by the same task.
pub open spec fn unique_pending_tasks(p: Seq<(KeyRange, u64)>) -> bool {
    forall|i: int, j: int|
        0 <= i < j < p.len() ==> p[i].1 != p[j].1
}

impl LevelHandler {
    /// The tables currently resident at this level.
    pub open spec fn tables(self) -> Seq<TableStat> {
        match self {
            LevelHandler::Nonoverlapping(tables, _) => tables@,
            LevelHandler::Overlapping(tables, _) => tables@,
        }
    }

    /// The pending compaction output entries recorded at this level.
    pub open spec fn pending(self) -> Seq<(KeyRange, u64)> {
        match self {
            LevelHandler::Nonoverlapping(_, pending) => pending@,
            LevelHandler::Overlapping(_, pending) => pending@,
        }
    }

    /// Does this level use tiering semantics (tables may overlap)?
    pub open spec fn is_overlapping(self) -> bool {
        match self {
            LevelHandler::Nonoverlapping(_, _) => false,
            LevelHandler::Overlapping(_, _) => true,
        }
    }

    /// The ids of the tables currently free to be selected for a new
    /// compaction task (no claim on them), in residence order.
    pub fn unclaimed_table_ids(&self) -> (ids: Vec<u64>)
        ensures
            ids@ == unclaimed_ids(self.tables()),
    {
        let tables = match self {
            LevelHandler::Nonoverlapping(tables, _) => tables,
            LevelHandler::Overlapping(tables, _) => tables,
        };
        let mut ids: Vec<u64> = Vec::new();
        let mut i: usize = 0;
        proof {
            assert(tables@.subrange(0, 0) =~= Seq::<TableStat>::empty());
        }
        while i < tables.len()
            invariant
                0 <= i <= tables@.len(),
                ids@ == unclaimed_ids(tables@.subrange(0, i as int)),
            decreases tables@.len() - i,
        {
            proof {
                assert(tables@.subrange(0, i + 1).drop_last() =~= tables@.subrange(0, i as int));
                assert(tables@.subrange(0, i + 1).last() == tables@[i as int]);
            }
            let free = match tables[i].compact_task {
                Some(_) => false,
                None => true,
            };
            if free {
                let id = tables[i].table_id;
                ids.push(id);
            }
            i = i + 1;
        }
        proof {
            assert(tables@.subrange(0, tables@.len() as int) =~= tables@);
        }
        ids
    }

    /// Would `candidate` intersect the output range of any compaction
    /// task already writing into this level? Used by the scheduler for
    /// conflict detection before assigning a new task.
    pub fn has_pending_conflict(&self, candidate: &KeyRange) -> (r: bool)
        ensures
            r == exists|i: int|
                0 <= i < self.pending().len() && spec_overlap(
                    (#[trigger] self.pending()[i]).0,
                    *candidate,
                ),
    {
        let pending = match self {
            LevelHandler::Nonoverlapping(_, pending) => pending,
            LevelHandler::Overlapping(_, pending) => pending,
        };
        let mut i: usize = 0;
        while i < pending.len()
            invariant
                0 <= i <= pending@.len(),
                pending@ == self.pending(),
                forall|j: int| 0 <= j < i ==> !spec_overlap((#[trigger] pending@[j]).0, *candidate),
            decreases pending@.len() - i,
        {
            if pending[i].0.overlaps(candidate) {
                return true;
            }
            i = i + 1;
        }
        false
    }

    /// Removes every pending output entry owned by `clear_task_id`; a
    /// no-op when none exists. Never touches the tables. Invoked only as
    /// the first step of the two lifecycle operations below.
    fn clear_compacting_range(&mut self, clear_task_id: u64)
        ensures
            final(self).is_overlapping() == old(self).is_overlapping(),
            final(self).tables() == old(self).tables(),
            final(self).pending() == remaining_pending(old(self).pending(), clear_task_id),
    {
        match self {
            LevelHandler::Overlapping(_, compacting_key_ranges) => {
                remove_task_entries(compacting_key_ranges, clear_task_id);
            }
            LevelHandler::Nonoverlapping(_, compacting_key_ranges) => {
                remove_task_entries(compacting_key_ranges, clear_task_id);
            }
        }
    }

    /// Abort/release path: drops any pending output range owned by
    /// `unassign_task_id` and releases every table claim it holds. The
    /// tables themselves stay resident and immediately become selectable
    /// again. Legal (and a no-op) when the task never claimed anything
    /// here.
    pub fn unassign_task(&mut self, unassign_task_id: u64)
        ensures
            final(self).is_overlapping() == old(self).is_overlapping(),
            final(self).tables() == released_tables(old(self).tables(), unassign_task_id),
            final(self).pending() == remaining_pending(old(self).pending(), unassign_task_id),
    {
        self.clear_compacting_range(unassign_task_id);

        match self {
            LevelHandler::Overlapping(l_n, _) => {
                release_tables(l_n, unassign_task_id);
            }
            LevelHandler::Nonoverlapping(l_n, _) => {
                release_tables(l_n, unassign_task_id);
            }
        }
    }

    /// Commit path: drops any pending output range owned by
    /// `finished_task_id`, removes every table it had claimed, and
    /// returns the removed tables' ids in order — the SSTs consumed as
    /// the finished task's input. Returns an empty vector when the task
    /// claimed nothing at this level.
    pub fn pop_task_input(&mut self, finished_task_id: u64) -> (deleted_table_ids: Vec<u64>)
        ensures
            final(self).is_overlapping() == old(self).is_overlapping(),
            final(self).tables() == retained_tables(old(self).tables(), finished_task_id),
            final(self).pending() == remaining_pending(old(self).pending(), finished_task_id),
            deleted_table_ids@ == popped_ids(old(self).tables(), finished_task_id),
    {
        self.clear_compacting_range(finished_task_id);

        match self {
            LevelHandler::Overlapping(l_n, _) => pop_tables(l_n, finished_task_id),
            LevelHandler::Nonoverlapping(l_n, _) => pop_tables(l_n, finished_task_id),
        }
    }
}

/// Releasing a task that holds no claim and owns no pending entry at a
/// level is a no-op: `unassign_task` leaves both the tables and the
/// pending output entries exactly as they were.
pub proof fn lemma_unassign_noop(s: Seq<TableStat>, p: Seq<(KeyRange, u64)>, t: u64)
    requires
        forall|i: int| 0 <= i < s.len() ==> !claimed_by(#[trigger] s[i], t),
        forall|i: int| 0 <= i < p.len() ==> (#[trigger] p[i]).1 != t,
    ensures
        released_tables(s, t) == s,
        remaining_pending(p, t) == p,
{
    assert(released_tables(s, t) =~= s);
    lemma_remaining_pending_noop(p, t);
}

/// After `pop_task_input(t)`, no remaining table carries a claim by `t`
/// and no pending output entry is owned by `t`.
pub proof fn lemma_pop_clears_task(s: Seq<TableStat>, p: Seq<(KeyRange, u64)>, t: u64)
    ensures
        forall|i: int|
            0 <= i < retained_tables(s, t).len()
                ==> (#[trigger] retained_tables(s, t)[i]).compact_task != Some(t),
        forall|i: int|
            0 <= i < remaining_pending(p, t).len()
                ==> (#[trigger] remaining_pending(p, t)[i]).1 != t,
{
    lemma_retained_unclaimed(s, t);
    lemma_remaining_pending_clears(p, t);
}

/// After `unassign_task(t)`, no table carries a claim by `t` and no
/// pending output entry is owned by `t`, but every table is still
/// resident: the count is unchanged, and each table keeps its id and
/// key range.
pub proof fn lemma_unassign_clears_task(s: Seq<TableStat>, p: Seq<(KeyRange, u64)>, t: u64)
    ensures
        released_tables(s, t).len() == s.len(),
        forall|i: int|
            0 <= i < s.len() ==> (#[trigger] released_tables(s, t)[i]).compact_task != Some(t),
        forall|i: int|
            0 <= i < s.len() ==> (#[trigger] released_tables(s, t)[i]).table_id == s[i].table_id
                && released_tables(s, t)[i].key_range == s[i].key_range,
        forall|i: int|
            0 <= i < remaining_pending(p, t).len()
                ==> (#[trigger] remaining_pending(p, t)[i]).1 != t,
{
    lemma_remaining_pending_clears(p, t);
}

/// `pop_task_input(t)` returns exactly the ids of the tables that `t`
/// had claimed immediately before the call: every returned id belonged
/// to a table claimed by `t`, the id of every such table is returned,
/// and — as long as table ids are unique at the level — no id is
/// returned twice.
pub proof fn lemma_pop_returns_exactly_claimed(s: Seq<TableStat>, t: u64)
    requires
        unique_table_ids(s),
    ensures
        forall|k: int|
            0 <= k < popped_ids(s, t).len()
                ==> id_was_claimed(s, t, #[trigger] popped_ids(s, t)[k]),
        forall|i: int|
            0 <= i < s.len() && claimed_by(#[trigger] s[i], t)
                ==> popped_ids(s, t).contains(s[i].table_id),
        forall|j: int, k: int|
            0 <= j < k < popped_ids(s, t).len()
                ==> #[trigger] popped_ids(s, t)[j] != #[trigger] popped_ids(s, t)[k],
{
    lemma_popped_sound(s, t);
    lemma_popped_complete(s, t);
    lemma_popped_nodup(s, t);
}

/// Retiring the same task twice is harmless: the second
/// `pop_task_input(t)` returns nothing and leaves both the tables and
/// the pending output entries as the first call left them.
pub proof fn lemma_pop_idempotent(s: Seq<TableStat>, p: Seq<(KeyRange, u64)>, t: u64)
    ensures
        retained_tables(retained_tables(s, t), t) == retained_tables(s, t),
        popped_ids(retained_tables(s, t), t) == Seq::<u64>::empty(),
        remaining_pending(remaining_pending(p, t), t) == remaining_pending(p, t),
{
    lemma_retained_unclaimed(s, t);
    lemma_retained_noop(retained_tables(s, t), t);
    lemma_remaining_pending_clears(p, t);
    lemma_remaining_pending_noop(remaining_pending(p, t), t);
}

/// The level's well-formedness — unique table ids, and at most one
/// pending output entry per task — is preserved by both lifecycle
/// operations, whichever task they act on.
pub proof fn lemma_ops_preserve_wf(s: Seq<TableStat>, p: Seq<(KeyRange, u64)>, t: u64)
    requires
        unique_table_ids(s),
        unique_pending_tasks(p),
    ensures
        unique_table_ids(released_tables(s, t)),
        unique_table_ids(retained_tables(s, t)),
        unique_pending_tasks(remaining_pending(p, t)),
{
    assert forall|i: int, j: int|
        0 <= i < j < released_tables(s, t).len() implies (#[trigger] released_tables(s, t)[i])
        .table_id != (#[trigger] released_tables(s, t)[j]).table_id by {
        assert(released_tables(s, t)[i] == released(s[i], t));
        assert(released_tables(s, t)[j] == released(s[j], t));
    }
    lemma_retained_unique(s, t);
    lemma_remaining_pending_unique(p, t);
}

/// A table released by `unassign_task(t)` immediately becomes
/// selectable again: after the release, its id is among the level's
/// unclaimed ids.
pub proof fn lemma_released_selectable(s: Seq<TableStat>, t: u64)
    ensures
        forall|i: int|
            0 <= i < s.len() && claimed_by(#[trigger] s[i], t) ==> unclaimed_ids(
                released_tables(s, t),
            ).contains(s[i].table_id),
    decreases s.len(),
{
    if s.len() > 0 {
        let rs = released_tables(s, t);
        assert(rs.drop_last() =~= released_tables(s.drop_last(), t));
        lemma_released_selectable(s.drop_last(), t);
        assert forall|i: int| 0 <= i < s.len() && claimed_by(#[trigger] s[i], t)
            implies unclaimed_ids(rs).contains(s[i].table_id) by {
            if i == s.len() - 1 {
                assert(rs.last() == released(s[i], t));
                assert(rs.last().compact_task is None);
                assert(unclaimed_ids(rs)[unclaimed_ids(rs).len() - 1] == s[i].table_id);
            } else {
                assert(claimed_by(s.drop_last()[i], t));
                assert(unclaimed_ids(released_tables(s.drop_last(), t)).contains(s[i].table_id));
                let k = choose|k: int|
                    0 <= k < unclaimed_ids(rs.drop_last()).len() && unclaimed_ids(
                        rs.drop_last(),
                    )[k] == s[i].table_id;
                assert(unclaimed_ids(rs)[k] == s[i].table_id);
            }
        }
    }
}

proof fn lemma_retained_from(s: Seq<TableStat>, t: u64)
    ensures
        forall|k: int|
            0 <= k < retained_tables(s, t).len() ==> s.contains(
                #[trigger] retained_tables(s, t)[k],
            ),
    decreases s.len(),
{
    if s.len() > 0 {
        lemma_retained_from(s.drop_last(), t);
        let rest = retained_tables(s.drop_last(), t);
        assert forall|k: int| 0 <= k < retained_tables(s, t).len() implies s.contains(
            #[trigger] retained_tables(s, t)[k],
        ) by {
            if k < rest.len() {
                assert(retained_tables(s, t)[k] == rest[k]);
                assert(s.drop_last().contains(rest[k]));
                let i = choose|i: int| 0 <= i < s.drop_last().len() && s.drop_last()[i] == rest[k];
                assert(s[i] == retained_tables(s, t)[k]);
            } else {
                assert(retained_tables(s, t)[k] == s.last());
                assert(s[s.len() - 1] == retained_tables(s, t)[k]);
            }
        }
    }
}

proof fn lemma_retained_unique(s: Seq<TableStat>, t: u64)
    requires
        unique_table_ids(s),
    ensures
        unique_table_ids(retained_tables(s, t)),
    decreases s.len(),
{
    if s.len() > 0 {
        assert(unique_table_ids(s.drop_last()));
        lemma_retained_unique(s.drop_last(), t);
        let rest = retained_tables(s.drop_last(), t);
        if !claimed_by(s.last(), t) {
            lemma_retained_from(s.drop_last(), t);
            assert forall|j: int, k: int|
                0 <= j < k < retained_tables(s, t).len() implies (#[trigger] retained_tables(
                s,
                t,
            )[j]).table_id != (#[trigger] retained_tables(s, t)[k]).table_id by {
                if k < rest.len() {
                    assert(retained_tables(s, t)[j] == rest[j]);
                    assert(retained_tables(s, t)[k] == rest[k]);
                } else {
                    assert(retained_tables(s, t)[j] == rest[j]);
                    assert(retained_tables(s, t)[k] == s.last());
                    assert(s.drop_last().contains(rest[j]));
                    let i = choose|i: int|
                        0 <= i < s.drop_last().len() && s.drop_last()[i] == rest[j];
                    assert(s[i].table_id != s[s.len() - 1].table_id);
                }
            }
        }
    }
}

proof fn lemma_remaining_pending_from(p: Seq<(KeyRange, u64)>, t: u64)
    ensures
        forall|k: int|
            0 <= k < remaining_pending(p, t).len() ==> p.contains(
                #[trigger] remaining_pending(p, t)[k],
            ),
    decreases p.len(),
{
    if p.len() > 0 {
        lemma_remaining_pending_from(p.drop_last(), t);
        let rest = remaining_pending(p.drop_last(), t);
        assert forall|k: int| 0 <= k < remaining_pending(p, t).len() implies p.contains(
            #[trigger] remaining_pending(p, t)[k],
        ) by {
            if k < rest.len() {
                assert(remaining_pending(p, t)[k] == rest[k]);
                assert(p.drop_last().contains(rest[k]));
                let i = choose|i: int| 0 <= i < p.drop_last().len() && p.drop_last()[i] == rest[k];
                assert(p[i] == remaining_pending(p, t)[k]);
            } else {
                assert(remaining_pending(p, t)[k] == p.last());
                assert(p[p.len() - 1] == remaining_pending(p, t)[k]);
            }
        }
    }
}

proof fn lemma_remaining_pending_unique(p: Seq<(KeyRange, u64)>, t: u64)
    requires
        unique_pending_tasks(p),
    ensures
        unique_pending_tasks(remaining_pending(p, t)),
    decreases p.len(),
{
    if p.len() > 0 {
        assert(unique_pending_tasks(p.drop_last()));
        lemma_remaining_pending_unique(p.drop_last(), t);
        let rest = remaining_pending(p.drop_last(), t);
        if p.last().1 != t {
            lemma_remaining_pending_from(p.drop_last(), t);
            assert forall|j: int, k: int|
                0 <= j < k < remaining_pending(p, t).len() implies (#[trigger] remaining_pending(
                p,
                t,
            )[j]).1 != (#[trigger] remaining_pending(p, t)[k]).1 by {
                if k < rest.len() {
                    assert(remaining_pending(p, t)[j] == rest[j]);
                    assert(remaining_pending(p, t)[k] == rest[k]);
                } else {
                    assert(remaining_pending(p, t)[j] == rest[j]);
                    assert(remaining_pending(p, t)[k] == p.last());
                    assert(p.drop_last().contains(rest[j]));
                    let i = choose|i: int|
                        0 <= i < p.drop_last().len() && p.drop_last()[i] == rest[j];
                    assert(p[i].1 != p[p.len() - 1].1);
                }
            }
        }
    }
}

proof fn lemma_remaining_pending_noop(p: Seq<(KeyRange, u64)>, t: u64)
    requires
        forall|i: int| 0 <= i < p.len() ==> (#[trigger] p[i]).1 != t,
    ensures
        remaining_pending(p, t) == p,
    decreases p.len(),
{
    if p.len() > 0 {
        lemma_remaining_pending_noop(p.drop_last(), t);
        assert(remaining_pending(p, t) =~= p);
    }
}

proof fn lemma_remaining_pending_clears(p: Seq<(KeyRange, u64)>, t: u64)
    ensures
        forall|i: int|
            0 <= i < remaining_pending(p, t).len()
                ==> (#[trigger] remaining_pending(p, t)[i]).1 != t,
    decreases p.len(),
{
    if p.len() > 0 {
        lemma_remaining_pending_clears(p.drop_last(), t);
        let rest = remaining_pending(p.drop_last(), t);
        assert forall|i: int| 0 <= i < remaining_pending(p, t).len()
            implies (#[trigger] remaining_pending(p, t)[i]).1 != t by {
            if i < rest.len() {
                assert(remaining_pending(p, t)[i] == rest[i]);
            } else {
                assert(remaining_pending(p, t)[i] == p.last());
            }
        }
    }
}

proof fn lemma_retained_unclaimed(s: Seq<TableStat>, t: u64)
    ensures
        forall|i: int|
            0 <= i < retained_tables(s, t).len()
                ==> !claimed_by(#[trigger] retained_tables(s, t)[i], t),
    decreases s.len(),
{
    if s.len() > 0 {
        lemma_retained_unclaimed(s.drop_last(), t);
        let rest = retained_tables(s.drop_last(), t);
        assert forall|i: int| 0 <= i < retained_tables(s, t).len()
            implies !claimed_by(#[trigger] retained_tables(s, t)[i], t) by {
            if i < rest.len() {
                assert(retained_tables(s, t)[i] == rest[i]);
            } else {
                assert(retained_tables(s, t)[i] == s.last());
            }
        }
    }
}

proof fn lemma_retained_noop(s: Seq<TableStat>, t: u64)
    requires
        forall|i: int| 0 <= i < s.len() ==> !claimed_by(#[trigger] s[i], t),
    ensures
        retained_tables(s, t) == s,
        popped_ids(s, t) == Seq::<u64>::empty(),
    decreases s.len(),
{
    if s.len() > 0 {
        lemma_retained_noop(s.drop_last(), t);
        assert(retained_tables(s, t) =~= s);
    }
}

proof fn lemma_popped_sound(s: Seq<TableStat>, t: u64)
    ensures
        forall|k: int|
            0 <= k < popped_ids(s, t).len()
                ==> id_was_claimed(s, t, #[trigger] popped_ids(s, t)[k]),
    decreases s.len(),
{
    if s.len() > 0 {
        lemma_popped_sound(s.drop_last(), t);
        let rest = popped_ids(s.drop_last(), t);
        assert forall|k: int| 0 <= k < popped_ids(s, t).len()
            implies id_was_claimed(s, t, #[trigger] popped_ids(s, t)[k]) by {
            if k < rest.len() {
                assert(popped_ids(s, t)[k] == popped_ids(s.drop_last(), t)[k]);
                assert(id_was_claimed(s.drop_last(), t, popped_ids(s.drop_last(), t)[k]));
                let i = choose|i: int|
                    0 <= i < s.drop_last().len() && claimed_by(#[trigger] s.drop_last()[i], t)
                        && s.drop_last()[i].table_id == popped_ids(s.drop_last(), t)[k];
                assert(s.drop_last()[i] == s[i]);
                assert(claimed_by(s[i], t) && s[i].table_id == popped_ids(s, t)[k]);
            } else {
                assert(claimed_by(s.last(), t));
                let i = s.len() - 1;
                assert(s[i] == s.last());
                assert(popped_ids(s, t)[k] == s.last().table_id);
                assert(claimed_by(s[i], t) && s[i].table_id == popped_ids(s, t)[k]);
            }
        }
    }
}

proof fn lemma_popped_complete(s: Seq<TableStat>, t: u64)
    ensures
        forall|i: int|
            0 <= i < s.len() && claimed_by(#[trigger] s[i], t)
                ==> popped_ids(s, t).contains(s[i].table_id),
    decreases s.len(),
{
    if s.len() > 0 {
        lemma_popped_complete(s.drop_last(), t);
        let rest = popped_ids(s.drop_last(), t);
        assert forall|i: int| 0 <= i < s.len() && claimed_by(#[trigger] s[i], t)
            implies popped_ids(s, t).contains(s[i].table_id) by {
            if i == s.len() - 1 {
                assert(popped_ids(s, t)[popped_ids(s, t).len() - 1] == s[i].table_id);
            } else {
                assert(s.drop_last()[i] == s[i]);
                assert(claimed_by(s.drop_last()[i], t));
                assert(rest.contains(s[i].table_id));
                let k = choose|k: int| 0 <= k < rest.len() && rest[k] == s[i].table_id;
                assert(popped_ids(s, t)[k] == s[i].table_id);
            }
        }
    }
}

proof fn lemma_popped_nodup(s: Seq<TableStat>, t: u64)
    requires
        unique_table_ids(s),
    ensures
        forall|j: int, k: int|
            0 <= j < k < popped_ids(s, t).len()
                ==> #[trigger] popped_ids(s, t)[j] != #[trigger] popped_ids(s, t)[k],
    decreases s.len(),
{
    if s.len() > 0 {
        assert(unique_table_ids(s.drop_last()));
        lemma_popped_nodup(s.drop_last(), t);
        let rest = popped_ids(s.drop_last(), t);
        if claimed_by(s.last(), t) {
            lemma_popped_sound(s.drop_last(), t);
            assert forall|k: int| 0 <= k < rest.len()
                implies rest[k] != s.last().table_id by {
                assert(id_was_claimed(s.drop_last(), t, rest[k]));
                let i = choose|i: int|
                    0 <= i < s.drop_last().len() && claimed_by(#[trigger] s.drop_last()[i], t)
                        && s.drop_last()[i].table_id == rest[k];
                assert(s[i].table_id != s[s.len() - 1].table_id);
            }
        }
    }
}

/// Does `ts` carry a claim by task `t`?
fn is_claimed_by(ts: &TableStat, t: u64) -> (r: bool)
    ensures
        r == claimed_by(*ts, t),
{
    match ts.compact_task {
        Some(owner) => owner == t,
        None => false,
    }
}

/// In-place removal of every pending entry owned by `clear_task_id`.
fn remove_task_entries(ranges: &mut Vec<(KeyRange, u64)>, clear_task_id: u64)
    ensures
        final(ranges)@ == remaining_pending(old(ranges)@, clear_task_id),
{
    let ghost orig = ranges@;
    let mut kept: Vec<(KeyRange, u64)> = Vec::new();
    proof {
        assert(orig.subrange(0, 0) =~= Seq::<(KeyRange, u64)>::empty());
        assert(orig.subrange(0, orig.len() as int) =~= orig);
    }
    while ranges.len() > 0
        invariant
            ranges@.len() <= orig.len(),
            ranges@ == orig.subrange(orig.len() - ranges@.len(), orig.len() as int),
            kept@ == remaining_pending(orig.subrange(0, orig.len() - ranges@.len()), clear_task_id),
        decreases ranges@.len(),
    {
        let ghost done = orig.len() - ranges@.len();
        let entry = ranges.remove(0);
        proof {
            assert(entry == orig[done]);
            assert(ranges@ =~= orig.subrange(done + 1, orig.len() as int));
            assert(orig.subrange(0, done + 1).drop_last() =~= orig.subrange(0, done));
            assert(orig.subrange(0, done + 1).last() == orig[done]);
        }
        if entry.1 != clear_task_id {
            kept.push(entry);
        }
    }
    *ranges = kept;
}

/// In-place release of every claim held by task `t` over `tables`.
fn release_tables(tables: &mut Vec<TableStat>, t: u64)
    ensures
        final(tables)@ == released_tables(old(tables)@, t),
{
    let ghost orig = tables@;
    let n = tables.len();
    let mut i: usize = 0;
    while i < n
        invariant
            0 <= i <= n,
            n == orig.len(),
            tables@.len() == n,
            forall|j: int| 0 <= j < i ==> tables@[j] == released(orig[j], t),
            forall|j: int| i <= j < n ==> tables@[j] == orig[j],
        decreases n - i,
    {
        if is_claimed_by(&tables[i], t) {
            let entry = &mut tables[i];
            entry.compact_task = None;
        }
        i = i + 1;
    }
    proof {
        assert(tables@ =~= released_tables(orig, t));
    }
}

/// In-place removal of every table claimed by task `t`; returns the
/// removed ids in order.
fn pop_tables(tables: &mut Vec<TableStat>, t: u64) -> (deleted: Vec<u64>)
    ensures
        final(tables)@ == retained_tables(old(tables)@, t),
        deleted@ == popped_ids(old(tables)@, t),
{
    let ghost orig = tables@;
    let mut kept: Vec<TableStat> = Vec::new();
    let mut deleted: Vec<u64> = Vec::new();
    proof {
        assert(orig.subrange(0, 0) =~= Seq::<TableStat>::empty());
        assert(orig.subrange(0, orig.len() as int) =~= orig);
    }
    while tables.len() > 0
        invariant
            tables@.len() <= orig.len(),
            tables@ == orig.subrange(orig.len() - tables@.len(), orig.len() as int),
            kept@ == retained_tables(orig.subrange(0, orig.len() - tables@.len()), t),
            deleted@ == popped_ids(orig.subrange(0, orig.len() - tables@.len()), t),
        decreases tables@.len(),
    {
        let ghost done = orig.len() - tables@.len();
        let ts = tables.remove(0);
        proof {
            assert(ts == orig[done]);
            assert(tables@ =~= orig.subrange(done + 1, orig.len() as int));
            assert(orig.subrange(0, done + 1).drop_last() =~= orig.subrange(0, done));
            assert(orig.subrange(0, done + 1).last() == orig[done]);
        }
        if is_claimed_by(&ts, t) {
            deleted.push(ts.table_id);
        } else {
            kept.push(ts);
        }
    }
    *tables = kept;
    deleted
}

} // verus!
