//! The scheduler: which tasks may run now, given the resources held by the
//! tasks already running, and what each completion releases.
//!
//! Running a task, waiting on the channel for completions, and handing
//! resources to systems are work for the caller: it asks this scheduler what
//! to run next, and reports back each message from a finished task.

use crate::collections::{
    bit_set_contains, bit_set_insert, bit_set_is_empty, bit_set_items, bit_set_new, bit_set_remove,
    bit_set_with_capacity, handler_ids_from_vec, handler_ids_get, handler_ids_items, handler_ids_len,
    resource_vec_from_vec, resource_vec_get, resource_vec_items, resource_vec_len, stage_systems_from_vec,
    stage_systems_get, stage_systems_items, stage_systems_len, HandlerIds, ResourceVec, StageSystems,
};
use crate::event::HandlerAccess;
use crate::holding::{access_of, held_by, holds_for, lemma_completed_task_leaves, lemma_started_task_joins, written_by, TaskAccess};
use crate::ids::{EventId, ResourceId, StageId, SystemId};
use crate::layout::{
    accesses_of, event_deps, event_len, event_table, flat, flatten_groups, handler_id_table, has_id, ids_below,
    ids_distinct, ids_increasing, nested, offset, per_stage, per_system, place_handlers, place_systems, stage_tables,
};
use crate::resources::Resources;
use std::collections::VecDeque;
use vstd::prelude::*;

verus! {

/// A task to run. This can either be a stage (multiple systems run in
/// parallel), a oneshot system, or an event handling pipeline for a batch of
/// events.
#[derive(Debug, Clone, Copy, PartialEq, Eq)]
pub enum Task<B> {
    Stage(StageId),
    Oneshot(SystemId),
    HandleEvent(EventId, B),
}

/// A message sent from a running task to the scheduler.
#[derive(Debug, Clone, Copy, PartialEq, Eq)]
pub enum TaskMessage<B> {
    /// The oneshot system with the given ID completed.
    SystemComplete(SystemId),
    /// All systems in a stage have completed.
    StageComplete(StageId),
    /// An event handler pipeline has finished running.
    EventHandlingComplete(EventId),
    /// Requests that a batch of events be handled.
    TriggerEvents { id: EventId, batch: B },
}

/// The number of times resource `r` occurs in `ids`.
pub open spec fn count(ids: Seq<ResourceId>, r: int) -> nat
    decreases ids.len(),
{
    if ids.len() == 0 {
        0
    } else {
        count(ids.drop_last(), r) + if ids.last().0 == r {
            1nat
        } else {
            0nat
        }
    }
}

/// The raw IDs of `ids`, as a set.
pub open spec fn id_set(ids: Seq<ResourceId>) -> Set<usize> {
    Set::new(|i: usize| exists|k: int| 0 <= k < ids.len() && (#[trigger] ids[k]).0 == i)
}

/// The IDs of `ids`, as a set of indices.
pub open spec fn system_set(ids: Seq<SystemId>) -> Set<usize> {
    Set::new(|i: usize| exists|k: int| 0 <= k < ids.len() && (#[trigger] ids[k]).0 == i)
}

/// Every ID of `ids` indexes `held`.
pub open spec fn in_range(ids: Seq<ResourceId>, len: nat) -> bool {
    forall|k: int| 0 <= k < ids.len() ==> (#[trigger] ids[k]).0 < len
}

/// A task reading `reads` and writing `writes` may obtain them: nothing it
/// reads or writes is held for writing, and nothing it writes is held for
/// reading.
pub open spec fn obtainable(reads: Seq<ResourceId>, writes: Seq<ResourceId>, held: Seq<u32>, written: Set<usize>) -> bool {
    &&& forall|k: int| 0 <= k < reads.len() ==> !written.contains((#[trigger] reads[k]).0)
    &&& forall|k: int| 0 <= k < writes.len() ==> !written.contains((#[trigger] writes[k]).0)
    &&& forall|k: int| 0 <= k < writes.len() ==> held[(#[trigger] writes[k]).0 as int] == 0
}

/// The read counts after each read of `reads` is counted.
pub open spec fn counts_plus(held: Seq<u32>, reads: Seq<ResourceId>) -> Seq<int> {
    Seq::new(held.len(), |i: int| held[i] + count(reads, i))
}

/// The read counts after each read of `reads` is released.
pub open spec fn counts_minus(held: Seq<u32>, reads: Seq<ResourceId>) -> Seq<int> {
    Seq::new(held.len(), |i: int| held[i] - count(reads, i))
}

/// The counts of `held` as integers.
pub open spec fn counts(held: Seq<u32>) -> Seq<int> {
    Seq::new(held.len(), |i: int| held[i] as int)
}

/// Counting the reads of `reads` stays within `u32`.
pub open spec fn counts_fit(held: Seq<u32>, reads: Seq<ResourceId>) -> bool {
    forall|i: int| 0 <= i < held.len() ==> held[i] + count(reads, i) <= u32::MAX
}

/// The reads of `reads` are all counted in `held`.
pub open spec fn counts_cover(held: Seq<u32>, reads: Seq<ResourceId>) -> bool {
    forall|i: int| 0 <= i < held.len() ==> held[i] >= count(reads, i)
}

pub(crate) proof fn lemma_count_push(ids: Seq<ResourceId>, x: ResourceId, r: int)
    ensures
        count(ids.push(x), r) == count(ids, r) + if x.0 == r {
            1nat
        } else {
            0nat
        },
{
    assert(ids.push(x).drop_last() =~= ids);
}

pub(crate) proof fn lemma_count_positive(ids: Seq<ResourceId>, k: int)
    requires
        0 <= k < ids.len(),
    ensures
        count(ids, ids[k].0 as int) >= 1,
    decreases ids.len(),
{
    if k < ids.len() - 1 {
        lemma_count_positive(ids.drop_last(), k);
    }
}

pub(crate) proof fn lemma_count_zero(ids: Seq<ResourceId>, r: int)
    requires
        forall|k: int| 0 <= k < ids.len() ==> (#[trigger] ids[k]).0 != r,
    ensures
        count(ids, r) == 0,
    decreases ids.len(),
{
    if ids.len() > 0 {
        lemma_count_zero(ids.drop_last(), r);
    }
}

/// The resource IDs of a task, in order, as the scheduler stores them.
pub fn resource_vec(ids: Vec<ResourceId>) -> (r: ResourceVec)
    ensures
        resource_vec_items(r) == ids@,
{
    resource_vec_from_vec(ids)
}

/// Attempts to acquire resources for a task, returning `Err` if there was a
/// conflict and `Ok` if successful. On success every read is counted in
/// `reads_held` and every write marked in `writes_held`; on a conflict
/// nothing changes.
pub fn try_obtain_resources(
    reads: &ResourceVec,
    writes: &ResourceVec,
    reads_held: &mut Vec<u32>,
    writes_held: &mut bit_set::BitSet,
) -> (r: Result<(), ()>)
    requires
        in_range(resource_vec_items(*reads), old(reads_held)@.len()),
        in_range(resource_vec_items(*writes), old(reads_held)@.len()),
        counts_fit(old(reads_held)@, resource_vec_items(*reads)),
    ensures
        r is Ok <==> obtainable(
            resource_vec_items(*reads),
            resource_vec_items(*writes),
            old(reads_held)@,
            bit_set_items(*old(writes_held)),
        ),
        r is Ok ==> counts(final(reads_held)@) == counts_plus(old(reads_held)@, resource_vec_items(*reads)),
        r is Ok ==> bit_set_items(*final(writes_held)) == bit_set_items(*old(writes_held)).union(
            id_set(resource_vec_items(*writes)),
        ),
        r is Err ==> final(reads_held)@ == old(reads_held)@,
        r is Err ==> bit_set_items(*final(writes_held)) == bit_set_items(*old(writes_held)),
{
    let ghost rs = resource_vec_items(*reads);
    let ghost ws = resource_vec_items(*writes);
    let ghost held0 = reads_held@;
    let ghost written0 = bit_set_items(*writes_held);
    // Both reads and writes conflict with a held write.
    let n_reads = resource_vec_len(reads);
    let mut k: usize = 0;
    while k < n_reads
        invariant
            n_reads == rs.len(),
            rs == resource_vec_items(*reads),
            k <= n_reads,
            bit_set_items(*writes_held) == written0,
            forall|j: int| 0 <= j < k ==> !written0.contains((#[trigger] rs[j]).0),
        decreases n_reads - k,
    {
        let resource = resource_vec_get(reads, k);
        if bit_set_contains(writes_held, resource.0) {
            return Err(());
        }
        k = k + 1;
    }
    let n_writes = resource_vec_len(writes);
    let mut k: usize = 0;
    while k < n_writes
        invariant
            n_writes == ws.len(),
            ws == resource_vec_items(*writes),
            k <= n_writes,
            bit_set_items(*writes_held) == written0,
            forall|j: int| 0 <= j < k ==> !written0.contains((#[trigger] ws[j]).0),
        decreases n_writes - k,
    {
        let resource = resource_vec_get(writes, k);
        if bit_set_contains(writes_held, resource.0) {
            return Err(());
        }
        k = k + 1;
    }
    // Write resources also conflict with held reads.
    let mut k: usize = 0;
    while k < n_writes
        invariant
            n_writes == ws.len(),
            ws == resource_vec_items(*writes),
            in_range(ws, held0.len()),
            reads_held@ == held0,
            k <= n_writes,
            forall|j: int| 0 <= j < k ==> held0[(#[trigger] ws[j]).0 as int] == 0,
        decreases n_writes - k,
    {
        let resource = resource_vec_get(writes, k);
        if reads_held[resource.0] > 0 {
            return Err(());
        }
        k = k + 1;
    }
    // Obtain the resources.
    let mut k: usize = 0;
    while k < n_reads
        invariant
            n_reads == rs.len(),
            rs == resource_vec_items(*reads),
            in_range(rs, held0.len()),
            counts_fit(held0, rs),
            k <= n_reads,
            reads_held@.len() == held0.len(),
            forall|i: int| 0 <= i < held0.len() ==> reads_held@[i] == held0[i] + count(rs.take(k as int), i),
        decreases n_reads - k,
    {
        let resource = resource_vec_get(reads, k);
        proof {
            lemma_count_push(rs.take(k as int), rs[k as int], resource.0 as int);
            assert(rs.take(k + 1) == rs.take(k as int).push(rs[k as int]));
            lemma_count_prefix_le(rs, k + 1, resource.0 as int);
        }
        let value = reads_held[resource.0] + 1;
        reads_held.set(resource.0, value);
        proof {
            assert forall|i: int| 0 <= i < held0.len() implies reads_held@[i] == held0[i] + count(rs.take(k + 1), i) by {
                lemma_count_push(rs.take(k as int), rs[k as int], i);
            }
        }
        k = k + 1;
    }
    proof {
        assert(rs.take(n_reads as int) == rs);
        assert(counts(reads_held@) =~= counts_plus(held0, rs));
    }
    let mut k: usize = 0;
    while k < n_writes
        invariant
            n_writes == ws.len(),
            ws == resource_vec_items(*writes),
            k <= n_writes,
            in_range(ws, held0.len()),
            held0.len() == reads_held@.len(),
            bit_set_items(*writes_held) == written0.union(id_set(ws.take(k as int))),
        decreases n_writes - k,
    {
        let resource = resource_vec_get(writes, k);
        proof {
            assert(resource.0 < held0.len());
            assert(held0.len() == reads_held.len());
        }
        bit_set_insert(writes_held, resource.0);
        proof {
            assert(ws.take(k + 1) == ws.take(k as int).push(ws[k as int]));
            assert(id_set(ws.take(k + 1)) =~= id_set(ws.take(k as int)).insert(resource.0)) by {
                let t = ws.take(k as int);
                let t1 = ws.take(k + 1);
                assert forall|i: usize| id_set(t1).contains(i) implies id_set(t).insert(resource.0).contains(i) by {
                    let j = choose|j: int| 0 <= j < t1.len() && (#[trigger] t1[j]).0 == i;
                    if j < k {
                        assert(t[j] == t1[j]);
                    }
                }
                assert forall|i: usize| id_set(t).insert(resource.0).contains(i) implies id_set(t1).contains(i) by {
                    if i == resource.0 {
                        assert(t1[k as int].0 == i);
                    } else {
                        let j = choose|j: int| 0 <= j < t.len() && (#[trigger] t[j]).0 == i;
                        assert(t1[j] == t[j]);
                    }
                }
            }
            assert(bit_set_items(*writes_held) =~= written0.union(id_set(ws.take(k + 1))));
        }
        k = k + 1;
    }
    proof {
        assert(ws.take(n_writes as int) == ws);
    }
    Ok(())
}

proof fn lemma_count_prefix_le(ids: Seq<ResourceId>, n: int, r: int)
    requires
        0 <= n <= ids.len(),
    ensures
        count(ids.take(n), r) <= count(ids, r),
    decreases ids.len() - n,
{
    if n < ids.len() {
        lemma_count_prefix_le(ids, n + 1, r);
        lemma_count_push(ids.take(n), ids[n], r);
        assert(ids.take(n + 1) == ids.take(n).push(ids[n]));
    } else {
        assert(ids.take(n) == ids);
    }
}

/// Releases resources held by a task: every read is uncounted in
/// `reads_held` and every write unmarked in `writes_held`.
fn release_resources(reads: &ResourceVec, writes: &ResourceVec, reads_held: &mut Vec<u32>, writes_held: &mut bit_set::BitSet)
    requires
        in_range(resource_vec_items(*reads), old(reads_held)@.len()),
        counts_cover(old(reads_held)@, resource_vec_items(*reads)),
    ensures
        counts(final(reads_held)@) == counts_minus(old(reads_held)@, resource_vec_items(*reads)),
        bit_set_items(*final(writes_held)) == bit_set_items(*old(writes_held)).difference(
            id_set(resource_vec_items(*writes)),
        ),
{
    let ghost rs = resource_vec_items(*reads);
    let ghost ws = resource_vec_items(*writes);
    let ghost held0 = reads_held@;
    let ghost written0 = bit_set_items(*writes_held);
    let n_reads = resource_vec_len(reads);
    let mut k: usize = 0;
    while k < n_reads
        invariant
            n_reads == rs.len(),
            rs == resource_vec_items(*reads),
            in_range(rs, held0.len()),
            counts_cover(held0, rs),
            k <= n_reads,
            reads_held@.len() == held0.len(),
            forall|i: int| 0 <= i < held0.len() ==> reads_held@[i] == held0[i] - count(rs.take(k as int), i),
        decreases n_reads - k,
    {
        let resource = resource_vec_get(reads, k);
        proof {
            lemma_count_push(rs.take(k as int), rs[k as int], resource.0 as int);
            assert(rs.take(k + 1) == rs.take(k as int).push(rs[k as int]));
            lemma_count_prefix_le(rs, k + 1, resource.0 as int);
        }
        let value = reads_held[resource.0] - 1;
        reads_held.set(resource.0, value);
        proof {
            assert forall|i: int| 0 <= i < held0.len() implies reads_held@[i] == held0[i] - count(rs.take(k + 1), i) by {
                lemma_count_push(rs.take(k as int), rs[k as int], i);
            }
        }
        k = k + 1;
    }
    proof {
        assert(rs.take(n_reads as int) == rs);
        assert(counts(reads_held@) =~= counts_minus(held0, rs));
    }
    let n_writes = resource_vec_len(writes);
    let mut k: usize = 0;
    while k < n_writes
        invariant
            n_writes == ws.len(),
            ws == resource_vec_items(*writes),
            k <= n_writes,
            bit_set_items(*writes_held) == written0.difference(id_set(ws.take(k as int))),
        decreases n_writes - k,
    {
        let resource = resource_vec_get(writes, k);
        bit_set_remove(writes_held, resource.0);
        proof {
            let t = ws.take(k as int);
            let t1 = ws.take(k + 1);
            assert forall|i: usize| id_set(t1).contains(i) == id_set(t).insert(resource.0).contains(i) by {
                if id_set(t1).contains(i) {
                    let j = choose|j: int| 0 <= j < t1.len() && (#[trigger] t1[j]).0 == i;
                    if j < k {
                        assert(t[j] == t1[j]);
                    }
                }
                if i == resource.0 {
                    assert(t1[k as int].0 == i);
                } else if id_set(t).contains(i) {
                    let j = choose|j: int| 0 <= j < t.len() && (#[trigger] t[j]).0 == i;
                    assert(t1[j] == t[j]);
                }
            }
            assert(bit_set_items(*writes_held) =~= written0.difference(id_set(t1)));
        }
        k = k + 1;
    }
    proof {
        assert(ws.take(n_writes as int) == ws);
    }
}

/// Once a task has obtained its resources, no task that conflicts with it can
/// obtain its own until they are released: a task reading what the first
/// writes, or writing what the first reads or writes, is refused.
pub proof fn lemma_conflicting_task_refused(
    held: Seq<u32>,
    written: Set<usize>,
    reads1: Seq<ResourceId>,
    writes1: Seq<ResourceId>,
    reads2: Seq<ResourceId>,
    writes2: Seq<ResourceId>,
)
    requires
        obtainable(reads1, writes1, held, written),
        in_range(reads1, held.len()),
        in_range(writes1, held.len()),
        counts_fit(held, reads1),
        (exists|i: int, j: int| 0 <= i < reads2.len() && 0 <= j < writes1.len() && reads2[i] == writes1[j])
            || (exists|i: int, j: int| 0 <= i < writes2.len() && 0 <= j < writes1.len() && writes2[i] == writes1[j])
            || (exists|i: int, j: int| 0 <= i < writes2.len() && 0 <= j < reads1.len() && writes2[i] == reads1[j]),
    ensures
        forall|held2: Seq<u32>|
            #![trigger counts(held2)]
            counts(held2) == counts_plus(held, reads1) ==> !obtainable(
                reads2,
                writes2,
                held2,
                written.union(id_set(writes1)),
            ),
{
    let w = written.union(id_set(writes1));
    assert forall|held2: Seq<u32>| #![trigger counts(held2)] counts(held2) == counts_plus(held, reads1) implies !obtainable(
        reads2,
        writes2,
        held2,
        w,
    ) by {
        if exists|i: int, j: int| 0 <= i < reads2.len() && 0 <= j < writes1.len() && reads2[i] == writes1[j] {
            let (i, j) = choose|i: int, j: int| 0 <= i < reads2.len() && 0 <= j < writes1.len() && reads2[i] == writes1[j];
            assert(id_set(writes1).contains(writes1[j].0));
            assert(w.contains(reads2[i].0));
        } else if exists|i: int, j: int| 0 <= i < writes2.len() && 0 <= j < writes1.len() && writes2[i] == writes1[j] {
            let (i, j) = choose|i: int, j: int| 0 <= i < writes2.len() && 0 <= j < writes1.len() && writes2[i] == writes1[j];
            assert(id_set(writes1).contains(writes1[j].0));
            assert(w.contains(writes2[i].0));
        } else {
            let (i, j) = choose|i: int, j: int| 0 <= i < writes2.len() && 0 <= j < reads1.len() && writes2[i] == reads1[j];
            let r = reads1[j].0 as int;
            lemma_count_positive(reads1, j);
            assert(0 <= r < held.len());
            assert(counts(held2).len() == held2.len());
            assert(held2.len() == held.len());
            assert(counts(held2)[r] == held2[r] as int);
            assert(counts(held2)[r] == counts_plus(held, reads1)[r]);
            assert(held2[r] >= 1);
            assert(held2[writes2[i].0 as int] != 0);
        }
    }
}

/// Releasing what was just obtained restores the counts and marks: a task
/// that obtains its resources and then completes leaves the held resources as
/// they were.
pub proof fn lemma_obtain_then_release(
    held: Seq<u32>,
    written: Set<usize>,
    reads: Seq<ResourceId>,
    writes: Seq<ResourceId>,
)
    requires
        obtainable(reads, writes, held, written),
    ensures
        Seq::new(held.len(), |i: int| counts_plus(held, reads)[i] - count(reads, i)) == counts(held),
        written.union(id_set(writes)).difference(id_set(writes)) == written,
{
    assert(Seq::new(held.len(), |i: int| counts_plus(held, reads)[i] - count(reads, i)) =~= counts(held));
    assert forall|i: usize| written.contains(i) implies !id_set(writes).contains(i) by {
        if id_set(writes).contains(i) {
            let k = choose|k: int| 0 <= k < writes.len() && (#[trigger] writes[k]).0 == i;
        }
    }
    assert(written.union(id_set(writes)).difference(id_set(writes)) =~= written);
}

/// The `tonks` scheduler: the systems and event handlers, the stages they
/// were packed into, what each task reads and writes, which resources the
/// running tasks hold, and the queue of tasks for the current dispatch.
pub struct Scheduler<S, H, R, B> {
    /// Resources held by this scheduler.
    resources: Resources<R>,
    /// Queue of tasks to run during the current dispatch.
    task_queue: VecDeque<Task<B>>,
    /// The starting task queue for any dispatch.
    starting_queue: VecDeque<Task<B>>,
    /// Write resources which are currently held, indexed by the `ResourceId`.
    writes_held: bit_set::BitSet,
    /// The number of tasks currently holding a shared reference to each
    /// resource, indexed by the `ResourceId`.
    reads_held: Vec<u32>,
    /// Number of currently running systems.
    running_systems_count: usize,
    /// Systems which are currently running, indexed by the `SystemId`.
    running_systems: bit_set::BitSet,
    /// Systems, indexed by the `SystemId`.
    systems: Vec<Option<S>>,
    /// The systems of each stage, indexed by the `StageId`.
    stages: Vec<StageSystems>,
    /// Reads of each system, indexed by the `SystemId`.
    system_reads: Vec<ResourceVec>,
    /// Writes of each system, indexed by the `SystemId`.
    system_writes: Vec<ResourceVec>,
    /// Reads of each stage, indexed by the `StageId`.
    stage_reads: Vec<ResourceVec>,
    /// Writes of each stage, indexed by the `StageId`.
    stage_writes: Vec<ResourceVec>,
    /// Event handlers, indexed by the `SystemId`.
    event_handlers: Vec<Option<H>>,
    /// The handlers of each event, indexed by the `EventId`.
    end_of_tick_handlers: Vec<HandlerIds>,
    /// Reads of each event handler pipeline, indexed by the `EventId`.
    event_reads: Vec<ResourceVec>,
    /// Writes of each event handler pipeline, indexed by the `EventId`.
    event_writes: Vec<ResourceVec>,
    is_first_run: bool,
    /// The tasks started and not yet reported complete, in the order they
    /// were started.
    running_tasks: Ghost<Seq<Task<B>>>,
}

/// The reads and writes of stages, systems and event pipelines, in this
/// order, each table indexed by the ID.
pub type TaskTables = (
    Seq<Seq<ResourceId>>,
    Seq<Seq<ResourceId>>,
    Seq<Seq<ResourceId>>,
    Seq<Seq<ResourceId>>,
    Seq<Seq<ResourceId>>,
    Seq<Seq<ResourceId>>,
);

/// What a task reads and writes, by the tables.
pub open spec fn access_in<B>(task: Task<B>, tables: TaskTables) -> TaskAccess {
    match task {
        Task::Stage(id) => (tables.0[id.0 as int], tables.1[id.0 as int]),
        Task::Oneshot(id) => (tables.2[id.0 as int], tables.3[id.0 as int]),
        Task::HandleEvent(id, _) => (tables.4[id.0 as int], tables.5[id.0 as int]),
    }
}

/// What each of `tasks` reads and writes, by the tables.
pub open spec fn accesses_in<B>(tasks: Seq<Task<B>>, tables: TaskTables) -> Seq<TaskAccess> {
    tasks.map_values(|t: Task<B>| access_in(t, tables))
}

/// Two tasks are the same stage, the same one-shot system, or the same
/// event's pipeline (whatever the batch of events).
pub open spec fn same_task<B>(a: Task<B>, b: Task<B>) -> bool {
    match (a, b) {
        (Task::Stage(i), Task::Stage(j)) => i == j,
        (Task::Oneshot(i), Task::Oneshot(j)) => i == j,
        (Task::HandleEvent(i, _), Task::HandleEvent(j, _)) => i == j,
        _ => false,
    }
}

/// The position of the first of `tasks` that is the same task as `task`, or
/// the length of `tasks` if there is none.
pub open spec fn find_task<B>(tasks: Seq<Task<B>>, task: Task<B>) -> int
    decreases tasks.len(),
{
    if tasks.len() == 0 {
        0
    } else if same_task(tasks[0], task) {
        0
    } else {
        1 + find_task(tasks.drop_first(), task)
    }
}

proof fn lemma_find_task<B>(tasks: Seq<Task<B>>, task: Task<B>)
    ensures
        0 <= find_task(tasks, task) <= tasks.len(),
        find_task(tasks, task) < tasks.len() ==> same_task(tasks[find_task(tasks, task)], task),
    decreases tasks.len(),
{
    if tasks.len() > 0 && !same_task(tasks[0], task) {
        lemma_find_task(tasks.drop_first(), task);
    }
}

/// The items of each `ResourceVec`.
pub open spec fn resource_vecs(v: Seq<ResourceVec>) -> Seq<Seq<ResourceId>> {
    v.map_values(|x: ResourceVec| resource_vec_items(x))
}

impl<S, H, R, B: Copy> Scheduler<S, H, R, B> {
    pub closed spec fn queue(&self) -> Seq<Task<B>> {
        self.task_queue@
    }

    pub closed spec fn starting(&self) -> Seq<Task<B>> {
        self.starting_queue@
    }

    pub closed spec fn reads_held(&self) -> Seq<u32> {
        self.reads_held@
    }

    pub closed spec fn writes_held(&self) -> Set<usize> {
        bit_set_items(self.writes_held)
    }

    pub closed spec fn running(&self) -> Set<usize> {
        bit_set_items(self.running_systems)
    }

    pub closed spec fn running_count(&self) -> nat {
        self.running_systems_count as nat
    }

    /// The tasks started and not yet reported complete, in the order they
    /// were started.
    pub closed spec fn running_tasks(&self) -> Seq<Task<B>> {
        self.running_tasks@
    }

    /// The read and write tables of stages, systems and event pipelines.
    pub open spec fn tables(&self) -> TaskTables {
        (
            self.stage_reads(),
            self.stage_writes(),
            self.system_reads(),
            self.system_writes(),
            self.event_reads(),
            self.event_writes(),
        )
    }

    /// What each running task reads and writes.
    pub open spec fn running_accesses(&self) -> Seq<TaskAccess> {
        accesses_in(self.running_tasks(), self.tables())
    }

    /// The resources held are exactly those of the running tasks, and no two
    /// running tasks conflict.
    pub open spec fn holdings_consistent(&self) -> bool {
        holds_for(*self, self.running_accesses())
    }

    /// The task a message reports complete is running, if it reports one.
    pub open spec fn reports_running(&self, msg: TaskMessage<B>) -> bool {
        match Self::completed_task(msg) {
            Some(task) => find_task(self.running_tasks(), task) < self.running_tasks().len(),
            None => true,
        }
    }

    /// The running tasks once a message is handled: the first running task
    /// that the message reports complete is no longer running.
    pub open spec fn running_after(&self, msg: TaskMessage<B>) -> Seq<Task<B>> {
        match Self::completed_task(msg) {
            Some(task) => {
                let k = find_task(self.running_tasks(), task);
                if k < self.running_tasks().len() {
                    self.running_tasks().remove(k)
                } else {
                    self.running_tasks()
                }
            },
            None => self.running_tasks(),
        }
    }

    pub closed spec fn first_run(&self) -> bool {
        self.is_first_run
    }

    pub closed spec fn resources_view(&self) -> Resources<R> {
        self.resources
    }

    pub closed spec fn systems(&self) -> Seq<Option<S>> {
        self.systems@
    }

    pub closed spec fn handlers(&self) -> Seq<Option<H>> {
        self.event_handlers@
    }

    pub closed spec fn stage_ids(&self) -> Seq<Seq<SystemId>> {
        self.stages@.map_values(|x: StageSystems| stage_systems_items(x))
    }

    pub closed spec fn handler_ids(&self) -> Seq<Seq<SystemId>> {
        self.end_of_tick_handlers@.map_values(|x: HandlerIds| handler_ids_items(x))
    }

    pub closed spec fn system_reads(&self) -> Seq<Seq<ResourceId>> {
        resource_vecs(self.system_reads@)
    }

    pub closed spec fn system_writes(&self) -> Seq<Seq<ResourceId>> {
        resource_vecs(self.system_writes@)
    }

    pub closed spec fn stage_reads(&self) -> Seq<Seq<ResourceId>> {
        resource_vecs(self.stage_reads@)
    }

    pub closed spec fn stage_writes(&self) -> Seq<Seq<ResourceId>> {
        resource_vecs(self.stage_writes@)
    }

    pub closed spec fn event_reads(&self) -> Seq<Seq<ResourceId>> {
        resource_vecs(self.event_reads@)
    }

    pub closed spec fn event_writes(&self) -> Seq<Seq<ResourceId>> {
        resource_vecs(self.event_writes@)
    }

    /// Everything fixed when the scheduler was built is the same in `other`.
    pub open spec fn same_layout(&self, other: &Self) -> bool {
        &&& self.starting() == other.starting()
        &&& self.systems() == other.systems()
        &&& self.handlers() == other.handlers()
        &&& self.stage_ids() == other.stage_ids()
        &&& self.handler_ids() == other.handler_ids()
        &&& self.system_reads() == other.system_reads()
        &&& self.system_writes() == other.system_writes()
        &&& self.stage_reads() == other.stage_reads()
        &&& self.stage_writes() == other.stage_writes()
        &&& self.event_reads() == other.event_reads()
        &&& self.event_writes() == other.event_writes()
        &&& self.resources_view() == other.resources_view()
        &&& self.first_run() == other.first_run()
    }

    /// The task names entries that exist.
    pub open spec fn task_in_range(&self, task: Task<B>) -> bool {
        match task {
            Task::Stage(id) => id.0 < self.stage_ids().len() && id.0 < self.stage_reads().len() && id.0
                < self.stage_writes().len(),
            Task::Oneshot(id) => id.0 < self.system_reads().len() && id.0 < self.system_writes().len(),
            Task::HandleEvent(id, _) => id.0 < self.event_reads().len() && id.0 < self.event_writes().len()
                && id.0 < self.handler_ids().len(),
        }
    }

    /// The resources read by a task.
    pub open spec fn task_reads(&self, task: Task<B>) -> Seq<ResourceId> {
        match task {
            Task::Stage(id) => self.stage_reads()[id.0 as int],
            Task::Oneshot(id) => self.system_reads()[id.0 as int],
            Task::HandleEvent(id, _) => self.event_reads()[id.0 as int],
        }
    }

    /// The resources written by a task.
    pub open spec fn task_writes(&self, task: Task<B>) -> Seq<ResourceId> {
        match task {
            Task::Stage(id) => self.stage_writes()[id.0 as int],
            Task::Oneshot(id) => self.system_writes()[id.0 as int],
            Task::HandleEvent(id, _) => self.event_writes()[id.0 as int],
        }
    }

    /// The systems a task runs.
    pub open spec fn task_systems(&self, task: Task<B>) -> Seq<SystemId> {
        match task {
            Task::Stage(id) => self.stage_ids()[id.0 as int],
            Task::Oneshot(id) => seq![id],
            Task::HandleEvent(id, _) => self.handler_ids()[id.0 as int],
        }
    }

    /// Running the task would index, count and mark within bounds: the
    /// inputs on which `run_task` does not panic.
    pub open spec fn can_run(&self, task: Task<B>) -> bool {
        &&& self.task_in_range(task)
        &&& in_range(self.task_reads(task), self.reads_held().len())
        &&& in_range(self.task_writes(task), self.reads_held().len())
        &&& counts_fit(self.reads_held(), self.task_reads(task))
        &&& self.running_count() + self.task_systems(task).len() <= usize::MAX
        &&& forall|k: int| 0 <= k < self.task_systems(task).len() ==> (#[trigger] self.task_systems(task)[k]).0 < usize::MAX
    }

    /// None of the handlers of the task, if it handles events, is running.
    pub open spec fn handlers_idle(&self, task: Task<B>) -> bool {
        match task {
            Task::HandleEvent(id, _) => forall|k: int|
                0 <= k < self.handler_ids()[id.0 as int].len() ==> !self.running().contains(
                    (#[trigger] self.handler_ids()[id.0 as int][k]).0,
                ),
            _ => true,
        }
    }

    /// The task that a completion message reports as finished.
    pub open spec fn completed_task(msg: TaskMessage<B>) -> Option<Task<B>> {
        match msg {
            TaskMessage::SystemComplete(id) => Some(Task::Oneshot(id)),
            TaskMessage::StageComplete(id) => Some(Task::Stage(id)),
            TaskMessage::EventHandlingComplete(id) => Some(Task::HandleEvent(id, arbitrary())),
            TaskMessage::TriggerEvents { .. } => None,
        }
    }

    /// Handling the message would index and uncount within bounds: the inputs
    /// on which `on_message` does not panic.
    pub open spec fn can_accept(&self, msg: TaskMessage<B>) -> bool {
        match Self::completed_task(msg) {
            Some(task) => {
                &&& self.task_in_range(task)
                &&& in_range(self.task_reads(task), self.reads_held().len())
                &&& counts_cover(self.reads_held(), self.task_reads(task))
                &&& self.task_systems(task).len() <= self.running_count()
            },
            None => true,
        }
    }

    /// The scheduler is freshly built from these stages, handlers and
    /// dependencies: its tables are laid out from them, the queue is empty,
    /// nothing is held or running, and the first dispatch is still to come.
    pub open spec fn laid_out(
        &self,
        stage_ids: Seq<Seq<SystemId>>,
        stages: Seq<Seq<S>>,
        groups: Seq<Seq<(H, HandlerAccess)>>,
        read_deps: Seq<Seq<ResourceId>>,
        write_deps: Seq<Seq<ResourceId>>,
        resources: Resources<R>,
        num_systems: nat,
        num_resources: nat,
    ) -> bool {
        let hs = flat(groups);
        &&& self.stage_ids() == stage_ids
        &&& self.systems().len() == num_systems
        &&& forall|s: int, j: int|
            0 <= s < stage_ids.len() && 0 <= j < stage_ids[s].len() ==> self.systems()[(#[trigger] stage_ids[s][j]).0 as int]
                == Some(stages[s][j])
        &&& forall|i: int| 0 <= i < num_systems && !has_id(stage_ids, i) ==> (#[trigger] self.systems()[i]) is None
        &&& per_system(self.system_reads(), stage_ids, read_deps, num_systems)
        &&& per_system(self.system_writes(), stage_ids, write_deps, num_systems)
        &&& per_stage(self.stage_reads(), stage_ids, read_deps)
        &&& per_stage(self.stage_writes(), stage_ids, write_deps)
        &&& self.handler_ids().len() == groups.len()
        &&& forall|g: int|
            0 <= g < groups.len() ==> #[trigger] self.handler_ids()[g] == groups[g].map_values(
                |p: (H, HandlerAccess)| p.1.id,
            )
        &&& self.handlers().len() == if hs.len() == 0 { 0 } else { hs.last().1.id.0 + 1 }
        &&& forall|k: int| 0 <= k < hs.len() ==> self.handlers()[(#[trigger] hs[k]).1.id.0 as int] == Some(hs[k].0)
        &&& forall|i: int|
            0 <= i < self.handlers().len() && !(exists|k: int| 0 <= k < hs.len() && (#[trigger] hs[k]).1.id.0 == i)
                ==> (#[trigger] self.handlers()[i]) is None
        &&& self.event_reads().len() == event_len(accesses_of(hs))
        &&& self.event_writes().len() == event_len(accesses_of(hs))
        &&& forall|e: int|
            0 <= e < self.event_reads().len() ==> #[trigger] self.event_reads()[e] == event_deps(accesses_of(hs), e, true)
        &&& forall|e: int|
            0 <= e < self.event_writes().len() ==> #[trigger] self.event_writes()[e] == event_deps(accesses_of(hs), e, false)
        &&& self.starting() == Seq::new(stage_ids.len(), |i: int| Task::<B>::Stage(StageId(i as usize)))
        &&& self.queue().len() == 0
        &&& self.reads_held() == Seq::new(num_resources, |i: int| 0u32)
        &&& self.writes_held() == Set::<usize>::empty()
        &&& self.running() == Set::<usize>::empty()
        &&& self.running_count() == 0
        &&& self.first_run()
        &&& self.resources_view() == resources
        &&& self.running_tasks() == Seq::<Task<B>>::empty()
        &&& self.holdings_consistent()
    }

    /// Creates a new `Scheduler` with the given stages.
    ///
    /// `stages[s][j]` is the system with ID `stage_ids[s][j]`; `read_deps`
    /// and `write_deps` hold the resources of each system, in stage order.
    /// `end_of_dispatch_handlers[e]` holds the handlers of event `e`.
    /// `num_systems` and `num_resources` are the numbers of system and
    /// resource IDs allocated so far.
    ///
    /// The stages are assumed to have been assembled correctly:
    /// no two systems in a stage may conflict with each other.
    pub(crate) fn new(
        stages: Vec<Vec<S>>,
        stage_ids: Vec<Vec<SystemId>>,
        end_of_dispatch_handlers: Vec<Vec<(H, HandlerAccess)>>,
        read_deps: Vec<Vec<ResourceId>>,
        write_deps: Vec<Vec<ResourceId>>,
        resources: Resources<R>,
        num_systems: usize,
        num_resources: usize,
    ) -> (r: Self)
        requires
            stages@.len() == stage_ids@.len(),
            forall|s: int| 0 <= s < stages@.len() ==> (#[trigger] stages@[s])@.len() == stage_ids@[s]@.len(),
            offset(nested(stage_ids@), stage_ids@.len() as int) <= read_deps@.len(),
            offset(nested(stage_ids@), stage_ids@.len() as int) <= write_deps@.len(),
            ids_below(nested(stage_ids@), num_systems as nat),
            ids_distinct(nested(stage_ids@)),
            ids_increasing(accesses_of(flat(nested(end_of_dispatch_handlers@)))),
            forall|k: int|
                0 <= k < flat(nested(end_of_dispatch_handlers@)).len() ==> (#[trigger] flat(
                    nested(end_of_dispatch_handlers@),
                )[k]).1.id.0 < usize::MAX && flat(nested(end_of_dispatch_handlers@))[k].1.event_id.0
                    < usize::MAX,
        ensures
            r.laid_out(
                nested(stage_ids@),
                nested(stages@),
                nested(end_of_dispatch_handlers@),
                nested(read_deps@),
                nested(write_deps@),
                resources,
                num_systems as nat,
                num_resources as nat,
            ),
    {
        // Detect resources used by systems and create those vectors.
        let (system_reads, stage_reads) = stage_tables(&stage_ids, &read_deps, num_systems);
        let (system_writes, stage_writes) = stage_tables(&stage_ids, &write_deps, num_systems);
        let stage_systems = stage_system_table(&stage_ids);
        let systems = place_systems(stages, &stage_ids, num_systems);

        // Construct event handlers.
        let end_of_tick_handlers = handler_id_table(&end_of_dispatch_handlers);
        let handlers = flatten_groups(end_of_dispatch_handlers);
        proof {
            let hs = handlers@;
            assert forall|k: int| 0 <= k < hs.len() implies (#[trigger] hs[k]).1.event_id.0 < usize::MAX by {
            }
        }
        let event_reads = event_table(&handlers, true);
        let event_writes = event_table(&handlers, false);
        let event_handlers = place_handlers(handlers);

        let starting_queue = create_task_queue(&stage_systems);
        let reads_held = zero_counts(num_resources);
        let running_systems = bit_set_with_capacity(systems.len());
        let r = Scheduler {
            resources,
            task_queue: VecDeque::new(),
            starting_queue,
            writes_held: bit_set_new(),
            reads_held,
            running_systems_count: 0,
            running_systems,
            systems,
            stages: stage_systems,
            system_reads,
            system_writes,
            stage_reads,
            stage_writes,
            event_handlers,
            end_of_tick_handlers,
            event_reads,
            event_writes,
            is_first_run: true,
            running_tasks: Ghost(Seq::empty()),
        };
        proof {
            assert(r.running_accesses() =~= Seq::<TaskAccess>::empty());
            assert(counts(r.reads_held()) =~= held_by(Seq::<TaskAccess>::empty(), r.reads_held().len()));
            assert(written_by(Seq::<TaskAccess>::empty()) =~= Set::<usize>::empty());
            assert(r.stage_ids() =~= nested(stage_ids@));
            assert(r.reads_held() =~= Seq::new(num_resources as nat, |i: int| 0u32));
        }
        r
    }

    /// Returns the `Resources` for this scheduler.
    pub fn resources(&self) -> (r: &Resources<R>)
        ensures
            *r == self.resources_view(),
    {
        &self.resources
    }

    /// Returns the `Resources` for this scheduler, mutably.
    pub fn resources_mut(&mut self) -> (r: &mut Resources<R>)
        ensures
            *r == old(self).resources_view(),
            final(self).resources_view() == *final(r),
            final(self).queue() == old(self).queue(),
            final(self).running() == old(self).running(),
            final(self).running_count() == old(self).running_count(),
            final(self).reads_held() == old(self).reads_held(),
            final(self).writes_held() == old(self).writes_held(),
            final(self).running_tasks() == old(self).running_tasks(),
            old(self).holdings_consistent() ==> final(self).holdings_consistent(),
    {
        &mut self.resources
    }

    /// Starts a dispatch: the queue gets the starting tasks (every stage, in
    /// order). Returns whether this is the first dispatch, when systems and
    /// handlers are to be initialized.
    pub fn begin_dispatch(&mut self) -> (first: bool)
        ensures
            first == old(self).first_run(),
            !final(self).first_run(),
            final(self).queue() == old(self).queue() + old(self).starting(),
            final(self).running() == old(self).running(),
            final(self).running_count() == old(self).running_count(),
            final(self).reads_held() == old(self).reads_held(),
            final(self).writes_held() == old(self).writes_held(),
            final(self).starting() == old(self).starting(),
            final(self).stage_ids() == old(self).stage_ids(),
            final(self).handler_ids() == old(self).handler_ids(),
            final(self).system_reads() == old(self).system_reads(),
            final(self).system_writes() == old(self).system_writes(),
            final(self).stage_reads() == old(self).stage_reads(),
            final(self).stage_writes() == old(self).stage_writes(),
            final(self).event_reads() == old(self).event_reads(),
            final(self).event_writes() == old(self).event_writes(),
            final(self).running_tasks() == old(self).running_tasks(),
            old(self).holdings_consistent() ==> final(self).holdings_consistent(),
    {
        let first = self.is_first_run;
        self.is_first_run = false;
        let mut queue: VecDeque<Task<B>> = VecDeque::new();
        std::mem::swap(&mut queue, &mut self.task_queue);
        let ghost q0 = queue@;
        let n = self.starting_queue.len();
        let mut i: usize = 0;
        while i < n
            invariant
                n == self.starting_queue@.len(),
                i <= n,
                queue@ == q0 + self.starting_queue@.take(i as int),
            decreases n - i,
        {
            let task = self.starting_queue[i];
            queue.push_back(task);
            proof {
                assert(self.starting_queue@.take(i + 1) == self.starting_queue@.take(i as int).push(task));
                assert(queue@ =~= q0 + self.starting_queue@.take(i + 1));
            }
            i = i + 1;
        }
        proof {
            assert(self.starting_queue@.take(n as int) == self.starting_queue@);
        }
        self.task_queue = queue;
        first
    }

    /// Takes the next task of the current dispatch.
    pub fn next_task(&mut self) -> (r: Option<Task<B>>)
        ensures
            old(self).queue().len() == 0 ==> r is None && final(self).queue() == old(self).queue(),
            old(self).queue().len() > 0 ==> r == Some(old(self).queue()[0]) && final(self).queue()
                == old(self).queue().drop_first(),
            final(self).same_layout(old(self)),
            final(self).running() == old(self).running(),
            final(self).running_count() == old(self).running_count(),
            final(self).reads_held() == old(self).reads_held(),
            final(self).writes_held() == old(self).writes_held(),
            final(self).running_tasks() == old(self).running_tasks(),
            old(self).holdings_consistent() ==> final(self).holdings_consistent(),
    {
        self.task_queue.pop_front()
    }

    /// Whether no task is queued and no system is running.
    pub fn is_idle(&self) -> (r: bool)
        ensures
            r == (self.queue().len() == 0 && self.running() == Set::<usize>::empty()),
    {
        self.task_queue.len() == 0 && bit_set_is_empty(&self.running_systems)
    }

    /// The number of currently running systems.
    pub fn running_systems_count(&self) -> (r: usize)
        ensures
            r == self.running_count(),
    {
        self.running_systems_count
    }

    /// The systems of a stage, in order.
    pub fn stage_system_ids(&self, id: StageId) -> (r: Vec<SystemId>)
        requires
            id.0 < self.stage_ids().len(),
        ensures
            r@ == self.stage_ids()[id.0 as int],
    {
        stage_ids_vec(&self.stages[id.0])
    }

    /// The handlers of an event, in order, or `None` if the event has no
    /// entry.
    pub fn end_of_tick_handler_ids(&self, id: EventId) -> (r: Option<Vec<SystemId>>)
        ensures
            id.0 < self.handler_ids().len() ==> r is Some && r.unwrap()@ == self.handler_ids()[id.0 as int],
            id.0 >= self.handler_ids().len() ==> r is None,
    {
        if id.0 < self.end_of_tick_handlers.len() {
            Some(handler_ids_vec(&self.end_of_tick_handlers[id.0]))
        } else {
            None
        }
    }

    /// The systems, indexed by the `SystemId`, to be run by the caller.
    pub fn systems_mut(&mut self) -> (r: &mut Vec<Option<S>>)
        ensures
            r@ == old(self).systems(),
            final(self).systems() == final(r)@,
            final(self).handlers() == old(self).handlers(),
            final(self).queue() == old(self).queue(),
            final(self).running() == old(self).running(),
            final(self).running_count() == old(self).running_count(),
            final(self).reads_held() == old(self).reads_held(),
            final(self).writes_held() == old(self).writes_held(),
            final(self).running_tasks() == old(self).running_tasks(),
            old(self).holdings_consistent() ==> final(self).holdings_consistent(),
    {
        &mut self.systems
    }

    /// The event handlers, indexed by the `SystemId`, to be run by the caller.
    pub fn event_handlers_mut(&mut self) -> (r: &mut Vec<Option<H>>)
        ensures
            r@ == old(self).handlers(),
            final(self).handlers() == final(r)@,
            final(self).systems() == old(self).systems(),
            final(self).queue() == old(self).queue(),
            final(self).running() == old(self).running(),
            final(self).running_count() == old(self).running_count(),
            final(self).reads_held() == old(self).reads_held(),
            final(self).writes_held() == old(self).writes_held(),
            final(self).running_tasks() == old(self).running_tasks(),
            old(self).holdings_consistent() ==> final(self).holdings_consistent(),
    {
        &mut self.event_handlers
    }

    /// Attempts to run a task. If the resources it reads and writes can be
    /// obtained, and (for an event pipeline) none of its handlers is running,
    /// its systems are marked as running and their number is returned: the
    /// caller then runs the task. Otherwise nothing is obtained, the task goes
    /// back to the front of the queue and `Err` is returned: the caller then
    /// waits for a message and passes it to `on_message`.
    pub fn run_task(&mut self, task: Task<B>) -> (r: Result<usize, ()>)
        requires
            old(self).can_run(task),
        ensures
            final(self).same_layout(old(self)),
            ({
                let obtained = obtainable(
                    old(self).task_reads(task),
                    old(self).task_writes(task),
                    old(self).reads_held(),
                    old(self).writes_held(),
                );
                &&& r is Ok <==> obtained && old(self).handlers_idle(task)
            }),
            r is Ok ==> counts(final(self).reads_held()) == counts_plus(
                old(self).reads_held(),
                old(self).task_reads(task),
            ),
            r is Ok ==> final(self).writes_held() == old(self).writes_held().union(
                id_set(old(self).task_writes(task)),
            ),
            r is Err ==> final(self).reads_held() == old(self).reads_held(),
            r is Err ==> final(self).writes_held() == old(self).writes_held(),
            r is Ok ==> final(self).running_tasks() == old(self).running_tasks().push(task),
            r is Err ==> final(self).running_tasks() == old(self).running_tasks(),
            old(self).holdings_consistent() ==> final(self).holdings_consistent(),
            r is Ok ==> r == Ok::<usize, ()>(old(self).task_systems(task).len() as usize),
            r is Ok ==> final(self).running() == old(self).running().union(system_set(old(self).task_systems(task))),
            r is Ok ==> final(self).running_count() == old(self).running_count() + old(self).task_systems(task).len(),
            r is Ok ==> final(self).queue() == old(self).queue(),
            r is Err ==> final(self).running() == old(self).running(),
            r is Err ==> final(self).running_count() == old(self).running_count(),
            r is Err ==> final(self).queue() == seq![task] + old(self).queue(),
    {
        let ghost before = *self;
        let idle = self.handlers_not_running(task);
        if !idle {
            self.task_queue.push_front(task);
            proof {
                assert(self.task_queue@ =~= seq![task] + old(self).queue());
            }
            return Err(());
        }
        let obtained = {
            let reads = reads_for_task(&self.stage_reads, &self.system_reads, &self.event_reads, &task);
            let writes = writes_for_task(&self.stage_writes, &self.system_writes, &self.event_writes, &task);
            try_obtain_resources(reads, writes, &mut self.reads_held, &mut self.writes_held)
        };
        if obtained.is_ok() {
            let systems = self.dispatch_task(task);
            self.running_systems_count = self.running_systems_count + systems;
            proof {
                self.running_tasks@ = self.running_tasks@.push(task);
                if before.holdings_consistent() {
                    lemma_started_task_joins(before, *self, task, before.running_accesses());
                    assert(access_of(before, task) == access_in(task, before.tables()));
                    assert(self.running_accesses() =~= before.running_accesses().push(access_of(before, task)));
                }
            }
            Ok(systems)
        } else {
            self.task_queue.push_front(task);
            proof {
                assert(self.task_queue@ =~= seq![task] + old(self).queue());
            }
            Err(())
        }
    }

    /// Whether `run_task` may be called with `task`: whether `can_run` holds.
    pub fn can_run_task(&self, task: Task<B>) -> (r: bool)
        ensures
            r == self.can_run(task),
    {
        let in_range = match task {
            Task::Stage(id) => id.0 < self.stages.len() && id.0 < self.stage_reads.len() && id.0
                < self.stage_writes.len(),
            Task::Oneshot(id) => id.0 < self.system_reads.len() && id.0 < self.system_writes.len(),
            Task::HandleEvent(id, _) => id.0 < self.event_reads.len() && id.0 < self.event_writes.len()
                && id.0 < self.end_of_tick_handlers.len(),
        };
        if !in_range {
            return false;
        }
        let reads = reads_for_task(&self.stage_reads, &self.system_reads, &self.event_reads, &task);
        let writes = writes_for_task(&self.stage_writes, &self.system_writes, &self.event_writes, &task);
        let n = self.reads_held.len();
        if !all_below(reads, n) || !all_below(writes, n) {
            return false;
        }
        if !reads_fit(&self.reads_held, reads) {
            return false;
        }
        let ids = match task {
            Task::Stage(id) => stage_ids_vec(&self.stages[id.0]),
            Task::Oneshot(id) => {
                let mut v: Vec<SystemId> = Vec::new();
                v.push(id);
                proof {
                    assert(v@ =~= seq![id]);
                }
                v
            },
            Task::HandleEvent(id, _) => handler_ids_vec(&self.end_of_tick_handlers[id.0]),
        };
        proof {
            assert(ids@ == self.task_systems(task));
        }
        if self.running_systems_count > usize::MAX - ids.len() {
            return false;
        }
        ids_below_max(&ids)
    }

    /// Whether `on_message` may be called with `msg`: whether `can_accept`
    /// holds.
    pub fn can_accept_message(&self, msg: TaskMessage<B>) -> (r: bool)
        ensures
            r == self.can_accept(msg),
    {
        let n = self.reads_held.len();
        match msg {
            TaskMessage::SystemComplete(id) => {
                if !(id.0 < self.system_reads.len() && id.0 < self.system_writes.len()) {
                    return false;
                }
                let reads = &self.system_reads[id.0];
                all_below(reads, n) && reads_covered(&self.reads_held, reads) && 1 <= self.running_systems_count
            },
            TaskMessage::StageComplete(id) => {
                if !(id.0 < self.stages.len() && id.0 < self.stage_reads.len() && id.0 < self.stage_writes.len()) {
                    return false;
                }
                let reads = &self.stage_reads[id.0];
                all_below(reads, n) && reads_covered(&self.reads_held, reads) && stage_systems_len(
                    &self.stages[id.0],
                ) <= self.running_systems_count
            },
            TaskMessage::EventHandlingComplete(id) => {
                if !(id.0 < self.event_reads.len() && id.0 < self.event_writes.len() && id.0
                    < self.end_of_tick_handlers.len()) {
                    return false;
                }
                let reads = &self.event_reads[id.0];
                all_below(reads, n) && reads_covered(&self.reads_held, reads) && handler_ids_len(
                    &self.end_of_tick_handlers[id.0],
                ) <= self.running_systems_count
            },
            TaskMessage::TriggerEvents { .. } => true,
        }
    }

    /// Whether no handler of the task, if it handles events, is running.
    fn handlers_not_running(&self, task: Task<B>) -> (r: bool)
        requires
            self.task_in_range(task),
        ensures
            r == self.handlers_idle(task),
    {
        match task {
            Task::HandleEvent(id, _) => {
                let ids = handler_ids_vec(&self.end_of_tick_handlers[id.0]);
                let mut k: usize = 0;
                while k < ids.len()
                    invariant
                        task matches Task::HandleEvent(i, _) && i == id,
                        id.0 < self.handler_ids().len(),
                        ids@ == self.handler_ids()[id.0 as int],
                        k <= ids@.len(),
                        forall|j: int| 0 <= j < k ==> !self.running().contains((#[trigger] ids@[j]).0),
                    decreases ids@.len() - k,
                {
                    if bit_set_contains(&self.running_systems, ids[k].0) {
                        proof {
                            assert(self.handler_ids()[id.0 as int][k as int] == ids@[k as int]);
                            assert(self.running().contains(self.handler_ids()[id.0 as int][k as int].0));
                            assert(!self.handlers_idle(task));
                        }
                        return false;
                    }
                    k = k + 1;
                }
                true
            },
            _ => true,
        }
    }

    /// Marks the systems of a task as running, returning their number.
    fn dispatch_task(&mut self, task: Task<B>) -> (r: usize)
        requires
            old(self).task_in_range(task),
            forall|k: int| 0 <= k < old(self).task_systems(task).len() ==> (#[trigger] old(self).task_systems(task)[k]).0 < usize::MAX,
        ensures
            r == old(self).task_systems(task).len(),
            final(self).running() == old(self).running().union(system_set(old(self).task_systems(task))),
            final(self).same_layout(old(self)),
            final(self).queue() == old(self).queue(),
            final(self).running_count() == old(self).running_count(),
            final(self).reads_held() == old(self).reads_held(),
            final(self).writes_held() == old(self).writes_held(),
            final(self).running_tasks() == old(self).running_tasks(),
            old(self).holdings_consistent() ==> final(self).holdings_consistent(),
    {
        match task {
            Task::Stage(id) => {
                let ids = stage_ids_vec(&self.stages[id.0]);
                proof {
                    assert(ids@ == self.stage_ids()[id.0 as int]);
                    assert forall|k: int| 0 <= k < ids@.len() implies (#[trigger] ids@[k]).0 < usize::MAX by {
                        assert(old(self).task_systems(task)[k] == ids@[k]);
                    }
                }
                mark_running(&mut self.running_systems, &ids);
                ids.len()
            },
            Task::Oneshot(id) => {
                proof {
                    assert(old(self).task_systems(task)[0] == id);
                    lemma_system_set_single(id);
                }
                bit_set_insert(&mut self.running_systems, id.0);
                1
            },
            Task::HandleEvent(id, _) => {
                let ids = handler_ids_vec(&self.end_of_tick_handlers[id.0]);
                proof {
                    assert(ids@ == self.handler_ids()[id.0 as int]);
                    assert forall|k: int| 0 <= k < ids@.len() implies (#[trigger] ids@[k]).0 < usize::MAX by {
                        assert(old(self).task_systems(task)[k] == ids@[k]);
                    }
                }
                mark_running(&mut self.running_systems, &ids);
                ids.len()
            },
        }
    }

    /// Handles a message from a running task. A completion releases the
    /// resources of the task, unmarks its systems and uncounts them; a
    /// request to handle events queues an event pipeline. Returns the number
    /// of systems which completed.
    pub fn on_message(&mut self, msg: TaskMessage<B>) -> (r: usize)
        requires
            old(self).can_accept(msg),
        ensures
            final(self).same_layout(old(self)),
            match Self::completed_task(msg) {
                Some(task) => {
                    &&& r == old(self).task_systems(task).len()
                    &&& counts(final(self).reads_held()) == counts_minus(
                        old(self).reads_held(),
                        old(self).task_reads(task),
                    )
                    &&& final(self).writes_held() == old(self).writes_held().difference(
                        id_set(old(self).task_writes(task)),
                    )
                    &&& final(self).running() == old(self).running().difference(
                        system_set(old(self).task_systems(task)),
                    )
                    &&& final(self).running_count() == old(self).running_count() - r
                    &&& final(self).queue() == old(self).queue()
                },
                None => {
                    &&& r == 0
                    &&& final(self).reads_held() == old(self).reads_held()
                    &&& final(self).writes_held() == old(self).writes_held()
                    &&& final(self).running() == old(self).running()
                    &&& final(self).running_count() == old(self).running_count()
                    &&& final(self).queue() == old(self).queue().push(
                        match msg {
                            TaskMessage::TriggerEvents { id, batch } => Task::HandleEvent(id, batch),
                            _ => arbitrary(),
                        },
                    )
                },
            },
            final(self).running_tasks() == old(self).running_after(msg),
            old(self).holdings_consistent() && old(self).reports_running(msg) ==> final(self).holdings_consistent(),
    {
        let ghost before = *self;
        let num = self.wait_for_completion(msg);
        self.running_systems_count = self.running_systems_count - num;
        proof {
            self.running_tasks@ = before.running_after(msg);
            assert(self.tables() == before.tables());
            match Self::completed_task(msg) {
                Some(task) => {
                    let running = before.running_tasks();
                    let k = find_task(running, task);
                    lemma_find_task(running, task);
                    if before.holdings_consistent() && k < running.len() {
                        let group = before.running_accesses();
                        assert(group[k] == access_in(running[k], before.tables()));
                        assert(access_in(running[k], before.tables()) == (before.task_reads(task), before.task_writes(task)));
                        lemma_completed_task_leaves(before, *self, group, k);
                        assert(self.running_accesses() =~= group.remove(k));
                    }
                },
                None => {
                    assert(self.running_accesses() =~= before.running_accesses());
                },
            }
        }
        num
    }

    /// Handles a message from a running task, returning the number of systems
    /// which have completed.
    fn wait_for_completion(&mut self, msg: TaskMessage<B>) -> (r: usize)
        requires
            old(self).can_accept(msg),
        ensures
            final(self).same_layout(old(self)),
            final(self).running_count() == old(self).running_count(),
            match Self::completed_task(msg) {
                Some(task) => {
                    &&& r == old(self).task_systems(task).len()
                    &&& counts(final(self).reads_held()) == counts_minus(
                        old(self).reads_held(),
                        old(self).task_reads(task),
                    )
                    &&& final(self).writes_held() == old(self).writes_held().difference(
                        id_set(old(self).task_writes(task)),
                    )
                    &&& final(self).running() == old(self).running().difference(
                        system_set(old(self).task_systems(task)),
                    )
                    &&& final(self).queue() == old(self).queue()
                },
                None => {
                    &&& r == 0
                    &&& final(self).reads_held() == old(self).reads_held()
                    &&& final(self).writes_held() == old(self).writes_held()
                    &&& final(self).running() == old(self).running()
                    &&& final(self).queue() == old(self).queue().push(
                        match msg {
                            TaskMessage::TriggerEvents { id, batch } => Task::HandleEvent(id, batch),
                            _ => arbitrary(),
                        },
                    )
                },
            },
            final(self).running_tasks() == old(self).running_tasks(),
    {
        match msg {
            TaskMessage::SystemComplete(id) => {
                release_resources(
                    &self.system_reads[id.0],
                    &self.system_writes[id.0],
                    &mut self.reads_held,
                    &mut self.writes_held,
                );
                bit_set_remove(&mut self.running_systems, id.0);
                proof {
                    lemma_system_set_single(id);
                }
                1
            },
            TaskMessage::StageComplete(id) => {
                release_resources(
                    &self.stage_reads[id.0],
                    &self.stage_writes[id.0],
                    &mut self.reads_held,
                    &mut self.writes_held,
                );
                let ids = stage_ids_vec(&self.stages[id.0]);
                unmark_running(&mut self.running_systems, &ids);
                ids.len()
            },
            TaskMessage::TriggerEvents { id, batch } => {
                self.task_queue.push_back(Task::HandleEvent(id, batch));
                0
            },
            TaskMessage::EventHandlingComplete(id) => {
                release_resources(
                    &self.event_reads[id.0],
                    &self.event_writes[id.0],
                    &mut self.reads_held,
                    &mut self.writes_held,
                );
                let ids = handler_ids_vec(&self.end_of_tick_handlers[id.0]);
                unmark_running(&mut self.running_systems, &ids);
                ids.len()
            },
        }
    }
}

/// The reads of a task.
fn reads_for_task<'a, B>(
    stage_reads: &'a Vec<ResourceVec>,
    system_reads: &'a Vec<ResourceVec>,
    event_reads: &'a Vec<ResourceVec>,
    task: &Task<B>,
) -> (r: &'a ResourceVec)
    requires
        match *task {
            Task::Stage(id) => id.0 < stage_reads@.len(),
            Task::Oneshot(id) => id.0 < system_reads@.len(),
            Task::HandleEvent(id, _) => id.0 < event_reads@.len(),
        },
    ensures
        *r == match *task {
            Task::Stage(id) => stage_reads@[id.0 as int],
            Task::Oneshot(id) => system_reads@[id.0 as int],
            Task::HandleEvent(id, _) => event_reads@[id.0 as int],
        },
{
    match task {
        Task::Stage(id) => &stage_reads[id.0],
        Task::Oneshot(id) => &system_reads[id.0],
        Task::HandleEvent(id, _) => &event_reads[id.0],
    }
}

/// The writes of a task.
fn writes_for_task<'a, B>(
    stage_writes: &'a Vec<ResourceVec>,
    system_writes: &'a Vec<ResourceVec>,
    event_writes: &'a Vec<ResourceVec>,
    task: &Task<B>,
) -> (r: &'a ResourceVec)
    requires
        match *task {
            Task::Stage(id) => id.0 < stage_writes@.len(),
            Task::Oneshot(id) => id.0 < system_writes@.len(),
            Task::HandleEvent(id, _) => id.0 < event_writes@.len(),
        },
    ensures
        *r == match *task {
            Task::Stage(id) => stage_writes@[id.0 as int],
            Task::Oneshot(id) => system_writes@[id.0 as int],
            Task::HandleEvent(id, _) => event_writes@[id.0 as int],
        },
{
    match task {
        Task::Stage(id) => &stage_writes[id.0],
        Task::Oneshot(id) => &system_writes[id.0],
        Task::HandleEvent(id, _) => &event_writes[id.0],
    }
}

/// The task queue that starts every dispatch: each stage, in order.
fn create_task_queue<B>(stages: &Vec<StageSystems>) -> (r: VecDeque<Task<B>>)
    ensures
        r@ == Seq::new(stages@.len(), |i: int| Task::<B>::Stage(StageId(i as usize))),
{
    let mut queue: VecDeque<Task<B>> = VecDeque::new();
    let mut i: usize = 0;
    while i < stages.len()
        invariant
            i <= stages@.len(),
            queue@ == Seq::new(i as nat, |k: int| Task::<B>::Stage(StageId(k as usize))),
        decreases stages@.len() - i,
    {
        queue.push_back(Task::Stage(StageId(i)));
        proof {
            assert(queue@ =~= Seq::new((i + 1) as nat, |k: int| Task::<B>::Stage(StageId(k as usize))));
        }
        i = i + 1;
    }
    queue
}

/// `n` counts of zero.
fn zero_counts(n: usize) -> (r: Vec<u32>)
    ensures
        r@ == Seq::new(n as nat, |i: int| 0u32),
{
    let mut r: Vec<u32> = Vec::new();
    let mut k: usize = 0;
    while k < n
        invariant
            k <= n,
            r@ == Seq::new(k as nat, |i: int| 0u32),
        decreases n - k,
    {
        r.push(0);
        proof {
            assert(r@ =~= Seq::new((k + 1) as nat, |i: int| 0u32));
        }
        k = k + 1;
    }
    r
}

/// The systems of each stage.
fn stage_system_table(stage_ids: &Vec<Vec<SystemId>>) -> (r: Vec<StageSystems>)
    ensures
        r@.map_values(|x: StageSystems| stage_systems_items(x)) == nested(stage_ids@),
{
    let mut table: Vec<StageSystems> = Vec::new();
    let mut s: usize = 0;
    while s < stage_ids.len()
        invariant
            s <= stage_ids@.len(),
            table@.len() == s,
            forall|s2: int| 0 <= s2 < s ==> stage_systems_items(#[trigger] table@[s2]) == stage_ids@[s2]@,
        decreases stage_ids@.len() - s,
    {
        let ids = &stage_ids[s];
        let mut copy: Vec<SystemId> = Vec::new();
        let mut j: usize = 0;
        while j < ids.len()
            invariant
                j <= ids@.len(),
                copy@ == ids@.take(j as int),
            decreases ids@.len() - j,
        {
            copy.push(ids[j]);
            proof {
                assert(ids@.take(j + 1) == ids@.take(j as int).push(ids@[j as int]));
            }
            j = j + 1;
        }
        proof {
            assert(ids@.take(ids@.len() as int) == ids@);
        }
        table.push(stage_systems_from_vec(copy));
        s = s + 1;
    }
    proof {
        assert(table@.map_values(|x: StageSystems| stage_systems_items(x)) =~= nested(stage_ids@));
    }
    table
}

/// Whether every ID of `v` is below `n`.
fn all_below(v: &ResourceVec, n: usize) -> (r: bool)
    ensures
        r == in_range(resource_vec_items(*v), n as nat),
{
    let len = resource_vec_len(v);
    let mut k: usize = 0;
    while k < len
        invariant
            len == resource_vec_items(*v).len(),
            k <= len,
            forall|j: int| 0 <= j < k ==> (#[trigger] resource_vec_items(*v)[j]).0 < n,
        decreases len - k,
    {
        if resource_vec_get(v, k).0 >= n {
            return false;
        }
        k = k + 1;
    }
    true
}

/// The number of times `r` occurs in `v`.
fn count_in(v: &ResourceVec, r: usize) -> (c: usize)
    ensures
        c == count(resource_vec_items(*v), r as int),
{
    let ghost items = resource_vec_items(*v);
    let len = resource_vec_len(v);
    let mut c: usize = 0;
    let mut k: usize = 0;
    while k < len
        invariant
            items == resource_vec_items(*v),
            len == items.len(),
            k <= len,
            c <= k,
            c == count(items.take(k as int), r as int),
        decreases len - k,
    {
        let x = resource_vec_get(v, k);
        proof {
            assert(items.take(k + 1) == items.take(k as int).push(items[k as int]));
            lemma_count_push(items.take(k as int), items[k as int], r as int);
        }
        if x.0 == r {
            c = c + 1;
        }
        k = k + 1;
    }
    proof {
        assert(items.take(len as int) == items);
    }
    c
}

/// Whether counting the reads of `reads` in `held` stays within `u32`.
fn reads_fit(held: &Vec<u32>, reads: &ResourceVec) -> (r: bool)
    requires
        in_range(resource_vec_items(*reads), held@.len()),
    ensures
        r == counts_fit(held@, resource_vec_items(*reads)),
{
    let ghost items = resource_vec_items(*reads);
    let len = resource_vec_len(reads);
    let mut k: usize = 0;
    while k < len
        invariant
            items == resource_vec_items(*reads),
            len == items.len(),
            in_range(items, held@.len()),
            k <= len,
            forall|j: int| 0 <= j < k ==> held@[(#[trigger] items[j]).0 as int] + count(items, items[j].0 as int) <= u32::MAX,
        decreases len - k,
    {
        let x = resource_vec_get(reads, k);
        let c = count_in(reads, x.0);
        let h = held[x.0];
        if c > (u32::MAX - h) as usize {
            return false;
        }
        k = k + 1;
    }
    proof {
        assert forall|i: int| 0 <= i < held@.len() implies held@[i] + count(items, i) <= u32::MAX by {
            if exists|j: int| 0 <= j < items.len() && (#[trigger] items[j]).0 == i {
                let j = choose|j: int| 0 <= j < items.len() && (#[trigger] items[j]).0 == i;
                assert(held@[items[j].0 as int] + count(items, items[j].0 as int) <= u32::MAX);
            } else {
                lemma_count_zero(items, i);
            }
        }
    }
    true
}

/// Whether every read of `reads` is counted in `held`.
fn reads_covered(held: &Vec<u32>, reads: &ResourceVec) -> (r: bool)
    requires
        in_range(resource_vec_items(*reads), held@.len()),
    ensures
        r == counts_cover(held@, resource_vec_items(*reads)),
{
    let ghost items = resource_vec_items(*reads);
    let len = resource_vec_len(reads);
    let mut k: usize = 0;
    while k < len
        invariant
            items == resource_vec_items(*reads),
            len == items.len(),
            in_range(items, held@.len()),
            k <= len,
            forall|j: int| 0 <= j < k ==> held@[(#[trigger] items[j]).0 as int] >= count(items, items[j].0 as int),
        decreases len - k,
    {
        let x = resource_vec_get(reads, k);
        let c = count_in(reads, x.0);
        let h = held[x.0];
        if (h as usize) < c {
            return false;
        }
        k = k + 1;
    }
    proof {
        assert forall|i: int| 0 <= i < held@.len() implies held@[i] >= count(items, i) by {
            if exists|j: int| 0 <= j < items.len() && (#[trigger] items[j]).0 == i {
                let j = choose|j: int| 0 <= j < items.len() && (#[trigger] items[j]).0 == i;
                assert(held@[items[j].0 as int] >= count(items, items[j].0 as int));
            } else {
                lemma_count_zero(items, i);
            }
        }
    }
    true
}

/// Whether every ID of `ids` is below `usize::MAX`.
fn ids_below_max(ids: &Vec<SystemId>) -> (r: bool)
    ensures
        r == forall|k: int| 0 <= k < ids@.len() ==> (#[trigger] ids@[k]).0 < usize::MAX,
{
    let mut k: usize = 0;
    while k < ids.len()
        invariant
            k <= ids@.len(),
            forall|j: int| 0 <= j < k ==> (#[trigger] ids@[j]).0 < usize::MAX,
        decreases ids@.len() - k,
    {
        if ids[k].0 == usize::MAX {
            return false;
        }
        k = k + 1;
    }
    true
}

/// The IDs of a stage, copied into a vector.
fn stage_ids_vec(v: &StageSystems) -> (r: Vec<SystemId>)
    ensures
        r@ == stage_systems_items(*v),
{
    let n = stage_systems_len(v);
    let mut r: Vec<SystemId> = Vec::new();
    let mut k: usize = 0;
    while k < n
        invariant
            n == stage_systems_items(*v).len(),
            k <= n,
            r@ == stage_systems_items(*v).take(k as int),
        decreases n - k,
    {
        r.push(stage_systems_get(v, k));
        proof {
            assert(stage_systems_items(*v).take(k + 1) == stage_systems_items(*v).take(k as int).push(
                stage_systems_items(*v)[k as int],
            ));
        }
        k = k + 1;
    }
    proof {
        assert(stage_systems_items(*v).take(n as int) == stage_systems_items(*v));
    }
    r
}

/// The IDs of an event's handlers, copied into a vector.
fn handler_ids_vec(v: &HandlerIds) -> (r: Vec<SystemId>)
    ensures
        r@ == handler_ids_items(*v),
{
    let n = handler_ids_len(v);
    let mut r: Vec<SystemId> = Vec::new();
    let mut k: usize = 0;
    while k < n
        invariant
            n == handler_ids_items(*v).len(),
            k <= n,
            r@ == handler_ids_items(*v).take(k as int),
        decreases n - k,
    {
        r.push(handler_ids_get(v, k));
        proof {
            assert(handler_ids_items(*v).take(k + 1) == handler_ids_items(*v).take(k as int).push(
                handler_ids_items(*v)[k as int],
            ));
        }
        k = k + 1;
    }
    proof {
        assert(handler_ids_items(*v).take(n as int) == handler_ids_items(*v));
    }
    r
}

proof fn lemma_system_set_single(id: SystemId)
    ensures
        system_set(seq![id]) == set![id.0],
{
    lemma_system_set_push(Seq::<SystemId>::empty(), id);
    assert(Seq::<SystemId>::empty().push(id) == seq![id]);
    assert(system_set(Seq::<SystemId>::empty()) =~= Set::<usize>::empty());
    assert(set![id.0] =~= Set::<usize>::empty().insert(id.0));
}

proof fn lemma_system_set_push(ids: Seq<SystemId>, x: SystemId)
    ensures
        system_set(ids.push(x)) == system_set(ids).insert(x.0),
{
    let t1 = ids.push(x);
    assert forall|i: usize| system_set(t1).contains(i) == system_set(ids).insert(x.0).contains(i) by {
        if system_set(t1).contains(i) {
            let j = choose|j: int| 0 <= j < t1.len() && (#[trigger] t1[j]).0 == i;
            if j < ids.len() {
                assert(ids[j] == t1[j]);
            }
        }
        if i == x.0 {
            assert(t1[ids.len() as int].0 == i);
        } else if system_set(ids).contains(i) {
            let j = choose|j: int| 0 <= j < ids.len() && (#[trigger] ids[j]).0 == i;
            assert(t1[j] == ids[j]);
        }
    }
    assert(system_set(t1) =~= system_set(ids).insert(x.0));
}

/// Marks every system of `ids` as running.
fn mark_running(running: &mut bit_set::BitSet, ids: &Vec<SystemId>)
    requires
        forall|k: int| 0 <= k < ids@.len() ==> (#[trigger] ids@[k]).0 < usize::MAX,
    ensures
        bit_set_items(*final(running)) == bit_set_items(*old(running)).union(system_set(ids@)),
{
    let ghost start = bit_set_items(*running);
    let mut k: usize = 0;
    while k < ids.len()
        invariant
            k <= ids@.len(),
            forall|j: int| 0 <= j < ids@.len() ==> (#[trigger] ids@[j]).0 < usize::MAX,
            bit_set_items(*running) == start.union(system_set(ids@.take(k as int))),
        decreases ids@.len() - k,
    {
        bit_set_insert(running, ids[k].0);
        proof {
            assert(ids@.take(k + 1) == ids@.take(k as int).push(ids@[k as int]));
            lemma_system_set_push(ids@.take(k as int), ids@[k as int]);
            assert(bit_set_items(*running) =~= start.union(system_set(ids@.take(k + 1))));
        }
        k = k + 1;
    }
    proof {
        assert(ids@.take(ids@.len() as int) == ids@);
    }
}

/// Unmarks every system of `ids`.
fn unmark_running(running: &mut bit_set::BitSet, ids: &Vec<SystemId>)
    ensures
        bit_set_items(*final(running)) == bit_set_items(*old(running)).difference(system_set(ids@)),
{
    let ghost start = bit_set_items(*running);
    let mut k: usize = 0;
    while k < ids.len()
        invariant
            k <= ids@.len(),
            bit_set_items(*running) == start.difference(system_set(ids@.take(k as int))),
        decreases ids@.len() - k,
    {
        bit_set_remove(running, ids[k].0);
        proof {
            assert(ids@.take(k + 1) == ids@.take(k as int).push(ids@[k as int]));
            lemma_system_set_push(ids@.take(k as int), ids@[k as int]);
            assert(bit_set_items(*running) =~= start.difference(system_set(ids@.take(k + 1))));
        }
        k = k + 1;
    }
    proof {
        assert(ids@.take(ids@.len() as int) == ids@);
    }
}

} // verus!
