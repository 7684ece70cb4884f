//! What a group of running tasks holds, and why the tasks the scheduler lets
//! run side by side never conflict.
//!
//! A task is described by the resources it reads and those it writes. The
//! scheduler counts the reads of the running tasks and marks their writes;
//! these laws relate those counts and marks to the group of running tasks.

use crate::event::HandlerAccess;
use crate::ids::{ResourceId, SystemId};
use crate::resources::Resources;
use crate::scheduler::{count, counts, counts_minus, counts_plus, id_set, in_range, lemma_count_positive, lemma_count_zero, obtainable, Scheduler, Task};
use vstd::prelude::*;

verus! {

/// What a task reads (`.0`) and writes (`.1`).
pub type TaskAccess = (Seq<ResourceId>, Seq<ResourceId>);

/// The read counts of `len` resources held by a group of tasks: for each
/// resource, how many times the tasks read it.
pub open spec fn held_by(tasks: Seq<TaskAccess>, len: nat) -> Seq<int>
    decreases tasks.len(),
{
    if tasks.len() == 0 {
        Seq::new(len, |i: int| 0int)
    } else {
        let prev = held_by(tasks.drop_last(), len);
        Seq::new(len, |i: int| prev[i] + count(tasks.last().0, i))
    }
}

/// The resources written by a group of tasks.
pub open spec fn written_by(tasks: Seq<TaskAccess>) -> Set<usize>
    decreases tasks.len(),
{
    if tasks.len() == 0 {
        Set::empty()
    } else {
        written_by(tasks.drop_last()).union(id_set(tasks.last().1))
    }
}

/// Some resource occurs in both `a` and `b`.
pub open spec fn shares(a: Seq<ResourceId>, b: Seq<ResourceId>) -> bool {
    exists|i: int, j: int| 0 <= i < a.len() && 0 <= j < b.len() && a[i] == b[j]
}

/// Two tasks conflict: one reads what the other writes, or both write the
/// same resource.
pub open spec fn in_conflict(t: TaskAccess, u: TaskAccess) -> bool {
    shares(t.0, u.1) || shares(t.1, u.0) || shares(t.1, u.1)
}

/// Every resource a task of the group reads is one of the `len` counted.
pub open spec fn reads_in_range(tasks: Seq<TaskAccess>, len: nat) -> bool {
    forall|k: int| 0 <= k < tasks.len() ==> in_range(#[trigger] tasks[k].0, len)
}

/// No two tasks of the group conflict.
pub open spec fn compatible(tasks: Seq<TaskAccess>) -> bool {
    forall|i: int, j: int|
        0 <= i < tasks.len() && 0 <= j < tasks.len() && i != j ==> !in_conflict(
            #[trigger] tasks[i],
            #[trigger] tasks[j],
        )
}

proof fn lemma_written_by_contains(tasks: Seq<TaskAccess>, k: int, j: int)
    requires
        0 <= k < tasks.len(),
        0 <= j < tasks[k].1.len(),
    ensures
        written_by(tasks).contains(tasks[k].1[j].0),
    decreases tasks.len(),
{
    if k < tasks.len() - 1 {
        lemma_written_by_contains(tasks.drop_last(), k, j);
    } else {
        assert(id_set(tasks.last().1).contains(tasks[k].1[j].0));
    }
}

proof fn lemma_held_by_covers(tasks: Seq<TaskAccess>, len: nat, k: int, r: int)
    requires
        0 <= k < tasks.len(),
        0 <= r < len,
    ensures
        held_by(tasks, len)[r] >= count(tasks[k].0, r),
    decreases tasks.len(),
{
    lemma_held_by_nonnegative(tasks.drop_last(), len, r);
    if k < tasks.len() - 1 {
        lemma_held_by_covers(tasks.drop_last(), len, k, r);
    }
}

proof fn lemma_held_by_len(tasks: Seq<TaskAccess>, len: nat)
    ensures
        held_by(tasks, len).len() == len,
{
}

proof fn lemma_held_by_nonnegative(tasks: Seq<TaskAccess>, len: nat, r: int)
    requires
        0 <= r < len,
    ensures
        held_by(tasks, len)[r] >= 0,
        held_by(tasks, len).len() == len,
    decreases tasks.len(),
{
    if tasks.len() > 0 {
        lemma_held_by_nonnegative(tasks.drop_last(), len, r);
    }
}

/// A task that may obtain its resources while a group of tasks holds theirs
/// conflicts with none of them: whatever the group's counts and marks are,
/// they refuse every conflicting task.
pub proof fn lemma_obtainable_excludes_holders(
    tasks: Seq<TaskAccess>,
    held: Seq<u32>,
    written: Set<usize>,
    reads: Seq<ResourceId>,
    writes: Seq<ResourceId>,
)
    requires
        counts(held) == held_by(tasks, held.len()),
        written == written_by(tasks),
        reads_in_range(tasks, held.len()),
        obtainable(reads, writes, held, written),
    ensures
        forall|k: int| 0 <= k < tasks.len() ==> !in_conflict((reads, writes), #[trigger] tasks[k]),
{
    assert forall|k: int| 0 <= k < tasks.len() implies !in_conflict((reads, writes), #[trigger] tasks[k]) by {
        if shares(reads, tasks[k].1) {
            let (i, j) = choose|i: int, j: int|
                0 <= i < reads.len() && 0 <= j < tasks[k].1.len() && reads[i] == tasks[k].1[j];
            lemma_written_by_contains(tasks, k, j);
            assert(!written.contains(reads[i].0));
        }
        if shares(writes, tasks[k].0) {
            let (i, j) = choose|i: int, j: int|
                0 <= i < writes.len() && 0 <= j < tasks[k].0.len() && writes[i] == tasks[k].0[j];
            let r = tasks[k].0[j].0 as int;
            assert(in_range(tasks[k].0, held.len()));
            assert(0 <= r < held.len());
            lemma_count_positive(tasks[k].0, j);
            lemma_held_by_covers(tasks, held.len(), k, r);
            assert(counts(held)[r] == held[r] as int);
            assert(held[writes[i].0 as int] == 0);
        }
        if shares(writes, tasks[k].1) {
            let (i, j) = choose|i: int, j: int|
                0 <= i < writes.len() && 0 <= j < tasks[k].1.len() && writes[i] == tasks[k].1[j];
            lemma_written_by_contains(tasks, k, j);
            assert(!written.contains(writes[i].0));
        }
    }
}

/// Obtaining a task's resources makes the counts and marks those of the
/// group with the task added.
pub proof fn lemma_obtain_joins_holders(
    tasks: Seq<TaskAccess>,
    held: Seq<u32>,
    written: Set<usize>,
    reads: Seq<ResourceId>,
    writes: Seq<ResourceId>,
)
    requires
        counts(held) == held_by(tasks, held.len()),
        written == written_by(tasks),
    ensures
        counts_plus(held, reads) == held_by(tasks.push((reads, writes)), held.len()),
        written.union(id_set(writes)) == written_by(tasks.push((reads, writes))),
{
    let grown = tasks.push((reads, writes));
    assert(grown.drop_last() =~= tasks);
    assert(counts_plus(held, reads) =~= held_by(grown, held.len()));
}

proof fn lemma_shares_symmetric(a: Seq<ResourceId>, b: Seq<ResourceId>)
    ensures
        shares(a, b) == shares(b, a),
{
    if shares(a, b) {
        let (i, j) = choose|i: int, j: int| 0 <= i < a.len() && 0 <= j < b.len() && a[i] == b[j];
        assert(0 <= j < b.len() && 0 <= i < a.len() && b[j] == a[i]);
    }
    if shares(b, a) {
        let (i, j) = choose|i: int, j: int| 0 <= i < b.len() && 0 <= j < a.len() && b[i] == a[j];
        assert(0 <= j < a.len() && 0 <= i < b.len() && a[j] == b[i]);
    }
}

proof fn lemma_in_conflict_symmetric(t: TaskAccess, u: TaskAccess)
    ensures
        in_conflict(t, u) == in_conflict(u, t),
{
    lemma_shares_symmetric(t.0, u.1);
    lemma_shares_symmetric(t.1, u.0);
    lemma_shares_symmetric(t.1, u.1);
}

/// Tasks admitted one after another, each obtaining its resources while the
/// tasks before it hold theirs, never conflict with one another.
pub proof fn lemma_admitted_tasks_compatible(tasks: Seq<TaskAccess>, helds: Seq<Seq<u32>>, len: nat)
    requires
        helds.len() == tasks.len(),
        reads_in_range(tasks, len),
        forall|k: int|
            0 <= k < tasks.len() ==> counts(#[trigger] helds[k]) == held_by(tasks.take(k), len),
        forall|k: int|
            0 <= k < tasks.len() ==> obtainable(
                tasks[k].0,
                tasks[k].1,
                #[trigger] helds[k],
                written_by(tasks.take(k)),
            ),
    ensures
        compatible(tasks),
{
    assert forall|i: int, j: int|
        0 <= i < tasks.len() && 0 <= j < tasks.len() && i != j implies !in_conflict(
        #[trigger] tasks[i],
        #[trigger] tasks[j],
    ) by {
        let (late, early) = if i > j {
            (i, j)
        } else {
            (j, i)
        };
        let before = tasks.take(late);
        let held = helds[late];
        assert(counts(held) == held_by(before, len));
        lemma_held_by_len(before, len);
        assert(counts(held).len() == held.len());
        assert forall|k: int| 0 <= k < before.len() implies in_range(#[trigger] before[k].0, held.len()) by {
            assert(before[k] == tasks[k]);
        }
        lemma_obtainable_excludes_holders(before, held, written_by(before), tasks[late].0, tasks[late].1);
        assert(before[early] == tasks[early]);
        assert(!in_conflict((tasks[late].0, tasks[late].1), before[early]));
        assert((tasks[late].0, tasks[late].1) == tasks[late]);
        lemma_in_conflict_symmetric(tasks[late], tasks[early]);
    }
}

proof fn lemma_held_by_remove(tasks: Seq<TaskAccess>, len: nat, k: int)
    requires
        0 <= k < tasks.len(),
    ensures
        held_by(tasks.remove(k), len) == Seq::new(len, |i: int| held_by(tasks, len)[i] - count(tasks[k].0, i)),
    decreases tasks.len(),
{
    let rest = tasks.remove(k);
    if k == tasks.len() - 1 {
        assert(rest =~= tasks.drop_last());
        assert(held_by(rest, len) =~= Seq::new(len, |i: int| held_by(tasks, len)[i] - count(tasks[k].0, i)));
    } else {
        let front = tasks.drop_last();
        lemma_held_by_remove(front, len, k);
        assert(rest.drop_last() =~= front.remove(k));
        assert(rest.last() == tasks.last());
        assert(front[k] == tasks[k]);
        assert(held_by(rest, len) =~= Seq::new(len, |i: int| held_by(tasks, len)[i] - count(tasks[k].0, i)));
    }
}

proof fn lemma_written_by_members(tasks: Seq<TaskAccess>, x: usize)
    ensures
        written_by(tasks).contains(x) <==> exists|i: int|
            0 <= i < tasks.len() && id_set(#[trigger] tasks[i].1).contains(x),
    decreases tasks.len(),
{
    if tasks.len() > 0 {
        let front = tasks.drop_last();
        lemma_written_by_members(front, x);
        if written_by(tasks).contains(x) {
            if id_set(tasks.last().1).contains(x) {
                assert(id_set(tasks[tasks.len() - 1].1).contains(x));
            } else {
                let i = choose|i: int| 0 <= i < front.len() && id_set(#[trigger] front[i].1).contains(x);
                assert(tasks[i] == front[i]);
            }
        }
        if exists|i: int| 0 <= i < tasks.len() && id_set(#[trigger] tasks[i].1).contains(x) {
            let i = choose|i: int| 0 <= i < tasks.len() && id_set(#[trigger] tasks[i].1).contains(x);
            if i < tasks.len() - 1 {
                assert(front[i] == tasks[i]);
            }
        }
    }
}

proof fn lemma_disjoint_writes(t: TaskAccess, u: TaskAccess, x: usize)
    requires
        !in_conflict(t, u),
        id_set(t.1).contains(x),
    ensures
        !id_set(u.1).contains(x),
{
    if id_set(u.1).contains(x) {
        let p = choose|p: int| 0 <= p < t.1.len() && (#[trigger] t.1[p]).0 == x;
        let q = choose|q: int| 0 <= q < u.1.len() && (#[trigger] u.1[q]).0 == x;
        assert(t.1[p] == u.1[q]);
        assert(shares(t.1, u.1));
    }
}

/// When a task of a group that never conflicts completes, releasing its
/// resources leaves exactly what the rest of the group holds.
pub proof fn lemma_release_leaves_rest(tasks: Seq<TaskAccess>, held: Seq<u32>, written: Set<usize>, k: int)
    requires
        0 <= k < tasks.len(),
        compatible(tasks),
        counts(held) == held_by(tasks, held.len()),
        written == written_by(tasks),
    ensures
        counts_minus(held, tasks[k].0) == held_by(tasks.remove(k), held.len()),
        written.difference(id_set(tasks[k].1)) == written_by(tasks.remove(k)),
{
    let rest = tasks.remove(k);
    lemma_held_by_remove(tasks, held.len(), k);
    assert(counts_minus(held, tasks[k].0) =~= held_by(rest, held.len())) by {
        assert forall|i: int| 0 <= i < held.len() implies counts_minus(held, tasks[k].0)[i] == held_by(rest, held.len())[i] by {
            assert(counts(held)[i] == held[i] as int);
        }
    }
    assert forall|x: usize| written.difference(id_set(tasks[k].1)).contains(x) == written_by(rest).contains(x) by {
        lemma_written_by_members(tasks, x);
        lemma_written_by_members(rest, x);
        if written.difference(id_set(tasks[k].1)).contains(x) {
            let i = choose|i: int| 0 <= i < tasks.len() && id_set(#[trigger] tasks[i].1).contains(x);
            assert(i != k);
            let j = if i < k { i } else { i - 1 };
            assert(rest[j] == tasks[i]);
        }
        if written_by(rest).contains(x) {
            let j = choose|j: int| 0 <= j < rest.len() && id_set(#[trigger] rest[j].1).contains(x);
            let i = if j < k { j } else { j + 1 };
            assert(rest[j] == tasks[i]);
            assert(i != k);
            assert(!in_conflict(tasks[i], tasks[k]));
            lemma_disjoint_writes(tasks[i], tasks[k], x);
        }
    }
    assert(written.difference(id_set(tasks[k].1)) =~= written_by(rest));
}

/// What a task of the scheduler reads and writes.
pub open spec fn access_of<S, H, R, B: Copy>(s: Scheduler<S, H, R, B>, task: Task<B>) -> TaskAccess {
    (s.task_reads(task), s.task_writes(task))
}

/// The scheduler holds exactly the resources of `group`, a group of tasks
/// none of which conflicts with another.
pub open spec fn holds_for<S, H, R, B: Copy>(s: Scheduler<S, H, R, B>, group: Seq<TaskAccess>) -> bool {
    &&& counts(s.reads_held()) == held_by(group, s.reads_held().len())
    &&& s.writes_held() == written_by(group)
    &&& reads_in_range(group, s.reads_held().len())
    &&& compatible(group)
}

/// A freshly built scheduler holds the resources of no task.
pub proof fn lemma_built_holds_nothing<S, H, R, B: Copy>(
    s: Scheduler<S, H, R, B>,
    stage_ids: Seq<Seq<SystemId>>,
    stages: Seq<Seq<S>>,
    groups: Seq<Seq<(H, HandlerAccess)>>,
    read_deps: Seq<Seq<ResourceId>>,
    write_deps: Seq<Seq<ResourceId>>,
    resources: Resources<R>,
    num_systems: nat,
    num_resources: nat,
)
    requires
        s.laid_out(stage_ids, stages, groups, read_deps, write_deps, resources, num_systems, num_resources),
    ensures
        holds_for(s, Seq::<TaskAccess>::empty()),
{
    assert(counts(s.reads_held()) =~= held_by(Seq::<TaskAccess>::empty(), s.reads_held().len()));
    assert(written_by(Seq::<TaskAccess>::empty()) =~= Set::<usize>::empty());
}

/// A task that `run_task` starts conflicts with none of the tasks holding
/// resources, and joins them: the scheduler then holds the resources of the
/// group with the task added, and still no two of them conflict.
pub proof fn lemma_started_task_joins<S, H, R, B: Copy>(
    old: Scheduler<S, H, R, B>,
    new: Scheduler<S, H, R, B>,
    task: Task<B>,
    group: Seq<TaskAccess>,
)
    requires
        holds_for(old, group),
        old.can_run(task),
        obtainable(old.task_reads(task), old.task_writes(task), old.reads_held(), old.writes_held()),
        counts(new.reads_held()) == counts_plus(old.reads_held(), old.task_reads(task)),
        new.writes_held() == old.writes_held().union(id_set(old.task_writes(task))),
    ensures
        forall|k: int| 0 <= k < group.len() ==> !in_conflict(access_of(old, task), #[trigger] group[k]),
        holds_for(new, group.push(access_of(old, task))),
{
    let t = access_of(old, task);
    let len = old.reads_held().len();
    lemma_obtainable_excludes_holders(group, old.reads_held(), old.writes_held(), t.0, t.1);
    lemma_obtain_joins_holders(group, old.reads_held(), old.writes_held(), t.0, t.1);
    assert(counts(new.reads_held()).len() == new.reads_held().len());
    assert(new.reads_held().len() == len);
    let grown = group.push(t);
    assert forall|k: int| 0 <= k < grown.len() implies in_range(#[trigger] grown[k].0, len) by {
        if k < group.len() {
            assert(grown[k] == group[k]);
        }
    }
    assert forall|i: int, j: int|
        0 <= i < grown.len() && 0 <= j < grown.len() && i != j implies !in_conflict(
        #[trigger] grown[i],
        #[trigger] grown[j],
    ) by {
        if i < group.len() && j < group.len() {
            assert(grown[i] == group[i] && grown[j] == group[j]);
        } else if i == group.len() {
            assert(grown[j] == group[j]);
            assert(!in_conflict(t, group[j]));
        } else {
            assert(grown[i] == group[i]);
            assert(!in_conflict(t, group[i]));
            lemma_in_conflict_symmetric(t, group[i]);
        }
    }
}

/// When one task of the group holding resources completes, `on_message`
/// releases exactly its share: the scheduler then holds the resources of the
/// rest of the group.
pub proof fn lemma_completed_task_leaves<S, H, R, B: Copy>(
    old: Scheduler<S, H, R, B>,
    new: Scheduler<S, H, R, B>,
    group: Seq<TaskAccess>,
    k: int,
)
    requires
        holds_for(old, group),
        0 <= k < group.len(),
        counts(new.reads_held()) == counts_minus(old.reads_held(), group[k].0),
        new.writes_held() == old.writes_held().difference(id_set(group[k].1)),
    ensures
        holds_for(new, group.remove(k)),
{
    let len = old.reads_held().len();
    lemma_release_leaves_rest(group, old.reads_held(), old.writes_held(), k);
    assert(counts(new.reads_held()).len() == new.reads_held().len());
    assert(new.reads_held().len() == len);
    let rest = group.remove(k);
    assert forall|j: int| 0 <= j < rest.len() implies in_range(#[trigger] rest[j].0, len) by {
        let i = if j < k { j } else { j + 1 };
        assert(rest[j] == group[i]);
    }
    assert forall|a: int, b: int|
        0 <= a < rest.len() && 0 <= b < rest.len() && a != b implies !in_conflict(
        #[trigger] rest[a],
        #[trigger] rest[b],
    ) by {
        let i = if a < k { a } else { a + 1 };
        let j = if b < k { b } else { b + 1 };
        assert(rest[a] == group[i] && rest[b] == group[j]);
    }
}

/// No resource held for writing is also held for reading.
pub open spec fn exclusive(held: Seq<int>, written: Set<usize>) -> bool {
    forall|r: usize| written.contains(r) && r < held.len() ==> held[r as int] == 0
}

/// Obtaining the resources of a task which reads nothing it writes keeps
/// every resource held for writing free of readers.
pub proof fn lemma_obtain_keeps_exclusive(
    held: Seq<u32>,
    written: Set<usize>,
    reads: Seq<ResourceId>,
    writes: Seq<ResourceId>,
)
    requires
        exclusive(counts(held), written),
        !shares(reads, writes),
        obtainable(reads, writes, held, written),
    ensures
        exclusive(counts_plus(held, reads), written.union(id_set(writes))),
{
    assert forall|r: usize|
        written.union(id_set(writes)).contains(r) && r < counts_plus(held, reads).len() implies
        #[trigger] counts_plus(held, reads)[r as int] == 0 by {
        assert forall|k: int| 0 <= k < reads.len() implies (#[trigger] reads[k]).0 != r by {
            if reads[k].0 == r {
                if written.contains(r) {
                    assert(!written.contains(reads[k].0));
                } else {
                    let j = choose|j: int| 0 <= j < writes.len() && (#[trigger] writes[j]).0 == r;
                    assert(reads[k] == writes[j]);
                    assert(shares(reads, writes));
                }
            }
        }
        lemma_count_zero(reads, r as int);
        if written.contains(r) {
            assert(counts(held)[r as int] == 0);
        } else {
            let j = choose|j: int| 0 <= j < writes.len() && (#[trigger] writes[j]).0 == r;
            assert(held[writes[j].0 as int] == 0);
        }
    }
}

proof fn lemma_count_member(ids: Seq<ResourceId>, r: int)
    requires
        count(ids, r) > 0,
    ensures
        exists|j: int| 0 <= j < ids.len() && (#[trigger] ids[j]).0 == r,
{
    if !(exists|j: int| 0 <= j < ids.len() && (#[trigger] ids[j]).0 == r) {
        lemma_count_zero(ids, r);
    }
}

proof fn lemma_held_by_member(tasks: Seq<TaskAccess>, len: nat, r: int)
    requires
        0 <= r < len,
        held_by(tasks, len)[r] > 0,
    ensures
        exists|k: int| 0 <= k < tasks.len() && count(#[trigger] tasks[k].0, r) > 0,
    decreases tasks.len(),
{
    if tasks.len() > 0 {
        let front = tasks.drop_last();
        if count(tasks.last().0, r) > 0 {
            assert(count(tasks[tasks.len() - 1].0, r) > 0);
        } else {
            lemma_held_by_member(front, len, r);
            let k = choose|k: int| 0 <= k < front.len() && count(#[trigger] front[k].0, r) > 0;
            assert(tasks[k] == front[k]);
        }
    }
}

/// No two tasks the scheduler runs at the same time conflict: neither reads
/// what the other writes, and they write nothing in common.
pub proof fn lemma_running_tasks_never_conflict<S, H, R, B: Copy>(s: Scheduler<S, H, R, B>, i: int, j: int)
    requires
        s.holdings_consistent(),
        0 <= i < s.running_tasks().len(),
        0 <= j < s.running_tasks().len(),
        i != j,
    ensures
        !in_conflict(access_of(s, s.running_tasks()[i]), access_of(s, s.running_tasks()[j])),
{
    let group = s.running_accesses();
    assert(group[i] == access_of(s, s.running_tasks()[i]));
    assert(group[j] == access_of(s, s.running_tasks()[j]));
}

/// A scheduler with no task running holds nothing: no resource is counted
/// as read or marked as written.
pub proof fn lemma_nothing_running_holds_nothing<S, H, R, B: Copy>(s: Scheduler<S, H, R, B>)
    requires
        s.holdings_consistent(),
        s.running_tasks().len() == 0,
    ensures
        forall|r: int| 0 <= r < s.reads_held().len() ==> #[trigger] s.reads_held()[r] == 0,
        s.writes_held() == Set::<usize>::empty(),
{
    assert(s.running_accesses() =~= Seq::<TaskAccess>::empty());
    assert forall|r: int| 0 <= r < s.reads_held().len() implies #[trigger] s.reads_held()[r] == 0 by {
        assert(counts(s.reads_held())[r] == s.reads_held()[r] as int);
    }
}

/// A task whose resources cannot be obtained conflicts with some task that
/// is still running, which will release them when it completes.
pub proof fn lemma_refused_task_waits_on_running<S, H, R, B: Copy>(s: Scheduler<S, H, R, B>, task: Task<B>)
    requires
        s.holdings_consistent(),
        in_range(s.task_writes(task), s.reads_held().len()),
        !obtainable(s.task_reads(task), s.task_writes(task), s.reads_held(), s.writes_held()),
    ensures
        exists|k: int|
            0 <= k < s.running_tasks().len() && in_conflict(access_of(s, task), access_of(s, #[trigger] s.running_tasks()[k])),
{
    let group = s.running_accesses();
    let reads = s.task_reads(task);
    let writes = s.task_writes(task);
    let t = access_of(s, task);
    let len = s.reads_held().len();
    let k = if exists|i: int| 0 <= i < reads.len() && s.writes_held().contains((#[trigger] reads[i]).0) {
        let i = choose|i: int| 0 <= i < reads.len() && s.writes_held().contains((#[trigger] reads[i]).0);
        lemma_written_by_members(group, reads[i].0);
        let k = choose|k: int| 0 <= k < group.len() && id_set(#[trigger] group[k].1).contains(reads[i].0);
        let q = choose|q: int| 0 <= q < group[k].1.len() && (#[trigger] group[k].1[q]).0 == reads[i].0;
        assert(reads[i] == group[k].1[q]);
        assert(shares(t.0, group[k].1));
        k
    } else if exists|i: int| 0 <= i < writes.len() && s.writes_held().contains((#[trigger] writes[i]).0) {
        let i = choose|i: int| 0 <= i < writes.len() && s.writes_held().contains((#[trigger] writes[i]).0);
        lemma_written_by_members(group, writes[i].0);
        let k = choose|k: int| 0 <= k < group.len() && id_set(#[trigger] group[k].1).contains(writes[i].0);
        let q = choose|q: int| 0 <= q < group[k].1.len() && (#[trigger] group[k].1[q]).0 == writes[i].0;
        assert(writes[i] == group[k].1[q]);
        assert(shares(t.1, group[k].1));
        k
    } else {
        let i = choose|i: int| 0 <= i < writes.len() && s.reads_held()[(#[trigger] writes[i]).0 as int] != 0;
        let r = writes[i].0 as int;
        assert(0 <= r < len);
        assert(counts(s.reads_held())[r] == s.reads_held()[r] as int);
        lemma_held_by_member(group, len, r);
        let k = choose|k: int| 0 <= k < group.len() && count(#[trigger] group[k].0, r) > 0;
        lemma_count_member(group[k].0, r);
        let q = choose|q: int| 0 <= q < group[k].0.len() && (#[trigger] group[k].0[q]).0 == r;
        assert(writes[i] == group[k].0[q]);
        assert(shares(t.1, group[k].0));
        k
    };
    assert(group[k] == access_of(s, s.running_tasks()[k]));
}

} // verus!
