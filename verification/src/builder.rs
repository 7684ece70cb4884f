//! Building of stage pipelines, which are used to organize system
//! execution order while ensuring resource borrow safety.

use crate::collections::{access_set_contains, access_set_insert, access_set_items, access_set_new, AccessSet};
use crate::event::{HandleStrategy, HandlerAccess};
use crate::ids::{ResourceId, SystemId};
use crate::layout::{accesses_of, append_ids, copy_ids, flat, ids_below, ids_distinct, ids_increasing, nested};
use crate::resources::Resources;
use crate::scheduler::Scheduler;
use crate::or_extend::{grown_to, OrExtend};
use crate::system::{access_to, conflicts, tagged, SystemAccess};
use vstd::prelude::*;

verus! {

/// Access to either a component or a resource. A component is named by the
/// resource ID allocated for its type.
#[derive(Debug, Clone, Copy, PartialEq, Eq, Hash)]
pub enum Access {
    Resource(ResourceId),
    Component(ResourceId),
}

/// Why a system's declared resource accesses are refused.
#[derive(Debug, Clone, Copy, PartialEq, Eq)]
pub enum DepsError {
    /// The system reads and writes the same resource.
    ReadAndWrite,
    /// The system writes the same resource twice.
    DoubleWrite,
}

/// Some resource is both read and written.
pub open spec fn reads_and_writes(reads: Seq<ResourceId>, writes: Seq<ResourceId>) -> bool {
    exists|i: int| 0 <= i < reads.len() && writes.contains(#[trigger] reads[i])
}

/// Some resource is written twice.
pub open spec fn writes_twice(writes: Seq<ResourceId>) -> bool {
    exists|i: int, j: int| 0 <= i < j < writes.len() && #[trigger] writes[i] == #[trigger] writes[j]
}

/// Verifies that there are no conflicts in a system's own resource access,
/// which would allow mutable aliasing: no resource may be both read and
/// written, and none may be written twice.
pub fn assert_valid_deps(reads: &[ResourceId], writes: &[ResourceId]) -> (r: Result<(), DepsError>)
    ensures
        r == Err::<(), DepsError>(DepsError::ReadAndWrite) <==> reads_and_writes(reads@, writes@),
        r == Err::<(), DepsError>(DepsError::DoubleWrite) <==> !reads_and_writes(reads@, writes@)
            && writes_twice(writes@),
        r is Ok <==> !reads_and_writes(reads@, writes@) && !writes_twice(writes@),
{
    let mut i: usize = 0;
    while i < reads.len()
        invariant
            i <= reads@.len(),
            forall|k: int| 0 <= k < i ==> !writes@.contains(#[trigger] reads@[k]),
        decreases reads@.len() - i,
    {
        let mut j: usize = 0;
        while j < writes.len()
            invariant
                i < reads@.len(),
                j <= writes@.len(),
                forall|k: int| 0 <= k < j ==> writes@[k] != reads@[i as int],
            decreases writes@.len() - j,
        {
            if writes[j].0 == reads[i].0 {
                proof {
                    assert(writes@[j as int] == reads@[i as int]);
                    assert(writes@.contains(reads@[i as int]));
                }
                return Err(DepsError::ReadAndWrite);
            }
            j = j + 1;
        }
        i = i + 1;
    }
    let mut i: usize = 0;
    while i < writes.len()
        invariant
            i <= writes@.len(),
            !reads_and_writes(reads@, writes@),
            forall|a: int, b: int| 0 <= a < b < writes@.len() && a < i ==> writes@[a] != writes@[b],
        decreases writes@.len() - i,
    {
        let mut j: usize = i + 1;
        while j < writes.len()
            invariant
                i < writes@.len(),
                i + 1 <= j <= writes@.len(),
                !reads_and_writes(reads@, writes@),
                forall|a: int, b: int| 0 <= a < b < writes@.len() && a < i ==> writes@[a] != writes@[b],
                forall|b: int| i < b < j ==> writes@[i as int] != writes@[b],
            decreases writes@.len() - j,
        {
            if writes[j].0 == writes[i].0 {
                proof {
                    assert(writes@[i as int] == writes@[j as int]);
                }
                return Err(DepsError::DoubleWrite);
            }
            j = j + 1;
        }
        i = i + 1;
    }
    Ok(())
}

/// The union of the accesses read by `accesses`.
pub open spec fn reads_union(accesses: Seq<SystemAccess>) -> Set<Access> {
    Set::new(|x: Access| exists|i: int| 0 <= i < accesses.len() && (#[trigger] accesses[i]).reads().contains(x))
}

/// The union of the accesses written by `accesses`.
pub open spec fn writes_union(accesses: Seq<SystemAccess>) -> Set<Access> {
    Set::new(|x: Access| exists|i: int| 0 <= i < accesses.len() && (#[trigger] accesses[i]).writes().contains(x))
}

/// No two of `accesses` conflict with each other.
pub open spec fn pairwise_conflict_free(accesses: Seq<SystemAccess>) -> bool {
    forall|i: int, j: int|
        0 <= i < accesses.len() && 0 <= j < accesses.len() && i != j ==> !conflicts(
            #[trigger] accesses[i],
            (#[trigger] accesses[j]).reads(),
            accesses[j].writes(),
        )
}

/// A stage of a stage builder: systems which can run in parallel.
pub struct Stage<S> {
    /// Vector of items in this stage.
    systems: Vec<S>,
    /// What each item accesses.
    accesses: Vec<SystemAccess>,
    /// Set of resources which are read by this stage.
    reads: AccessSet,
    /// Set of resources which are written by this stage.
    writes: AccessSet,
}

impl<S> Stage<S> {
    pub closed spec fn systems(&self) -> Seq<S> {
        self.systems@
    }

    pub closed spec fn accesses(&self) -> Seq<SystemAccess> {
        self.accesses@
    }

    pub closed spec fn reads(&self) -> Set<Access> {
        access_set_items(self.reads)
    }

    pub closed spec fn writes(&self) -> Set<Access> {
        access_set_items(self.writes)
    }

    /// The sets are the unions of the systems' accesses, and no two systems
    /// conflict.
    pub open spec fn wf(&self) -> bool {
        &&& self.systems().len() == self.accesses().len()
        &&& self.reads() == reads_union(self.accesses())
        &&& self.writes() == writes_union(self.accesses())
        &&& pairwise_conflict_free(self.accesses())
    }

    /// Creates a new, empty stage.
    pub fn new() -> (r: Self)
        ensures
            r.wf(),
            r.systems() == Seq::<S>::empty(),
            r.accesses() == Seq::<SystemAccess>::empty(),
    {
        let r = Stage { systems: Vec::new(), accesses: Vec::new(), reads: access_set_new(), writes: access_set_new() };
        proof {
            assert(reads_union(r.accesses()) =~= Set::<Access>::empty());
            assert(writes_union(r.accesses()) =~= Set::<Access>::empty());
        }
        r
    }

    /// Returns whether the given system conflicts with this stage.
    pub fn conflicts_with(&self, access: &SystemAccess) -> (r: bool)
        ensures
            r == conflicts(*access, self.reads(), self.writes()),
    {
        let r = any_in(&self.writes, &access.resource_reads, false)
            || any_in(&self.reads, &access.resource_writes, false)
            || any_in(&self.writes, &access.resource_writes, false)
            || any_in(&self.writes, &access.component_reads, true)
            || any_in(&self.reads, &access.component_writes, true)
            || any_in(&self.writes, &access.component_writes, true);
        proof {
            lemma_conflicts_by_parts(*access, self.reads(), self.writes());
        }
        r
    }

    /// Adds a system to this stage.
    pub fn add(&mut self, system: S, access: SystemAccess)
        ensures
            final(self).systems() == old(self).systems().push(system),
            final(self).accesses() == old(self).accesses().push(access),
            final(self).reads() == old(self).reads().union(access.reads()),
            final(self).writes() == old(self).writes().union(access.writes()),
    {
        insert_all(&mut self.reads, &access.resource_reads, false);
        insert_all(&mut self.writes, &access.resource_writes, false);
        insert_all(&mut self.reads, &access.component_reads, true);
        insert_all(&mut self.writes, &access.component_writes, true);
        proof {
            assert(access_set_items(self.reads) =~= old(self).reads().union(access.reads()));
            assert(access_set_items(self.writes) =~= old(self).writes().union(access.writes()));
        }
        self.systems.push(system);
        self.accesses.push(access);
    }
}

/// `conflicts`, split into the six checks `conflicts_with` makes.
proof fn lemma_conflicts_by_parts(a: SystemAccess, reads: Set<Access>, writes: Set<Access>)
    ensures
        conflicts(a, reads, writes) == (tagged(a.resource_reads@, false).intersect(writes) != Set::<Access>::empty()
            || tagged(a.resource_writes@, false).intersect(reads) != Set::<Access>::empty()
            || tagged(a.resource_writes@, false).intersect(writes) != Set::<Access>::empty()
            || tagged(a.component_reads@, true).intersect(writes) != Set::<Access>::empty()
            || tagged(a.component_writes@, true).intersect(reads) != Set::<Access>::empty()
            || tagged(a.component_writes@, true).intersect(writes) != Set::<Access>::empty()),
{
    let e = Set::<Access>::empty();
    let rr = tagged(a.resource_reads@, false);
    let rw = tagged(a.resource_writes@, false);
    let cr = tagged(a.component_reads@, true);
    let cw = tagged(a.component_writes@, true);
    if conflicts(a, reads, writes) {
        if exists|x: Access| a.reads().contains(x) && writes.contains(x) {
            let x = choose|x: Access| a.reads().contains(x) && writes.contains(x);
            if rr.contains(x) {
                assert(rr.intersect(writes).contains(x));
            } else {
                assert(cr.intersect(writes).contains(x));
            }
        } else {
            let x = choose|x: Access| a.writes().contains(x) && (reads.contains(x) || writes.contains(x));
            if rw.contains(x) {
                if reads.contains(x) {
                    assert(rw.intersect(reads).contains(x));
                } else {
                    assert(rw.intersect(writes).contains(x));
                }
            } else {
                if reads.contains(x) {
                    assert(cw.intersect(reads).contains(x));
                } else {
                    assert(cw.intersect(writes).contains(x));
                }
            }
        }
    } else {
        assert(rr.intersect(writes) =~= e);
        assert(rw.intersect(reads) =~= e);
        assert(rw.intersect(writes) =~= e);
        assert(cr.intersect(writes) =~= e);
        assert(cw.intersect(reads) =~= e);
        assert(cw.intersect(writes) =~= e);
    }
}

/// Whether some ID of `ids`, as a component (`component`) or resource access,
/// is in `set`.
fn any_in(set: &AccessSet, ids: &Vec<ResourceId>, component: bool) -> (r: bool)
    ensures
        r == (tagged(ids@, component).intersect(access_set_items(*set)) != Set::<Access>::empty()),
{
    let mut i: usize = 0;
    while i < ids.len()
        invariant
            i <= ids@.len(),
            forall|k: int| 0 <= k < i ==> !access_set_items(*set).contains(#[trigger] access_to(ids@[k], component)),
        decreases ids@.len() - i,
    {
        let a = if component {
            Access::Component(ids[i])
        } else {
            Access::Resource(ids[i])
        };
        if access_set_contains(set, &a) {
            proof {
                assert(ids@.contains(ids@[i as int]));
                assert(tagged(ids@, component).intersect(access_set_items(*set)).contains(a));
            }
            return true;
        }
        proof {
            assert(a == access_to(ids@[i as int], component));
        }
        i = i + 1;
    }
    proof {
        assert forall|x: Access| !#[trigger] tagged(ids@, component).intersect(access_set_items(*set)).contains(x) by {
            if tagged(ids@, component).contains(x) {
                match x {
                    Access::Resource(r) => {
                        let k = choose|k: int| 0 <= k < ids@.len() && ids@[k] == r;
                        assert(access_to(ids@[k], component) == x);
                    },
                    Access::Component(c) => {
                        let k = choose|k: int| 0 <= k < ids@.len() && ids@[k] == c;
                        assert(access_to(ids@[k], component) == x);
                    },
                }
            }
        }
        assert(tagged(ids@, component).intersect(access_set_items(*set)) =~= Set::<Access>::empty());
    }
    false
}

/// Inserts every ID of `ids`, as a component (`component`) or resource access,
/// into `set`.
fn insert_all(set: &mut AccessSet, ids: &Vec<ResourceId>, component: bool)
    ensures
        access_set_items(*final(set)) == access_set_items(*old(set)).union(tagged(ids@, component)),
{
    let ghost start = access_set_items(*set);
    let mut i: usize = 0;
    while i < ids.len()
        invariant
            i <= ids@.len(),
            access_set_items(*set) == start.union(tagged(ids@.take(i as int), component)),
        decreases ids@.len() - i,
    {
        let a = if component {
            Access::Component(ids[i])
        } else {
            Access::Resource(ids[i])
        };
        access_set_insert(set, a);
        proof {
            let t = ids@.take(i as int);
            let t1 = ids@.take(i + 1);
            assert forall|r: ResourceId| t1.contains(r) == (t.contains(r) || r == ids@[i as int]) by {
                if t1.contains(r) {
                    let k = choose|k: int| 0 <= k < t1.len() && t1[k] == r;
                    if k < i {
                        assert(t[k] == r);
                    }
                }
                if t.contains(r) {
                    let k = choose|k: int| 0 <= k < t.len() && t[k] == r;
                    assert(t1[k] == r);
                }
                if r == ids@[i as int] {
                    assert(t1[i as int] == r);
                }
            }
            assert(access_set_items(*set) =~= start.union(tagged(t1, component)));
        }
        i = i + 1;
    }
    proof {
        assert(ids@.take(ids@.len() as int) == ids@);
    }
}

/// Builder of event pipelines.
pub struct EventsBuilder<H> {
    /// End-of-dispatch event handlers, grouped by the `EventId`.
    end_of_dispatch: Vec<Vec<(H, HandlerAccess)>>,
}

impl<H> EventsBuilder<H> {
    /// The handlers of each event, in the order they were added.
    pub closed spec fn groups(&self) -> Seq<Seq<(H, HandlerAccess)>> {
        self.end_of_dispatch@.map_values(|g: Vec<(H, HandlerAccess)>| g@)
    }

    /// Creates a new `EventsBuilder` with no event handlers.
    pub fn new() -> (r: Self)
        ensures
            r.groups() == Seq::<Seq<(H, HandlerAccess)>>::empty(),
    {
        let r = EventsBuilder { end_of_dispatch: Vec::new() };
        proof {
            assert(r.groups() =~= Seq::<Seq<(H, HandlerAccess)>>::empty());
        }
        r
    }

    /// Adds a boxed event handler, in the group of the event it handles.
    pub fn add_boxed(&mut self, handler: H, access: HandlerAccess)
        requires
            access.strategy == HandleStrategy::EndOfTick,
            !reads_and_writes(access.resource_reads@, access.resource_writes@),
            !writes_twice(access.resource_writes@),
        ensures
            ({
                let e = access.event_id.0 as int;
                let old_groups = old(self).groups();
                let new_groups = final(self).groups();
                &&& new_groups.len() == if e < old_groups.len() { old_groups.len() as int } else { e + 1 }
                &&& forall|g: int| 0 <= g < old_groups.len() && g != e ==> new_groups[g] == old_groups[g]
                &&& forall|g: int| old_groups.len() <= g < new_groups.len() && g != e ==> new_groups[g].len() == 0
                &&& new_groups[e] == (if e < old_groups.len() {
                    old_groups[e]
                } else {
                    Seq::<(H, HandlerAccess)>::empty()
                }).push((handler, access))
            }),
    {
        let event_id = access.event_id.0;
        let ghost old_v = self.end_of_dispatch@;
        let group = self.end_of_dispatch.get_mut_or_extend(event_id);
        group.push((handler, access));
        proof {
            let new_v = self.end_of_dispatch@;
            let grown = choose|grown: Seq<Vec<(H, HandlerAccess)>>|
                {
                    &&& grown_to(old_v, grown, event_id as nat)
                    &&& new_v == grown.update(event_id as int, new_v[event_id as int])
                };
            assert forall|g: int| old_v.len() <= g < new_v.len() && g != event_id implies new_v[g]@.len() == 0 by {
                assert(new_v[g] == grown[g]);
                assert(call_ensures(Vec::<(H, HandlerAccess)>::default, (), grown[g]));
            }
        }
    }

    /// Finishes construction of this events builder, returning a
    /// `SchedulerBuilder` which can be used to further add systems.
    pub fn finish<S>(self) -> (r: SchedulerBuilder<S, H>)
        ensures
            r.stages().len() == 0,
            r.events().groups() == self.groups(),
    {
        SchedulerBuilder { stages: Vec::new(), events: self }
    }
}

/// Builder of a stage pipeline.
pub struct SchedulerBuilder<S, H> {
    /// Stages which have been created so far. New systems can
    /// be inserted into existing stages or be added in a new stage.
    stages: Vec<Stage<S>>,
    events: EventsBuilder<H>,
}

/// `k` is the first stage of `stages` with which `access` does not conflict,
/// or the number of stages if it conflicts with all.
pub open spec fn first_fit<S>(stages: Seq<Stage<S>>, access: SystemAccess, k: int) -> bool {
    &&& 0 <= k <= stages.len()
    &&& forall|j: int| 0 <= j < k ==> conflicts(access, (#[trigger] stages[j]).reads(), stages[j].writes())
    &&& k < stages.len() ==> !conflicts(access, stages[k].reads(), stages[k].writes())
}

/// `after` is `before` with `system` added to stage `k` (a new stage when
/// `k` is the number of stages).
pub open spec fn placed<S>(
    before: Seq<Stage<S>>,
    after: Seq<Stage<S>>,
    system: S,
    access: SystemAccess,
    k: int,
) -> bool {
    &&& after.len() == if k < before.len() { before.len() } else { before.len() + 1 }
    &&& forall|j: int| 0 <= j < before.len() && j != k ==> after[j] == before[j]
    &&& after[k].systems() == (if k < before.len() { before[k].systems() } else { Seq::<S>::empty() }).push(system)
    &&& after[k].accesses() == (if k < before.len() {
        before[k].accesses()
    } else {
        Seq::<SystemAccess>::empty()
    }).push(access)
}

impl<S, H> SchedulerBuilder<S, H> {
    pub closed spec fn stages(&self) -> Seq<Stage<S>> {
        self.stages@
    }

    pub closed spec fn events(&self) -> EventsBuilder<H> {
        self.events
    }

    /// Every stage is well formed: in particular, no two systems in a stage
    /// conflict.
    pub open spec fn wf(&self) -> bool {
        forall|k: int| 0 <= k < self.stages().len() ==> (#[trigger] self.stages()[k]).wf()
    }

    /// Creates a new `SchedulerBuilder` with no systems and no event handlers.
    pub fn new() -> (r: Self)
        ensures
            r.wf(),
            r.stages().len() == 0,
            r.events().groups().len() == 0,
    {
        SchedulerBuilder { stages: Vec::new(), events: EventsBuilder::new() }
    }

    /// Adds a boxed system to the stage pipeline: into the first stage it does
    /// not conflict with, or into a new stage after all others.
    pub fn add_boxed(&mut self, system: S, access: SystemAccess)
        requires
            old(self).wf(),
            !reads_and_writes(access.resource_reads@, access.resource_writes@),
            !writes_twice(access.resource_writes@),
        ensures
            final(self).wf(),
            final(self).events() == old(self).events(),
            exists|k: int|
                first_fit(old(self).stages(), access, k) && placed(
                    old(self).stages(),
                    final(self).stages(),
                    system,
                    access,
                    k,
                ),
    {
        let mut i: usize = 0;
        while i < self.stages.len()
            invariant
                self.wf(),
                self.stages() == old(self).stages(),
                self.events() == old(self).events(),
                i <= self.stages@.len(),
                forall|j: int| 0 <= j < i ==> conflicts(access, (#[trigger] self.stages@[j]).reads(), self.stages@[j].writes()),
            decreases self.stages@.len() - i,
        {
            if !self.stages[i].conflicts_with(&access) {
                let ghost before = self.stages@[i as int];
                proof {
                    lemma_add_keeps_wf(before, access);
                }
                let mut stage = self.stages.remove(i);
                stage.add(system, access);
                self.stages.insert(i, stage);
                proof {
                    assert(first_fit(old(self).stages(), access, i as int));
                    assert forall|k: int| 0 <= k < self.stages().len() implies (#[trigger] self.stages()[k]).wf() by {
                        if k != i {
                            assert(self.stages()[k] == old(self).stages()[k]);
                        }
                    }
                    assert(placed(old(self).stages(), self.stages(), system, access, i as int));
                }
                return;
            }
            i = i + 1;
        }
        let mut new_stage = Stage::new();
        proof {
            lemma_add_keeps_wf(new_stage, access);
        }
        new_stage.add(system, access);
        self.stages.push(new_stage);
        proof {
            let k = old(self).stages().len() as int;
            assert(first_fit(old(self).stages(), access, k));
            assert forall|j: int| 0 <= j < self.stages().len() implies (#[trigger] self.stages()[j]).wf() by {
                if j < k {
                    assert(self.stages()[j] == old(self).stages()[j]);
                }
            }
            assert(placed(old(self).stages(), self.stages(), system, access, k));
        }
    }
}

impl<S, H> SchedulerBuilder<S, H> {
    /// Creates a new `Scheduler` based on the stage pipeline which was built:
    /// each system reads its resources and then its components, and so does
    /// each stage, system after system. `num_systems` and `num_resources` are
    /// the numbers of system and resource IDs allocated so far.
    pub fn build<R, B: Copy>(self, resources: Resources<R>, num_systems: usize, num_resources: usize) -> (r: Scheduler<
        S,
        H,
        R,
        B,
    >)
        requires
            self.wf(),
            ids_below(stage_id_seqs(self.stages()), num_systems as nat),
            ids_distinct(stage_id_seqs(self.stages())),
            ids_increasing(accesses_of(flat(self.events().groups()))),
            forall|k: int|
                0 <= k < flat(self.events().groups()).len() ==> (#[trigger] flat(self.events().groups())[k]).1.id.0
                    < usize::MAX && flat(self.events().groups())[k].1.event_id.0 < usize::MAX,
        ensures
            r.laid_out(
                stage_id_seqs(self.stages()),
                self.stages().map_values(|st: Stage<S>| st.systems()),
                self.events().groups(),
                stage_deps(self.stages(), true),
                stage_deps(self.stages(), false),
                resources,
                num_systems as nat,
                num_resources as nat,
            ),
    {
        let ghost orig = self.stages@;
        let ghost ids_all = stage_id_seqs(orig);
        let ghost sys_all = orig.map_values(|st: Stage<S>| st.systems());
        let ghost per_stage_reads = orig.map_values(|st: Stage<S>| st.accesses().map_values(|a: SystemAccess| a.all_reads()));
        let ghost per_stage_writes = orig.map_values(|st: Stage<S>| st.accesses().map_values(|a: SystemAccess| a.all_writes()));
        proof {
            assert(orig.len() == self.stages.len());
        }
        let SchedulerBuilder { stages, events } = self;
        let mut stages = stages;
        let mut systems: Vec<Vec<S>> = Vec::new();
        let mut ids: Vec<Vec<SystemId>> = Vec::new();
        let mut reads: Vec<Vec<ResourceId>> = Vec::new();
        let mut writes: Vec<Vec<ResourceId>> = Vec::new();
        let mut k: usize = 0;
        while stages.len() > 0
            invariant
                orig.len() <= usize::MAX,
                k <= orig.len(),
                forall|i: int| 0 <= i < orig.len() ==> (#[trigger] orig[i]).wf(),
                stages@ == orig.skip(k as int),
                ids_all == stage_id_seqs(orig),
                sys_all == orig.map_values(|st: Stage<S>| st.systems()),
                per_stage_reads == orig.map_values(|st: Stage<S>| st.accesses().map_values(|a: SystemAccess| a.all_reads())),
                per_stage_writes == orig.map_values(|st: Stage<S>| st.accesses().map_values(|a: SystemAccess| a.all_writes())),
                nested(ids@) == ids_all.take(k as int),
                nested(systems@) == sys_all.take(k as int),
                nested(reads@) == flat(per_stage_reads.take(k as int)),
                nested(writes@) == flat(per_stage_writes.take(k as int)),
            decreases stages@.len(),
        {
            let ghost before = stages@;
            proof {
                assert(k < orig.len());
                assert(before[0] == orig[k as int]);
            }
            let stage = stages.remove(0);
            proof {
                assert(stages@ =~= orig.skip(k + 1));
                assert(stage.wf());
            }
            let Stage { systems: stage_systems, accesses, reads: _, writes: _ } = stage;
            let ghost reads_before = nested(reads@);
            let ghost writes_before = nested(writes@);
            let mut stage_ids: Vec<SystemId> = Vec::new();
            let mut j: usize = 0;
            while j < accesses.len()
                invariant
                    j <= accesses@.len(),
                    stage_ids@ == accesses@.take(j as int).map_values(|a: SystemAccess| a.id),
                    nested(reads@) == reads_before + accesses@.take(j as int).map_values(|a: SystemAccess| a.all_reads()),
                    nested(writes@) == writes_before + accesses@.take(j as int).map_values(|a: SystemAccess| a.all_writes()),
                decreases accesses@.len() - j,
            {
                let access = &accesses[j];
                stage_ids.push(access.id);
                let mut r = copy_ids(&access.resource_reads);
                append_ids(&mut r, &access.component_reads);
                let ghost rv = reads@;
                proof {
                    assert(r@ == accesses@[j as int].all_reads());
                }
                reads.push(r);
                proof {
                    assert(nested(reads@) =~= nested(rv).push(accesses@[j as int].all_reads()));
                }
                let mut w = copy_ids(&access.resource_writes);
                append_ids(&mut w, &access.component_writes);
                let ghost wv = writes@;
                proof {
                    assert(w@ == accesses@[j as int].all_writes());
                }
                writes.push(w);
                proof {
                    assert(nested(writes@) =~= nested(wv).push(accesses@[j as int].all_writes()));
                }
                proof {
                    assert(accesses@.take(j + 1) == accesses@.take(j as int).push(accesses@[j as int]));
                    assert(stage_ids@ =~= accesses@.take(j + 1).map_values(|a: SystemAccess| a.id));
                    assert(nested(reads@) =~= reads_before + accesses@.take(j + 1).map_values(|a: SystemAccess| a.all_reads()));
                    assert(nested(writes@) =~= writes_before + accesses@.take(j + 1).map_values(|a: SystemAccess| a.all_writes()));
                }
                j = j + 1;
            }
            proof {
                assert(accesses@.take(accesses@.len() as int) == accesses@);
                assert(per_stage_reads.take(k + 1).drop_last() =~= per_stage_reads.take(k as int));
                assert(per_stage_writes.take(k + 1).drop_last() =~= per_stage_writes.take(k as int));
                assert(per_stage_reads[k as int] == accesses@.map_values(|a: SystemAccess| a.all_reads()));
            }
            let ghost iv = ids@;
            let ghost sv = systems@;
            proof {
                assert(stage_ids@ == ids_all[k as int]);
                assert(stage_systems@ == sys_all[k as int]);
            }
            ids.push(stage_ids);
            systems.push(stage_systems);
            proof {
                assert(nested(ids@) =~= nested(iv).push(ids_all[k as int]));
                assert(nested(systems@) =~= nested(sv).push(sys_all[k as int]));
                assert(ids_all.take(k + 1) =~= ids_all.take(k as int).push(ids_all[k as int]));
                assert(sys_all.take(k + 1) =~= sys_all.take(k as int).push(sys_all[k as int]));
                assert(nested(ids@) =~= ids_all.take(k + 1));
                assert(nested(systems@) =~= sys_all.take(k + 1));
            }
            k = k + 1;
        }
        proof {
            assert(ids_all.take(k as int) == ids_all);
            assert(sys_all.take(k as int) == sys_all);
            assert(per_stage_reads.take(k as int) == per_stage_reads);
            assert(per_stage_writes.take(k as int) == per_stage_writes);
            lemma_flat_len_offset(per_stage_reads, ids_all);
            lemma_flat_len_offset(per_stage_writes, ids_all);
            assert forall|s: int| 0 <= s < systems@.len() implies (#[trigger] systems@[s])@.len() == ids@[s]@.len() by {
                assert(nested(systems@)[s] == sys_all[s]);
                assert(nested(ids@)[s] == ids_all[s]);
                assert(orig[s].wf());
            }
        }
        Scheduler::new(systems, ids, events.end_of_dispatch, reads, writes, resources, num_systems, num_resources)
    }
}

/// The IDs of the systems of each stage.
pub open spec fn stage_id_seqs<S>(stages: Seq<Stage<S>>) -> Seq<Seq<SystemId>> {
    stages.map_values(|st: Stage<S>| st.accesses().map_values(|a: SystemAccess| a.id))
}

/// The reads (`reads`) or writes of each system, stage after stage.
pub open spec fn stage_deps<S>(stages: Seq<Stage<S>>, reads: bool) -> Seq<Seq<ResourceId>> {
    if reads {
        flat(stages.map_values(|st: Stage<S>| st.accesses().map_values(|a: SystemAccess| a.all_reads())))
    } else {
        flat(stages.map_values(|st: Stage<S>| st.accesses().map_values(|a: SystemAccess| a.all_writes())))
    }
}

/// Concatenating groups as long as the groups of `ids` gives as many entries
/// as `ids` has in all.
proof fn lemma_flat_len_offset<T>(groups: Seq<Seq<T>>, ids: Seq<Seq<SystemId>>)
    requires
        groups.len() == ids.len(),
        forall|s: int| 0 <= s < groups.len() ==> (#[trigger] groups[s]).len() == ids[s].len(),
    ensures
        flat(groups).len() == crate::layout::offset(ids, ids.len() as int),
    decreases groups.len(),
{
    if groups.len() > 0 {
        let n = groups.len() - 1;
        lemma_flat_len_offset(groups.drop_last(), ids.drop_last());
        lemma_offset_prefix(ids, n);
    }
}

/// The offset of stage `s` depends only on the stages before it.
proof fn lemma_offset_prefix(ids: Seq<Seq<SystemId>>, s: int)
    requires
        0 <= s < ids.len(),
    ensures
        crate::layout::offset(ids.drop_last(), s) == crate::layout::offset(ids, s),
    decreases s,
{
    if s > 0 {
        lemma_offset_prefix(ids, s - 1);
    }
}

/// Adding a system to a stage it does not conflict with keeps the stage well
/// formed: the sets stay the unions, and no two systems conflict.
pub proof fn lemma_add_keeps_wf<S>(stage: Stage<S>, access: SystemAccess)
    requires
        stage.wf(),
        !conflicts(access, stage.reads(), stage.writes()),
    ensures
        reads_union(stage.accesses().push(access)) == stage.reads().union(access.reads()),
        writes_union(stage.accesses().push(access)) == stage.writes().union(access.writes()),
        pairwise_conflict_free(stage.accesses().push(access)),
{
    let accs = stage.accesses();
    let accs2 = accs.push(access);
    let n = accs.len() as int;
    assert forall|x: Access| reads_union(accs2).contains(x) == stage.reads().union(access.reads()).contains(x) by {
        if reads_union(accs2).contains(x) {
            let i = choose|i: int| 0 <= i < accs2.len() && (#[trigger] accs2[i]).reads().contains(x);
            if i < n {
                assert(accs[i] == accs2[i]);
            }
        }
        if reads_union(accs).contains(x) {
            let i = choose|i: int| 0 <= i < accs.len() && (#[trigger] accs[i]).reads().contains(x);
            assert(accs2[i] == accs[i]);
        }
        if access.reads().contains(x) {
            assert(accs2[n] == access);
        }
    }
    assert forall|x: Access| writes_union(accs2).contains(x) == stage.writes().union(access.writes()).contains(x) by {
        if writes_union(accs2).contains(x) {
            let i = choose|i: int| 0 <= i < accs2.len() && (#[trigger] accs2[i]).writes().contains(x);
            if i < n {
                assert(accs[i] == accs2[i]);
            }
        }
        if writes_union(accs).contains(x) {
            let i = choose|i: int| 0 <= i < accs.len() && (#[trigger] accs[i]).writes().contains(x);
            assert(accs2[i] == accs[i]);
        }
        if access.writes().contains(x) {
            assert(accs2[n] == access);
        }
    }
    assert(reads_union(accs2) =~= stage.reads().union(access.reads()));
    assert(writes_union(accs2) =~= stage.writes().union(access.writes()));
    assert forall|i: int, j: int|
        0 <= i < accs2.len() && 0 <= j < accs2.len() && i != j implies !conflicts(
        #[trigger] accs2[i],
        (#[trigger] accs2[j]).reads(),
        accs2[j].writes(),
    ) by {
        if i < n && j < n {
            assert(accs2[i] == accs[i] && accs2[j] == accs[j]);
        } else if i == n {
            assert(accs2[j] == accs[j]);
            if conflicts(access, accs[j].reads(), accs[j].writes()) {
                if exists|x: Access| access.reads().contains(x) && accs[j].writes().contains(x) {
                    let x = choose|x: Access| access.reads().contains(x) && accs[j].writes().contains(x);
                    assert(writes_union(accs).contains(x));
                } else {
                    let x = choose|x: Access| access.writes().contains(x) && (accs[j].reads().contains(x) || accs[j].writes().contains(x));
                    if accs[j].reads().contains(x) {
                        assert(reads_union(accs).contains(x));
                    } else {
                        assert(writes_union(accs).contains(x));
                    }
                }
            }
        } else {
            assert(j == n);
            assert(accs2[i] == accs[i]);
            if conflicts(accs[i], access.reads(), access.writes()) {
                if exists|x: Access| accs[i].reads().contains(x) && access.writes().contains(x) {
                    let x = choose|x: Access| accs[i].reads().contains(x) && access.writes().contains(x);
                    assert(reads_union(accs).contains(x));
                } else {
                    let x = choose|x: Access| accs[i].writes().contains(x) && (access.reads().contains(x) || access.writes().contains(x));
                    assert(writes_union(accs).contains(x));
                }
            }
        }
    }
}

/// Every stage a well-formed builder holds contains systems of which no two
/// conflict: no system reads what another writes, and no two write the same
/// resource or component.
pub proof fn lemma_stages_conflict_free<S, H>(builder: SchedulerBuilder<S, H>, k: int, i: int, j: int)
    requires
        builder.wf(),
        0 <= k < builder.stages().len(),
        0 <= i < builder.stages()[k].accesses().len(),
        0 <= j < builder.stages()[k].accesses().len(),
        i != j,
    ensures
        ({
            let a = builder.stages()[k].accesses()[i];
            let b = builder.stages()[k].accesses()[j];
            &&& a.reads().disjoint(b.writes())
            &&& a.writes().disjoint(b.reads())
            &&& a.writes().disjoint(b.writes())
        }),
{
    let stage = builder.stages()[k];
    assert(stage.wf());
    let a = stage.accesses()[i];
    let b = stage.accesses()[j];
    assert(!conflicts(a, b.reads(), b.writes()));
    assert(!conflicts(b, a.reads(), a.writes()));
}

} // verus!
