//! The tables a scheduler is built with: which systems each stage runs, what
//! each system, stage and event pipeline reads and writes, and where each
//! system and event handler is stored.

use crate::collections::{
    handler_ids_from_vec, handler_ids_items, resource_vec_from_vec, resource_vec_items, stage_systems_from_vec,
    stage_systems_items, HandlerIds, ResourceVec, StageSystems,
};
use crate::event::HandlerAccess;
use crate::or_extend::{grown_to, OrExtend};
use crate::ids::{ResourceId, SystemId};
use vstd::prelude::*;

verus! {

/// The position, among all systems in stage order, of the first system of
/// stage `s`.
pub open spec fn offset(ids: Seq<Seq<SystemId>>, s: int) -> int
    decreases s,
{
    if s <= 0 {
        0
    } else {
        offset(ids, s - 1) + ids[s - 1].len()
    }
}

/// `deps[start]`, `deps[start + 1]`, ... `deps[start + n - 1]`, concatenated.
pub open spec fn concat_deps(deps: Seq<Seq<ResourceId>>, start: int, n: int) -> Seq<ResourceId>
    decreases n,
{
    if n <= 0 {
        Seq::<ResourceId>::empty()
    } else {
        concat_deps(deps, start, n - 1) + deps[start + n - 1]
    }
}

/// The views of nested vectors.
pub open spec fn nested<T>(v: Seq<Vec<T>>) -> Seq<Seq<T>> {
    v.map_values(|x: Vec<T>| x@)
}

/// No system ID occurs twice in `ids`.
pub open spec fn ids_distinct(ids: Seq<Seq<SystemId>>) -> bool {
    forall|s1: int, j1: int, s2: int, j2: int|
        0 <= s1 < ids.len() && 0 <= j1 < ids[s1].len() && 0 <= s2 < ids.len() && 0 <= j2 < ids[s2].len() && (s1
            != s2 || j1 != j2) ==> #[trigger] ids[s1][j1] != #[trigger] ids[s2][j2]
}

/// Every system ID of `ids` is below `n`.
pub open spec fn ids_below(ids: Seq<Seq<SystemId>>, n: nat) -> bool {
    forall|s: int, j: int| 0 <= s < ids.len() && 0 <= j < ids[s].len() ==> (#[trigger] ids[s][j]).0 < n
}

/// Some system ID of `ids` is `i`.
pub open spec fn has_id(ids: Seq<Seq<SystemId>>, i: int) -> bool {
    exists|s: int, j: int| 0 <= s < ids.len() && 0 <= j < ids[s].len() && (#[trigger] ids[s][j]).0 == i
}

/// The per-system table `table` holds, for each system of `ids`, the entry
/// of `deps` at its position; other systems have nothing.
pub open spec fn per_system(table: Seq<Seq<ResourceId>>, ids: Seq<Seq<SystemId>>, deps: Seq<Seq<ResourceId>>, n: nat) -> bool {
    &&& table.len() == n
    &&& forall|s: int, j: int|
        0 <= s < ids.len() && 0 <= j < ids[s].len() ==> table[(#[trigger] ids[s][j]).0 as int] == deps[offset(
            ids,
            s,
        ) + j]
    &&& forall|i: int| 0 <= i < n && !has_id(ids, i) ==> (#[trigger] table[i]).len() == 0
}

/// The per-stage table `table` holds, for each stage, the entries of `deps`
/// of its systems, concatenated.
pub open spec fn per_stage(table: Seq<Seq<ResourceId>>, ids: Seq<Seq<SystemId>>, deps: Seq<Seq<ResourceId>>) -> bool {
    &&& table.len() == ids.len()
    &&& forall|s: int| 0 <= s < ids.len() ==> #[trigger] table[s] == concat_deps(deps, offset(ids, s), ids[s].len() as int)
}

pub proof fn lemma_offset_mono(ids: Seq<Seq<SystemId>>, s: int, t: int)
    requires
        0 <= s <= t,
    ensures
        offset(ids, s) <= offset(ids, t),
    decreases t - s,
{
    if s < t {
        lemma_offset_mono(ids, s, t - 1);
    }
}

/// A copy of `v`.
pub(crate) fn copy_ids(v: &Vec<ResourceId>) -> (r: Vec<ResourceId>)
    ensures
        r@ == v@,
{
    let mut r: Vec<ResourceId> = Vec::new();
    let mut k: usize = 0;
    while k < v.len()
        invariant
            k <= v@.len(),
            r@ == v@.take(k as int),
        decreases v@.len() - k,
    {
        r.push(v[k]);
        proof {
            assert(v@.take(k + 1) == v@.take(k as int).push(v@[k as int]));
        }
        k = k + 1;
    }
    proof {
        assert(v@.take(v@.len() as int) == v@);
    }
    r
}

/// Appends a copy of `v` to `target`.
pub(crate) fn append_ids(target: &mut Vec<ResourceId>, v: &Vec<ResourceId>)
    ensures
        final(target)@ == old(target)@ + v@,
{
    let mut copy = copy_ids(v);
    target.append(&mut copy);
}

/// `n` empty `ResourceVec`s.
fn empty_tables(n: usize) -> (r: Vec<ResourceVec>)
    ensures
        r@.len() == n,
        forall|i: int| 0 <= i < n ==> (#[trigger] resource_vec_items(r@[i])).len() == 0,
{
    let mut r: Vec<ResourceVec> = Vec::new();
    let mut k: usize = 0;
    while k < n
        invariant
            k <= n,
            r@.len() == k,
            forall|i: int| 0 <= i < k ==> (#[trigger] resource_vec_items(r@[i])).len() == 0,
        decreases n - k,
    {
        r.push(resource_vec_from_vec(Vec::new()));
        k = k + 1;
    }
    r
}

/// The table of each system's entry of `deps`, and of each stage's entries
/// concatenated.
pub(crate) fn stage_tables(
    stage_ids: &Vec<Vec<SystemId>>,
    deps: &Vec<Vec<ResourceId>>,
    num_systems: usize,
) -> (r: (Vec<ResourceVec>, Vec<ResourceVec>))
    requires
        offset(nested(stage_ids@), stage_ids@.len() as int) <= deps@.len(),
        ids_below(nested(stage_ids@), num_systems as nat),
        ids_distinct(nested(stage_ids@)),
    ensures
        per_system(
            r.0@.map_values(|x: ResourceVec| resource_vec_items(x)),
            nested(stage_ids@),
            nested(deps@),
            num_systems as nat,
        ),
        per_stage(r.1@.map_values(|x: ResourceVec| resource_vec_items(x)), nested(stage_ids@), nested(deps@)),
{
    let ghost ids = nested(stage_ids@);
    let ghost d = nested(deps@);
    let mut system_table = empty_tables(num_systems);
    let mut stage_table: Vec<ResourceVec> = Vec::new();
    let mut counter: usize = 0;
    let mut s: usize = 0;
    while s < stage_ids.len()
        invariant
            ids == nested(stage_ids@),
            d == nested(deps@),
            offset(ids, ids.len() as int) <= d.len(),
            ids_below(ids, num_systems as nat),
            ids_distinct(ids),
            s <= ids.len(),
            counter == offset(ids, s as int),
            system_table@.len() == num_systems,
            forall|s2: int, j2: int|
                0 <= s2 < s && 0 <= j2 < ids[s2].len() ==> resource_vec_items(
                    system_table@[(#[trigger] ids[s2][j2]).0 as int],
                ) == d[offset(ids, s2) + j2],
            forall|i: int|
                0 <= i < num_systems && !(exists|s2: int, j2: int|
                    0 <= s2 < s && 0 <= j2 < ids[s2].len() && (#[trigger] ids[s2][j2]).0 == i) ==> (
                #[trigger] resource_vec_items(system_table@[i])).len() == 0,
            stage_table@.len() == s,
            forall|s2: int|
                0 <= s2 < s ==> resource_vec_items(#[trigger] stage_table@[s2]) == concat_deps(
                    d,
                    offset(ids, s2),
                    ids[s2].len() as int,
                ),
        decreases ids.len() - s,
    {
        proof {
            lemma_offset_mono(ids, s + 1, ids.len() as int);
        }
        let stage = &stage_ids[s];
        let mut stage_deps: Vec<ResourceId> = Vec::new();
        let mut j: usize = 0;
        while j < stage.len()
            invariant
                ids == nested(stage_ids@),
                d == nested(deps@),
                stage@ == ids[s as int],
                s < ids.len(),
                offset(ids, s + 1) <= d.len(),
                ids_below(ids, num_systems as nat),
                ids_distinct(ids),
                j <= stage@.len(),
                counter == offset(ids, s as int) + j,
                system_table@.len() == num_systems,
                forall|s2: int, j2: int|
                    0 <= s2 < ids.len() && 0 <= j2 < ids[s2].len() && (s2 < s || (s2 == s && j2 < j)) ==> resource_vec_items(
                        system_table@[(#[trigger] ids[s2][j2]).0 as int],
                    ) == d[offset(ids, s2) + j2],
                forall|i: int|
                    0 <= i < num_systems && !(exists|s2: int, j2: int|
                        0 <= s2 < ids.len() && 0 <= j2 < ids[s2].len() && (s2 < s || (s2 == s && j2 < j))
                            && (#[trigger] ids[s2][j2]).0 == i) ==> (#[trigger] resource_vec_items(
                        system_table@[i],
                    )).len() == 0,
                stage_deps@ == concat_deps(d, offset(ids, s as int), j as int),
            decreases stage@.len() - j,
        {
            let id = stage[j];
            proof {
                assert(ids[s as int][j as int] == id);
                assert(id.0 < num_systems);
                assert(counter < d.len());
                assert(counter < deps.len());
            }
            let dep = &deps[counter];
            system_table.set(id.0, resource_vec_from_vec(copy_ids(dep)));
            append_ids(&mut stage_deps, dep);
            proof {
                assert forall|s2: int, j2: int|
                    0 <= s2 < ids.len() && 0 <= j2 < ids[s2].len() && (s2 < s || (s2 == s && j2 < j + 1)) implies resource_vec_items(
                    system_table@[(#[trigger] ids[s2][j2]).0 as int],
                ) == d[offset(ids, s2) + j2] by {
                    if s2 != s || j2 != j {
                        assert(ids[s2][j2] != ids[s as int][j as int]);
                    }
                }
                assert forall|i: int|
                    0 <= i < num_systems && !(exists|s2: int, j2: int|
                        0 <= s2 < ids.len() && 0 <= j2 < ids[s2].len() && (s2 < s || (s2 == s && j2 < j + 1))
                            && (#[trigger] ids[s2][j2]).0 == i) implies (#[trigger] resource_vec_items(
                    system_table@[i],
                )).len() == 0 by {
                    assert(ids[s as int][j as int].0 != i);
                }
            }
            counter = counter + 1;
            j = j + 1;
        }
        stage_table.push(resource_vec_from_vec(stage_deps));
        s = s + 1;
    }
    let ghost sys_view = system_table@.map_values(|x: ResourceVec| resource_vec_items(x));
    proof {
        assert forall|i: int| 0 <= i < num_systems && !has_id(ids, i) implies (#[trigger] sys_view[i]).len() == 0 by {
            assert(sys_view[i] == resource_vec_items(system_table@[i]));
        }
        assert forall|s2: int, j2: int|
            0 <= s2 < ids.len() && 0 <= j2 < ids[s2].len() implies sys_view[(#[trigger] ids[s2][j2]).0 as int]
            == d[offset(ids, s2) + j2] by {
            assert(ids[s2][j2].0 < num_systems);
        }
        let st_view = stage_table@.map_values(|x: ResourceVec| resource_vec_items(x));
        assert forall|s2: int| 0 <= s2 < ids.len() implies #[trigger] st_view[s2] == concat_deps(
            d,
            offset(ids, s2),
            ids[s2].len() as int,
        ) by {
            assert(st_view[s2] == resource_vec_items(stage_table@[s2]));
        }
    }
    (system_table, stage_table)
}

/// `n` empty slots.
fn empty_slots<T>(n: usize) -> (r: Vec<Option<T>>)
    ensures
        r@.len() == n,
        forall|i: int| 0 <= i < n ==> (#[trigger] r@[i]) is None,
{
    let mut r: Vec<Option<T>> = Vec::new();
    let mut k: usize = 0;
    while k < n
        invariant
            k <= n,
            r@.len() == k,
            forall|i: int| 0 <= i < k ==> (#[trigger] r@[i]) is None,
        decreases n - k,
    {
        r.push(None);
        k = k + 1;
    }
    r
}

/// Each system of `stages` in the slot of its ID; every other slot empty.
pub(crate) fn place_systems<S>(stages: Vec<Vec<S>>, stage_ids: &Vec<Vec<SystemId>>, num_systems: usize) -> (r: Vec<Option<S>>)
    requires
        stages@.len() == stage_ids@.len(),
        forall|s: int| 0 <= s < stages@.len() ==> (#[trigger] stages@[s])@.len() == stage_ids@[s]@.len(),
        ids_below(nested(stage_ids@), num_systems as nat),
        ids_distinct(nested(stage_ids@)),
    ensures
        r@.len() == num_systems,
        forall|s: int, j: int|
            0 <= s < stage_ids@.len() && 0 <= j < stage_ids@[s]@.len() ==> r@[(#[trigger] nested(stage_ids@)[s][j]).0 as int]
                == Some(nested(stages@)[s][j]),
        forall|i: int| 0 <= i < num_systems && !has_id(nested(stage_ids@), i) ==> (#[trigger] r@[i]) is None,
{
    let ghost ids = nested(stage_ids@);
    let ghost orig = nested(stages@);
    let mut table: Vec<Option<S>> = empty_slots(num_systems);
    let mut stages = stages;
    while stages.len() > 0
        invariant
            ids == nested(stage_ids@),
            orig.len() == ids.len(),
            forall|s: int| 0 <= s < orig.len() ==> (#[trigger] orig[s]).len() == ids[s].len(),
            ids_below(ids, num_systems as nat),
            ids_distinct(ids),
            stages@.len() <= ids.len(),
            forall|s: int| 0 <= s < stages@.len() ==> (#[trigger] stages@[s])@ == orig[s],
            table@.len() == num_systems,
            forall|s2: int, j2: int|
                stages@.len() <= s2 < ids.len() && 0 <= j2 < ids[s2].len() ==> table@[(#[trigger] ids[s2][j2]).0 as int]
                    == Some(orig[s2][j2]),
            forall|i: int|
                0 <= i < num_systems && !(exists|s2: int, j2: int|
                    stages@.len() <= s2 < ids.len() && 0 <= j2 < ids[s2].len() && (#[trigger] ids[s2][j2]).0 == i)
                    ==> (#[trigger] table@[i]) is None,
        decreases stages@.len(),
    {
        let mut stage = stages.pop().unwrap();
        let s = stages.len();
        proof {
            assert(stage@ == orig[s as int]);
        }
        while stage.len() > 0
            invariant
                ids == nested(stage_ids@),
                orig.len() == ids.len(),
                forall|s: int| 0 <= s < orig.len() ==> (#[trigger] orig[s]).len() == ids[s].len(),
                ids_below(ids, num_systems as nat),
                ids_distinct(ids),
                s < ids.len(),
                s == stages@.len(),
                stage@ == orig[s as int].take(stage@.len() as int),
                stage@.len() <= orig[s as int].len(),
                table@.len() == num_systems,
                forall|s2: int, j2: int|
                    0 <= s2 < ids.len() && 0 <= j2 < ids[s2].len() && (s2 > s || (s2 == s && j2 >= stage@.len())) ==> table@[(#[trigger] ids[s2][j2]).0 as int]
                        == Some(orig[s2][j2]),
                forall|i: int|
                    0 <= i < num_systems && !(exists|s2: int, j2: int|
                        0 <= s2 < ids.len() && 0 <= j2 < ids[s2].len() && (s2 > s || (s2 == s && j2 >= stage@.len()))
                            && (#[trigger] ids[s2][j2]).0 == i) ==> (#[trigger] table@[i]) is None,
            decreases stage@.len(),
        {
            let system = stage.pop().unwrap();
            let j = stage.len();
            let id = stage_ids[s][j];
            proof {
                assert(ids[s as int][j as int] == id);
                assert(system == orig[s as int][j as int]);
                assert(id.0 < num_systems);
            }
            table.set(id.0, Some(system));
            proof {
                assert(stage@ =~= orig[s as int].take(j as int));
                assert forall|s2: int, j2: int|
                    0 <= s2 < ids.len() && 0 <= j2 < ids[s2].len() && (s2 > s || (s2 == s && j2 >= j)) implies table@[(#[trigger] ids[s2][j2]).0 as int]
                    == Some(orig[s2][j2]) by {
                    if s2 != s || j2 != j {
                        assert(ids[s2][j2] != ids[s as int][j as int]);
                    }
                }
                assert forall|i: int|
                    0 <= i < num_systems && !(exists|s2: int, j2: int|
                        0 <= s2 < ids.len() && 0 <= j2 < ids[s2].len() && (s2 > s || (s2 == s && j2 >= j))
                            && (#[trigger] ids[s2][j2]).0 == i) implies (#[trigger] table@[i]) is None by {
                    assert(ids[s as int][j as int].0 != i);
                }
            }
        }
    }
    proof {
        assert forall|i: int| 0 <= i < num_systems && !has_id(ids, i) implies (#[trigger] table@[i]) is None by {
        }
    }
    table
}

/// The IDs of each group of handlers.
pub(crate) fn handler_id_table<H>(groups: &Vec<Vec<(H, HandlerAccess)>>) -> (r: Vec<HandlerIds>)
    ensures
        r@.len() == groups@.len(),
        forall|g: int|
            0 <= g < groups@.len() ==> handler_ids_items(#[trigger] r@[g]) == groups@[g]@.map_values(
                |p: (H, HandlerAccess)| p.1.id,
            ),
{
    let mut table: Vec<HandlerIds> = Vec::new();
    let mut g: usize = 0;
    while g < groups.len()
        invariant
            g <= groups@.len(),
            table@.len() == g,
            forall|g2: int|
                0 <= g2 < g ==> handler_ids_items(#[trigger] table@[g2]) == groups@[g2]@.map_values(
                    |p: (H, HandlerAccess)| p.1.id,
                ),
        decreases groups@.len() - g,
    {
        let group = &groups[g];
        let mut ids: Vec<SystemId> = Vec::new();
        let mut k: usize = 0;
        while k < group.len()
            invariant
                g < groups@.len(),
                group@ == groups@[g as int]@,
                k <= group@.len(),
                ids@ == group@.take(k as int).map_values(|p: (H, HandlerAccess)| p.1.id),
            decreases group@.len() - k,
        {
            ids.push(group[k].1.id);
            proof {
                assert(group@.take(k + 1) == group@.take(k as int).push(group@[k as int]));
                assert(ids@ =~= group@.take(k + 1).map_values(|p: (H, HandlerAccess)| p.1.id));
            }
            k = k + 1;
        }
        proof {
            assert(group@.take(group@.len() as int) == group@);
        }
        table.push(handler_ids_from_vec(ids));
        g = g + 1;
    }
    table
}

/// The groups, concatenated in order.
pub open spec fn flat<T>(groups: Seq<Seq<T>>) -> Seq<T>
    decreases groups.len(),
{
    if groups.len() == 0 {
        Seq::<T>::empty()
    } else {
        flat(groups.drop_last()) + groups.last()
    }
}

/// The handlers of all groups, in order.
pub(crate) fn flatten_groups<H>(groups: Vec<Vec<(H, HandlerAccess)>>) -> (r: Vec<(H, HandlerAccess)>)
    ensures
        r@ == flat(nested(groups@)),
{
    let ghost orig = nested(groups@);
    proof {
        assert(orig.len() == groups.len());
    }
    let mut groups = groups;
    let mut out: Vec<(H, HandlerAccess)> = Vec::new();
    let mut k: usize = 0;
    while groups.len() > 0
        invariant
            orig.len() <= usize::MAX,
            k <= orig.len(),
            nested(groups@) == orig.skip(k as int),
            out@ == flat(orig.take(k as int)),
        decreases groups@.len(),
    {
        let ghost gs = groups@;
        proof {
            assert(nested(gs).len() == gs.len());
            assert(orig.skip(k as int).len() == gs.len());
            assert(k < orig.len());
            assert(nested(gs)[0] == orig.skip(k as int)[0]);
        }
        let mut group = groups.remove(0);
        proof {
            assert(group == gs[0]);
            assert(group@ == orig[k as int]);
            assert(orig.take(k + 1).drop_last() =~= orig.take(k as int));
            assert(orig.take(k + 1).last() == orig[k as int]);
            assert forall|i: int| 0 <= i < nested(groups@).len() implies nested(groups@)[i] == orig.skip(k + 1)[i] by {
                assert(groups@[i] == gs[i + 1]);
                assert(nested(gs)[i + 1] == orig.skip(k as int)[i + 1]);
            }
            assert(nested(groups@) =~= orig.skip(k + 1));
        }
        out.append(&mut group);
        k = k + 1;
    }
    proof {
        assert(orig.take(k as int) == orig);
    }
    out
}

/// The IDs of handlers increase strictly in the order they come.
pub open spec fn ids_increasing(accesses: Seq<HandlerAccess>) -> bool {
    forall|i: int, j: int| 0 <= i < j < accesses.len() ==> (#[trigger] accesses[i]).id.0 < (#[trigger] accesses[j]).id.0
}

/// The accesses of `handlers`.
pub open spec fn accesses_of<H>(handlers: Seq<(H, HandlerAccess)>) -> Seq<HandlerAccess> {
    handlers.map_values(|p: (H, HandlerAccess)| p.1)
}

/// Each handler in the slot of its ID, with as many slots as the last ID
/// needs; every other slot empty.
pub(crate) fn place_handlers<H>(handlers: Vec<(H, HandlerAccess)>) -> (r: Vec<Option<H>>)
    requires
        ids_increasing(accesses_of(handlers@)),
        forall|k: int| 0 <= k < handlers@.len() ==> (#[trigger] handlers@[k]).1.id.0 < usize::MAX,
    ensures
        r@.len() == if handlers@.len() == 0 { 0 } else { handlers@.last().1.id.0 + 1 },
        forall|k: int| 0 <= k < handlers@.len() ==> r@[(#[trigger] handlers@[k]).1.id.0 as int] == Some(handlers@[k].0),
        forall|i: int|
            0 <= i < r@.len() && !(exists|k: int| 0 <= k < handlers@.len() && (#[trigger] handlers@[k]).1.id.0 == i) ==> (
            #[trigger] r@[i]) is None,
{
    let ghost orig = handlers@;
    let ghost accs = accesses_of(orig);
    let n = handlers.len();
    let len = if n == 0 {
        0
    } else {
        handlers[n - 1].1.id.0 + 1
    };
    proof {
        assert forall|k: int| 0 <= k < orig.len() implies (#[trigger] orig[k]).1.id.0 < len by {
            if k < orig.len() - 1 {
                assert(accs[k] == orig[k].1 && accs[orig.len() - 1] == orig[orig.len() - 1].1);
                assert(accs[k].id.0 < accs[orig.len() - 1].id.0);
            }
        }
    }
    let mut table: Vec<Option<H>> = empty_slots(len);
    let mut handlers = handlers;
    while handlers.len() > 0
        invariant
            accs == accesses_of(orig),
            ids_increasing(accs),
            forall|k: int| 0 <= k < orig.len() ==> (#[trigger] orig[k]).1.id.0 < len,
            handlers@ == orig.take(handlers@.len() as int),
            handlers@.len() <= orig.len(),
            table@.len() == len,
            forall|k: int| handlers@.len() <= k < orig.len() ==> table@[(#[trigger] orig[k]).1.id.0 as int] == Some(orig[k].0),
            forall|i: int|
                0 <= i < len && !(exists|k: int| handlers@.len() <= k < orig.len() && (#[trigger] orig[k]).1.id.0 == i)
                    ==> (#[trigger] table@[i]) is None,
        decreases handlers@.len(),
    {
        let (handler, access) = handlers.pop().unwrap();
        let k = handlers.len();
        proof {
            assert(orig[k as int] == (handler, access));
            assert(handlers@ =~= orig.take(k as int));
        }
        table.set(access.id.0, Some(handler));
        proof {
            assert forall|k2: int| k <= k2 < orig.len() implies table@[(#[trigger] orig[k2]).1.id.0 as int] == Some(orig[k2].0) by {
                if k2 != k {
                    assert(accs[k as int] == orig[k as int].1 && accs[k2] == orig[k2].1);
                    assert(accs[k as int].id.0 < accs[k2].id.0);
                }
            }
        }
    }
    table
}

/// The entries (reads when `reads`, else writes) of the handlers of event
/// `e`, concatenated in order.
pub open spec fn event_deps(accesses: Seq<HandlerAccess>, e: int, reads: bool) -> Seq<ResourceId>
    decreases accesses.len(),
{
    if accesses.len() == 0 {
        Seq::<ResourceId>::empty()
    } else {
        let last = accesses.last();
        event_deps(accesses.drop_last(), e, reads) + if last.event_id.0 == e {
            if reads {
                last.resource_reads@
            } else {
                last.resource_writes@
            }
        } else {
            Seq::<ResourceId>::empty()
        }
    }
}

/// One more than the largest event ID of `accesses`, or 0 when there is none.
pub open spec fn event_len(accesses: Seq<HandlerAccess>) -> nat
    decreases accesses.len(),
{
    if accesses.len() == 0 {
        0
    } else {
        let rest = event_len(accesses.drop_last());
        let here = (accesses.last().event_id.0 + 1) as nat;
        if rest < here {
            here
        } else {
            rest
        }
    }
}

proof fn lemma_event_deps_past_end(accesses: Seq<HandlerAccess>, e: int, reads: bool)
    requires
        e >= event_len(accesses),
    ensures
        event_deps(accesses, e, reads) == Seq::<ResourceId>::empty(),
    decreases accesses.len(),
{
    if accesses.len() > 0 {
        lemma_event_deps_past_end(accesses.drop_last(), e, reads);
    }
}

/// The entries of each event's handlers, indexed by the `EventId`.
pub(crate) fn event_table<H>(handlers: &Vec<(H, HandlerAccess)>, reads: bool) -> (r: Vec<ResourceVec>)
    requires
        forall|k: int| 0 <= k < handlers@.len() ==> (#[trigger] handlers@[k]).1.event_id.0 < usize::MAX,
    ensures
        r@.len() == event_len(accesses_of(handlers@)),
        forall|e: int|
            0 <= e < r@.len() ==> resource_vec_items(#[trigger] r@[e]) == event_deps(accesses_of(handlers@), e, reads),
{
    let ghost accs = accesses_of(handlers@);
    let mut table: Vec<Vec<ResourceId>> = Vec::new();
    let mut k: usize = 0;
    while k < handlers.len()
        invariant
            accs == accesses_of(handlers@),
            forall|k2: int| 0 <= k2 < handlers@.len() ==> (#[trigger] handlers@[k2]).1.event_id.0 < usize::MAX,
            k <= handlers@.len(),
            table@.len() == event_len(accs.take(k as int)),
            forall|e: int| 0 <= e < table@.len() ==> (#[trigger] table@[e])@ == event_deps(accs.take(k as int), e, reads),
        decreases handlers@.len() - k,
    {
        let access = &handlers[k].1;
        let e = access.event_id.0;
        let ghost before = table@;
        let ghost prefix = accs.take(k as int);
        let ghost prefix1 = accs.take(k + 1);
        proof {
            assert(accs[k as int] == *access);
            assert(prefix1.drop_last() == prefix);
            assert(prefix1.last() == *access);
        }
        let target = table.get_mut_or_extend(e);
        if reads {
            append_ids(target, &access.resource_reads);
        } else {
            append_ids(target, &access.resource_writes);
        }
        proof {
            let grown = choose|grown: Seq<Vec<ResourceId>>|
                {
                    &&& grown_to(before, grown, e as nat)
                    &&& table@ == grown.update(e as int, table@[e as int])
                };
            assert forall|e2: int| 0 <= e2 < table@.len() implies (#[trigger] table@[e2])@ == event_deps(prefix1, e2, reads) by {
                if e2 != e {
                    assert(table@[e2] == grown[e2]);
                    if e2 >= before.len() {
                        assert(call_ensures(Vec::<ResourceId>::default, (), grown[e2]));
                        lemma_event_deps_past_end(prefix, e2, reads);
                    }
                } else {
                    if e >= before.len() {
                        assert(call_ensures(Vec::<ResourceId>::default, (), grown[e as int]));
                        lemma_event_deps_past_end(prefix, e as int, reads);
                    }
                }
            }
        }
        k = k + 1;
    }
    proof {
        assert(accs.take(handlers@.len() as int) == accs);
    }
    let mut out: Vec<ResourceVec> = Vec::new();
    let mut e: usize = 0;
    while e < table.len()
        invariant
            e <= table@.len(),
            out@.len() == e,
            forall|e2: int| 0 <= e2 < e ==> resource_vec_items(#[trigger] out@[e2]) == table@[e2]@,
        decreases table@.len() - e,
    {
        out.push(resource_vec_from_vec(copy_ids(&table[e])));
        e = e + 1;
    }
    out
}

} // verus!
