//! Partition of a workflow's runnable tasks into stages that can run one
//! after another, the tasks of a stage concurrently.

use vstd::prelude::*;
use crate::structure::{Task, WorkFlow};

verus! {

/// Why no plan exists.
pub enum PlanError {
    /// A task depends on a name that is no task of the workflow.
    UnknownDependency(String),
    /// The runnable tasks admit no order that puts every dependency first.
    CycleDetected,
}

pub open spec fn runnable(wf: &WorkFlow, i: int) -> bool {
    wf.tasks@[i].1.is_runnable()
}

pub open spec fn dep_names(wf: &WorkFlow, v: int) -> Seq<Seq<char>> {
    wf.tasks@[v].1.dep_names()
}

/// Task `v` lists task `u` among its dependencies.
pub open spec fn depends_on(wf: &WorkFlow, v: int, u: int) -> bool {
    exists|d: int| 0 <= d < dep_names(wf, v).len() && dep_names(wf, v)[d] == wf.task_name(u)
}

/// Every dependency of every task names a task of the workflow.
pub open spec fn deps_known(wf: &WorkFlow) -> bool {
    forall|v: int, d: int|
        0 <= v < wf.tasks@.len() && 0 <= d < dep_names(wf, v).len() ==> wf.has_task(#[trigger] dep_names(wf, v)[d])
}

/// Every dependency of a runnable task is itself runnable.
pub open spec fn runnable_closed(wf: &WorkFlow) -> bool {
    forall|v: int, u: int|
        0 <= v < wf.tasks@.len() && 0 <= u < wf.tasks@.len() && runnable(wf, v) && #[trigger] depends_on(wf, v, u)
            ==> runnable(wf, u)
}

/// `rank` numbers the tasks so that each runnable task comes after each of
/// its dependencies, and those are runnable.
pub open spec fn is_schedule_rank(wf: &WorkFlow, rank: Seq<nat>) -> bool {
    &&& rank.len() == wf.tasks@.len()
    &&& forall|v: int, u: int|
        0 <= v < wf.tasks@.len() && 0 <= u < wf.tasks@.len() && runnable(wf, v) && #[trigger] depends_on(wf, v, u)
            ==> runnable(wf, u) && rank[u] < rank[v]
}

/// The runnable tasks can all be scheduled.
pub open spec fn schedulable(wf: &WorkFlow) -> bool {
    exists|rank: Seq<nat>| is_schedule_rank(wf, rank)
}

/// The dependency graph among runnable tasks has a topological numbering,
/// that is, it has no cycle.
pub open spec fn acyclic(wf: &WorkFlow) -> bool {
    exists|rank: Seq<nat>| is_topological_rank(wf, rank)
}

/// `rank` numbers the runnable tasks so that each comes after each of its
/// runnable dependencies.
pub open spec fn is_topological_rank(wf: &WorkFlow, rank: Seq<nat>) -> bool {
    rank.len() == wf.tasks@.len() && forall|v: int, u: int|
        0 <= v < wf.tasks@.len() && 0 <= u < wf.tasks@.len() && runnable(wf, v) && runnable(wf, u)
            && #[trigger] depends_on(wf, v, u) ==> rank[u] < rank[v]
}

/// `name` is the name of a runnable task.
pub open spec fn names_runnable_task(wf: &WorkFlow, name: Seq<char>) -> bool {
    exists|i: int| 0 <= i < wf.tasks@.len() && runnable(wf, i) && #[trigger] wf.task_name(i) == name
}

/// Task `i` is placed in stage `k` at position `j`.
pub open spec fn placed(wf: &WorkFlow, stages: Seq<Vec<String>>, k: int, j: int, i: int) -> bool {
    0 <= k < stages.len() && 0 <= j < stages[k]@.len() && 0 <= i < wf.tasks@.len() && stages[k]@[j]@
        == wf.task_name(i)
}

/// `stages` is the plan of `wf`: every runnable task sits in exactly one
/// stage and nothing else does, no stage is empty, each task comes in a
/// later stage than each of its dependencies, and in the stage right after
/// the latest of them.
pub open spec fn is_plan(wf: &WorkFlow, stages: Seq<Vec<String>>) -> bool {
    &&& forall|k: int| 0 <= k < stages.len() ==> #[trigger] stages[k]@.len() > 0
    &&& forall|k: int, j: int|
        0 <= k < stages.len() && 0 <= j < stages[k]@.len() ==> names_runnable_task(wf, #[trigger] stages[k]@[j]@)
    &&& forall|i: int|
        0 <= i < wf.tasks@.len() && #[trigger] runnable(wf, i) ==> exists|k: int, j: int| #[trigger] placed(wf, stages, k, j, i)
    &&& forall|k1: int, j1: int, k2: int, j2: int, i: int|
        #[trigger] placed(wf, stages, k1, j1, i) && #[trigger] placed(wf, stages, k2, j2, i) ==> k1 == k2 && j1 == j2
    &&& forall|v: int, u: int, k1: int, j1: int, k2: int, j2: int|
        #[trigger] placed(wf, stages, k1, j1, u) && #[trigger] placed(wf, stages, k2, j2, v) && depends_on(wf, v, u)
            ==> k1 < k2
    &&& forall|v: int, k: int, j: int|
        #[trigger] placed(wf, stages, k, j, v) && k > 0 ==> exists|u: int, j2: int|
            #[trigger] placed(wf, stages, k - 1, j2, u) && depends_on(wf, v, u)
}

// ---- indices of dependencies and levels ------------------------------------

/// `dg[v]` lists, for each dependency of task `v`, the position of the task
/// it names.
spec fn edges_resolved(wf: &WorkFlow, dg: Seq<Vec<usize>>) -> bool {
    &&& dg.len() == wf.tasks@.len()
    &&& forall|v: int| 0 <= v < dg.len() ==> (#[trigger] dg[v])@.len() == dep_names(wf, v).len()
    &&& forall|v: int, d: int|
        0 <= v < dg.len() && 0 <= d < dg[v]@.len() ==> #[trigger] dg[v]@[d] < dg.len() && wf.task_name(
            dg[v]@[d] as int,
        ) == dep_names(wf, v)[d]
}

spec fn dep(dg: Seq<Vec<usize>>, v: int, d: int) -> int {
    dg[v]@[d] as int
}

/// Levels given so far respect the dependencies and lie below `round`.
spec fn levels_ok(wf: &WorkFlow, dg: Seq<Vec<usize>>, lv: Seq<Option<usize>>, round: int) -> bool {
    &&& lv.len() == dg.len()
    &&& forall|v: int|
        0 <= v < lv.len() && (#[trigger] lv[v]) is Some ==> runnable(wf, v) && lv[v]->Some_0 < round && forall|d: int|
            0 <= d < dg[v]@.len() ==> lv[dep(dg, v, d)] is Some && lv[dep(dg, v, d)]->Some_0 < lv[v]->Some_0
}

/// Each level above zero comes right after the level of one of the task's
/// dependencies.
spec fn levels_tight(dg: Seq<Vec<usize>>, lv: Seq<Option<usize>>) -> bool {
    forall|v: int|
        0 <= v < lv.len() && (#[trigger] lv[v]) is Some && lv[v]->Some_0 > 0 ==> exists|d: int|
            0 <= d < dg[v]@.len() && lv[dep(dg, v, d)] == Some((lv[v]->Some_0 - 1) as usize)
}

/// Once a round has passed, each runnable task still without a level waits
/// on a dependency without one or given one in the last round.
spec fn levels_pending(wf: &WorkFlow, dg: Seq<Vec<usize>>, lv: Seq<Option<usize>>, round: int) -> bool {
    round > 0 ==> forall|v: int|
        0 <= v < lv.len() && runnable(wf, v) && (#[trigger] lv[v]) is None ==> exists|d: int|
            0 <= d < dg[v]@.len() && (lv[dep(dg, v, d)] is None || lv[dep(dg, v, d)] == Some((round - 1) as usize))
}

/// Some task has level `r`.
spec fn level_used(lv: Seq<Option<usize>>, r: int) -> bool {
    exists|v: int| 0 <= v < lv.len() && lv[v] == Some(r as usize)
}

/// Every level below `round` is given to some task.
spec fn levels_used(lv: Seq<Option<usize>>, round: int) -> bool {
    forall|r: int| 0 <= r < round ==> #[trigger] level_used(lv, r)
}

/// Task `v` has no level yet, is runnable, and all its dependencies have one.
spec fn ready(wf: &WorkFlow, dg: Seq<Vec<usize>>, lv: Seq<Option<usize>>, v: int) -> bool {
    runnable(wf, v) && lv[v] is None && forall|d: int| 0 <= d < dg[v]@.len() ==> lv[dep(dg, v, d)] is Some
}

spec fn num_unset(s: Seq<Option<usize>>) -> nat
    decreases s.len(),
{
    if s.len() == 0 {
        0
    } else {
        num_unset(s.drop_last()) + if s.last() is None { 1nat } else { 0nat }
    }
}

proof fn lemma_unset_all(s: Seq<Option<usize>>)
    requires
        forall|i: int| 0 <= i < s.len() ==> s[i] is None,
    ensures
        num_unset(s) == s.len(),
    decreases s.len(),
{
    if s.len() > 0 {
        lemma_unset_all(s.drop_last());
    }
}

proof fn lemma_unset_update(s: Seq<Option<usize>>, i: int, x: Option<usize>)
    requires
        0 <= i < s.len(),
        s[i] is None,
        x is Some,
    ensures
        num_unset(s.update(i, x)) + 1 == num_unset(s),
    decreases s.len(),
{
    let t = s.update(i, x);
    if i == s.len() - 1 {
        assert(t.drop_last() =~= s.drop_last());
    } else {
        assert(t.drop_last() =~= s.drop_last().update(i, x));
        lemma_unset_update(s.drop_last(), i, x);
    }
}

proof fn lemma_edge(wf: &WorkFlow, dg: Seq<Vec<usize>>, v: int, d: int)
    requires
        edges_resolved(wf, dg),
        0 <= v < dg.len(),
        0 <= d < dg[v]@.len(),
    ensures
        0 <= dep(dg, v, d) < dg.len(),
        wf.task_name(dep(dg, v, d)) == dep_names(wf, v)[d],
        dg[v]@.len() == dep_names(wf, v).len(),
{
    assert(dg[v]@.len() == dep_names(wf, v).len());
}

proof fn lemma_depends_on_index(wf: &WorkFlow, dg: Seq<Vec<usize>>, v: int, u: int)
    requires
        wf.wf(),
        edges_resolved(wf, dg),
        0 <= v < dg.len(),
        0 <= u < dg.len(),
    ensures
        depends_on(wf, v, u) <==> exists|d: int| 0 <= d < dg[v]@.len() && dep(dg, v, d) == u,
{
    if depends_on(wf, v, u) {
        let d = choose|d: int| 0 <= d < dep_names(wf, v).len() && dep_names(wf, v)[d] == wf.task_name(u);
        assert(dg[v]@.len() == dep_names(wf, v).len());
        lemma_edge(wf, dg, v, d);
        assert(dep(dg, v, d) == u);
    }
    if exists|d: int| 0 <= d < dg[v]@.len() && dep(dg, v, d) == u {
        let d = choose|d: int| 0 <= d < dg[v]@.len() && dep(dg, v, d) == u;
        lemma_edge(wf, dg, v, d);
    }
}

/// When no task is ready, a schedule rank forces every runnable task to
/// have a level below `r` once its rank is below `r`.
proof fn lemma_rank_levels(wf: &WorkFlow, dg: Seq<Vec<usize>>, lv: Seq<Option<usize>>, rank: Seq<nat>, r: nat)
    requires
        wf.wf(),
        edges_resolved(wf, dg),
        lv.len() == dg.len(),
        is_schedule_rank(wf, rank),
        forall|v: int|
            0 <= v < lv.len() && runnable(wf, v) && (#[trigger] lv[v]) is None ==> exists|d: int|
                0 <= d < dg[v]@.len() && lv[dep(dg, v, d)] is None,
    ensures
        forall|v: int| 0 <= v < lv.len() && runnable(wf, v) && rank[v] < r ==> (#[trigger] lv[v]) is Some,
    decreases r,
{
    if r > 0 {
        lemma_rank_levels(wf, dg, lv, rank, (r - 1) as nat);
        assert forall|v: int| 0 <= v < lv.len() && runnable(wf, v) && rank[v] < r implies (#[trigger] lv[v]) is Some by {
            if lv[v] is None && rank[v] == r - 1 {
                let d = choose|d: int| 0 <= d < dg[v]@.len() && lv[dep(dg, v, d)] is None;
                let u = dep(dg, v, d);
                lemma_edge(wf, dg, v, d);
                lemma_depends_on_index(wf, dg, v, u);
                assert(depends_on(wf, v, u));
                assert(runnable(wf, u) && rank[u] < rank[v]);
            }
        }
    }
}

/// Positions of the tasks that the dependencies of task `v` name.
fn resolve_row(wf: &WorkFlow, v: usize) -> (r: Result<Vec<usize>, PlanError>)
    requires
        v < wf.tasks@.len(),
    ensures
        r matches Ok(row) ==> row@.len() == dep_names(wf, v as int).len() && forall|e: int|
            0 <= e < row@.len() ==> #[trigger] row@[e] < wf.tasks@.len() && wf.task_name(row@[e] as int) == dep_names(
                wf,
                v as int,
            )[e],
        r matches Err(e) ==> e matches PlanError::UnknownDependency(n) && !wf.has_task(n@) && exists|d: int|
            0 <= d < dep_names(wf, v as int).len() && dep_names(wf, v as int)[d] == n@,
{
    let n = wf.tasks.len();
    let mut row: Vec<usize> = Vec::new();
    match &wf.tasks[v].1.dependencies {
        Some(list) => {
            let mut d: usize = 0;
            while d < list.len()
                invariant
                    n == wf.tasks@.len(),
                    0 <= v < n,
                    wf.tasks@[v as int].1.dependencies == Some(*list),
                    0 <= d <= list@.len(),
                    row@.len() == d,
                    forall|e: int|
                        0 <= e < d ==> #[trigger] row@[e] < n && wf.task_name(row@[e] as int) == dep_names(wf, v as int)[e],
                decreases list@.len() - d,
            {
                let name = list[d].name();
                assert(dep_names(wf, v as int)[d as int] == name@);
                let k = match find_task(wf, name) {
                    Some(k) => k,
                    None => {
                        return Err(PlanError::UnknownDependency(name.clone()));
                    },
                };
                let ghost row0 = row@;
                row.push(k);
                proof {
                    assert forall|e: int| 0 <= e < d + 1 implies #[trigger] row@[e] < n && wf.task_name(row@[e] as int)
                        == dep_names(wf, v as int)[e] by {
                        if e < d {
                            assert(row@[e] == row0[e]);
                        }
                    }
                }
                d += 1;
            }
            Ok(row)
        },
        None => Ok(row),
    }
}

/// Positions of the tasks that each dependency of each task names.
fn resolve_edges(wf: &WorkFlow) -> (r: Result<Vec<Vec<usize>>, PlanError>)
    requires
        wf.wf(),
    ensures
        r matches Ok(dg) ==> edges_resolved(wf, dg@) && deps_known(wf),
        r matches Err(e) ==> e matches PlanError::UnknownDependency(n) && !wf.has_task(n@) && exists|v: int, d: int|
            0 <= v < wf.tasks@.len() && 0 <= d < dep_names(wf, v).len() && dep_names(wf, v)[d] == n@,
{
    let n = wf.tasks.len();
    let mut dg: Vec<Vec<usize>> = Vec::new();
    let mut v: usize = 0;
    while v < n
        invariant
            n == wf.tasks@.len(),
            0 <= v <= n,
            dg@.len() == v,
            forall|w: int| 0 <= w < v ==> (#[trigger] dg@[w])@.len() == dep_names(wf, w).len(),
            forall|w: int, d: int|
                0 <= w < v && 0 <= d < dg@[w]@.len() ==> #[trigger] dg@[w]@[d] < n && wf.task_name(dg@[w]@[d] as int)
                    == dep_names(wf, w)[d],
        decreases n - v,
    {
        let row = match resolve_row(wf, v) {
            Ok(row) => row,
            Err(e) => {
                return Err(e);
            },
        };
        let ghost before = dg@;
        let ghost rowg = row@;
        dg.push(row);
        proof {
            assert(dg@[v as int]@ == rowg);
            assert forall|w: int| 0 <= w < v + 1 implies (#[trigger] dg@[w])@.len() == dep_names(wf, w).len() by {
                if w < v {
                    assert(dg@[w] == before[w]);
                }
            }
            assert forall|w: int, d: int| 0 <= w < v + 1 && 0 <= d < dg@[w]@.len() implies #[trigger] dg@[w]@[d] < n
                && wf.task_name(dg@[w]@[d] as int) == dep_names(wf, w)[d] by {
                if w < v {
                    assert(dg@[w] == before[w]);
                } else {
                    assert(dg@[w]@[d] == rowg[d]);
                }
            }
        }
        v += 1;
    }
    proof {
        assert forall|w: int, d: int|
            0 <= w < wf.tasks@.len() && 0 <= d < dep_names(wf, w).len() implies wf.has_task(
            #[trigger] dep_names(wf, w)[d],
        ) by {
            assert(dg@[w]@.len() == dep_names(wf, w).len());
            assert(dg@[w]@[d] < n);
            assert(wf.tasks@[dg@[w]@[d] as int].0@ == dep_names(wf, w)[d]);
        }
    }
    Ok(dg)
}

/// Position of the task called `name`.
fn find_task(wf: &WorkFlow, name: &String) -> (r: Option<usize>)
    ensures
        r matches Some(k) ==> k < wf.tasks@.len() && wf.task_name(k as int) == name@,
        r is None ==> !wf.has_task(name@),
{
    let mut k: usize = 0;
    while k < wf.tasks.len()
        invariant
            0 <= k <= wf.tasks@.len(),
            forall|w: int| 0 <= w < k ==> wf.task_name(w) != name@,
        decreases wf.tasks@.len() - k,
    {
        if wf.tasks[k].0 == *name {
            return Some(k);
        }
        k += 1;
    }
    proof {
        if wf.has_task(name@) {
            let i = choose|i: int| 0 <= i < wf.tasks@.len() && wf.tasks@[i].0@ == name@;
            assert(wf.task_name(i) != name@);
        }
    }
    None
}

fn is_runnable(task: &Task) -> (r: bool)
    ensures
        r == task.is_runnable(),
{
    match task.run {
        Some(false) => false,
        _ => true,
    }
}

/// Whether every dependency in `row` already has a level.
fn deps_leveled(level: &Vec<Option<usize>>, row: &Vec<usize>) -> (r: bool)
    requires
        forall|d: int| 0 <= d < row@.len() ==> row@[d] < level@.len(),
    ensures
        r == forall|d: int| 0 <= d < row@.len() ==> level@[row@[d] as int] is Some,
{
    let mut d: usize = 0;
    while d < row.len()
        invariant
            0 <= d <= row@.len(),
            forall|e: int| 0 <= e < row@.len() ==> row@[e] < level@.len(),
            forall|e: int| 0 <= e < d ==> level@[row@[e] as int] is Some,
        decreases row@.len() - d,
    {
        if level[row[d]].is_none() {
            return false;
        }
        d += 1;
    }
    true
}

/// Tasks that are ready in `level`, in increasing position.
fn frontier(wf: &WorkFlow, dg: &Vec<Vec<usize>>, level: &Vec<Option<usize>>) -> (f: Vec<usize>)
    requires
        wf.wf(),
        edges_resolved(wf, dg@),
        level@.len() == dg@.len(),
    ensures
        forall|t: int| 0 <= t < f@.len() ==> f@[t] < level@.len() && ready(wf, dg@, level@, f@[t] as int),
        forall|v: int| 0 <= v < level@.len() && ready(wf, dg@, level@, v) ==> f@.contains(v as usize),
        forall|a: int, b: int| 0 <= a < b < f@.len() ==> f@[a] < f@[b],
{
    let n = dg.len();
    let mut f: Vec<usize> = Vec::new();
    let mut v: usize = 0;
    while v < n
        invariant
            n == dg@.len(),
            n == wf.tasks@.len(),
            edges_resolved(wf, dg@),
            level@.len() == n,
            0 <= v <= n,
            forall|t: int| 0 <= t < f@.len() ==> f@[t] < v && ready(wf, dg@, level@, f@[t] as int),
            forall|w: int| 0 <= w < v && ready(wf, dg@, level@, w) ==> f@.contains(w as usize),
            forall|a: int, b: int| 0 <= a < b < f@.len() ==> f@[a] < f@[b],
        decreases n - v,
    {
        proof {
            assert forall|d: int| 0 <= d < dg@[v as int]@.len() implies dg@[v as int]@[d] < level@.len() by {
                lemma_edge(wf, dg@, v as int, d);
            }
        }
        if is_runnable(&wf.tasks[v].1) && level[v].is_none() && deps_leveled(level, &dg[v]) {
            let ghost before = f@;
            f.push(v);
            proof {
                assert(f@[f@.len() - 1] == v);
                assert forall|w: int| 0 <= w < v + 1 && ready(wf, dg@, level@, w) implies f@.contains(w as usize) by {
                    if w < v {
                        let t = choose|t: int| 0 <= t < before.len() && before[t] == w as usize;
                        assert(f@[t] == w as usize);
                    }
                }
            }
        } else {
            proof {
                if runnable(wf, v as int) && level@[v as int] is None {
                    let d = choose|d: int| 0 <= d < dg@[v as int]@.len() && !(level@[dg@[v as int]@[d] as int] is Some);
                    assert(!(level@[dep(dg@, v as int, d)] is Some));
                }
            }
        }
        v += 1;
    }
    f
}

/// The stages of `wf`: its runnable tasks partitioned so that each stage
/// only depends on earlier ones, each task placed as early as its
/// dependencies allow.
///
/// Fails with `UnknownDependency` when a task depends on a name that is no
/// task, and otherwise with `CycleDetected` exactly when the runnable tasks
/// cannot all be ordered after their dependencies.
pub fn plan(wf: &WorkFlow) -> (r: Result<Vec<Vec<String>>, PlanError>)
    requires
        wf.wf(),
    ensures
        r is Ok <==> deps_known(wf) && schedulable(wf),
        r matches Ok(stages) ==> is_plan(wf, stages@),
        r matches Err(PlanError::UnknownDependency(n)) ==> !wf.has_task(n@) && exists|v: int, d: int|
            0 <= v < wf.tasks@.len() && 0 <= d < dep_names(wf, v).len() && dep_names(wf, v)[d] == n@,
        r matches Err(PlanError::CycleDetected) ==> deps_known(wf) && !schedulable(wf),
        forall|path: Seq<int>|
            #[trigger] is_runnable_cycle(wf, path) && deps_known(wf) ==> r matches Err(PlanError::CycleDetected),
        !deps_known(wf) ==> r matches Err(PlanError::UnknownDependency(_)),
        deps_known(wf) && runnable_closed(wf) ==> (r is Ok <==> acyclic(wf)),
{
    let dg = match resolve_edges(wf) {
        Ok(dg) => dg,
        Err(e) => {
            proof {
                if let PlanError::UnknownDependency(n) = &e {
                    let (v, d) = choose|v: int, d: int|
                        0 <= v < wf.tasks@.len() && 0 <= d < dep_names(wf, v).len() && dep_names(wf, v)[d] == n@;
                    assert(!wf.has_task(dep_names(wf, v)[d]));
                    assert(!deps_known(wf));
                }
            }
            return Err(e);
        },
    };
    let n = dg.len();
    let mut level: Vec<Option<usize>> = Vec::new();
    let mut i: usize = 0;
    while i < n
        invariant
            0 <= i <= n,
            level@.len() == i,
            forall|w: int| 0 <= w < i ==> level@[w] is None,
        decreases n - i,
    {
        level.push(None);
        i += 1;
    }
    let mut round: usize = 0;
    proof {
        lemma_unset_all(level@);
    }
    loop
        invariant
            n == dg@.len(),
            n == wf.tasks@.len(),
            wf.wf(),
            edges_resolved(wf, dg@),
            deps_known(wf),
            levels_ok(wf, dg@, level@, round as int),
            levels_tight(dg@, level@),
            levels_pending(wf, dg@, level@, round as int),
            levels_used(level@, round as int),
            round <= n - num_unset(level@),
            num_unset(level@) <= n,
        ensures
            n == dg@.len(),
            levels_ok(wf, dg@, level@, round as int),
            levels_tight(dg@, level@),
            levels_used(level@, round as int),
            forall|w: int|
                0 <= w < level@.len() && runnable(wf, w) && (#[trigger] level@[w]) is None ==> exists|d: int|
                    0 <= d < dg@[w]@.len() && level@[dep(dg@, w, d)] is None,
        decreases num_unset(level@),
    {
        let f = frontier(wf, &dg, &level);
        if f.len() == 0 {
            proof {
                let lv = level@;
                assert forall|w: int|
                    0 <= w < lv.len() && runnable(wf, w) && (#[trigger] lv[w]) is None implies exists|d: int|
                    0 <= d < dg@[w]@.len() && lv[dep(dg@, w, d)] is None by {
                    assert(!f@.contains(w as usize));
                    assert(!ready(wf, dg@, lv, w));
                    let d = choose|d: int| 0 <= d < dg@[w]@.len() && !(lv[dep(dg@, w, d)] is Some);
                }
            }
            break;
        }
        let ghost lv0 = level@;
        let mut t: usize = 0;
        while t < f.len()
            invariant
                n == level@.len(),
                lv0.len() == n,
                0 <= t <= f@.len(),
                forall|s: int| 0 <= s < f@.len() ==> f@[s] < n && ready(wf, dg@, lv0, f@[s] as int),
                forall|a: int, b: int| 0 <= a < b < f@.len() ==> f@[a] < f@[b],
                forall|w: int|
                    0 <= w < n ==> #[trigger] level@[w] == (if f@.subrange(0, t as int).contains(w as usize) {
                        Some(round)
                    } else {
                        lv0[w]
                    }),
                num_unset(level@) + t == num_unset(lv0),
            decreases f@.len() - t,
        {
            let x = f[t];
            proof {
                if f@.subrange(0, t as int).contains(x) {
                    let s = choose|s: int| 0 <= s < t && #[trigger] f@.subrange(0, t as int)[s] == x;
                    assert(f@[s] < f@[t as int]);
                }
                assert(level@[x as int] is None);
                lemma_unset_update(level@, x as int, Some(round));
            }
            level[x] = Some(round);
            proof {
                assert forall|w: int|
                    0 <= w < n implies #[trigger] level@[w] == (if f@.subrange(0, t + 1).contains(w as usize) {
                    Some(round)
                } else {
                    lv0[w]
                }) by {
                    if f@.subrange(0, t + 1).contains(w as usize) {
                        let s = choose|s: int| 0 <= s < t + 1 && #[trigger] f@.subrange(0, t + 1)[s] == w as usize;
                        if s < t {
                            assert(f@.subrange(0, t as int)[s] == w as usize);
                        }
                    } else {
                        assert(f@.subrange(0, t + 1)[t as int] == x);
                        if f@.subrange(0, t as int).contains(w as usize) {
                            let s = choose|s: int| 0 <= s < t && #[trigger] f@.subrange(0, t as int)[s] == w as usize;
                            assert(f@.subrange(0, t + 1)[s] == w as usize);
                        }
                    }
                }
            }
            t += 1;
        }
        proof {
            assert(f@.subrange(0, f@.len() as int) =~= f@);
            lemma_round(wf, dg@, lv0, level@, f@, round as int);
            lemma_round_tight(wf, dg@, lv0, level@, f@, round as int);
        }
        round += 1;
    }
    let mut v: usize = 0;
    while v < n
        invariant
            n == dg@.len(),
            n == wf.tasks@.len(),
            level@.len() == n,
            0 <= v <= n,
            forall|w: int| 0 <= w < v && runnable(wf, w) ==> level@[w] is Some,
            wf.wf(),
            edges_resolved(wf, dg@),
            deps_known(wf),
            levels_ok(wf, dg@, level@, round as int),
            levels_tight(dg@, level@),
            levels_used(level@, round as int),
            forall|w: int|
                0 <= w < level@.len() && runnable(wf, w) && (#[trigger] level@[w]) is None ==> exists|d: int|
                    0 <= d < dg@[w]@.len() && level@[dep(dg@, w, d)] is None,
        decreases n - v,
    {
        if is_runnable(&wf.tasks[v].1) && level[v].is_none() {
            proof {
                if schedulable(wf) {
                    let rank = choose|rank: Seq<nat>| is_schedule_rank(wf, rank);
                    lemma_rank_levels(wf, dg@, level@, rank, rank[v as int] + 1);
                }
                lemma_acyclic_closed(wf);
            }
            return Err(PlanError::CycleDetected);
        }
        v += 1;
    }
    let stages = collect_stages(wf, &dg, &level, round);
    proof {
        let lv = level@;
        let rank = Seq::new(n as nat, |w: int| if lv[w] is Some { lv[w]->Some_0 as nat } else { 0nat });
        assert forall|a: int, b: int|
            0 <= a < n && 0 <= b < n && runnable(wf, a) && #[trigger] depends_on(wf, a, b) implies runnable(wf, b)
            && rank[b] < rank[a] by {
            lemma_depends_on_index(wf, dg@, a, b);
            let d = choose|d: int| 0 <= d < dg@[a]@.len() && dep(dg@, a, d) == b;
            assert(lv[a] is Some);
        }
        assert(is_schedule_rank(wf, rank));
        lemma_acyclic_closed(wf);
    }
    proof {
        assert forall|path: Seq<int>| #[trigger] is_runnable_cycle(wf, path) && deps_known(wf) implies false by {
            lemma_cycle_unschedulable(wf, path);
        }
    }
    Ok(stages)
}

/// `path` runs from a runnable task along dependency edges back to it.
pub open spec fn is_runnable_cycle(wf: &WorkFlow, path: Seq<int>) -> bool {
    &&& path.len() >= 2
    &&& path[0] == path[path.len() - 1]
    &&& forall|i: int| 0 <= i < path.len() ==> 0 <= #[trigger] path[i] < wf.tasks@.len()
    &&& runnable(wf, path[0])
    &&& forall|i: int| 0 <= i < path.len() - 1 ==> #[trigger] depends_on(wf, path[i], path[i + 1])
}

proof fn lemma_cycle_ranks(wf: &WorkFlow, path: Seq<int>, rank: Seq<nat>, k: int)
    requires
        is_runnable_cycle(wf, path),
        is_schedule_rank(wf, rank),
        0 <= k < path.len(),
    ensures
        runnable(wf, path[k]),
        rank[path[k]] + k <= rank[path[0]],
    decreases k,
{
    if k > 0 {
        lemma_cycle_ranks(wf, path, rank, k - 1);
        let i = k - 1;
        assert(depends_on(wf, path[i], path[i + 1]));
        assert(i + 1 == k);
        assert(0 <= path[k - 1] < wf.tasks@.len());
        assert(0 <= path[k] < wf.tasks@.len());
    }
}

/// A workflow with a dependency cycle through a runnable task cannot be
/// scheduled.
pub proof fn lemma_cycle_unschedulable(wf: &WorkFlow, path: Seq<int>)
    requires
        is_runnable_cycle(wf, path),
    ensures
        !schedulable(wf),
{
    if schedulable(wf) {
        let rank = choose|rank: Seq<nat>| is_schedule_rank(wf, rank);
        lemma_cycle_ranks(wf, path, rank, path.len() - 1);
    }
}

/// One round: giving level `r` to every ready task keeps the level facts.
proof fn lemma_round(
    wf: &WorkFlow,
    dg: Seq<Vec<usize>>,
    lv0: Seq<Option<usize>>,
    lv: Seq<Option<usize>>,
    f: Seq<usize>,
    r: int,
)
    requires
        wf.wf(),
        edges_resolved(wf, dg),
        levels_ok(wf, dg, lv0, r),
        0 <= r,
        r + 1 <= usize::MAX,
        f.len() > 0,
        lv0.len() <= usize::MAX,
        lv.len() == lv0.len(),
        forall|s: int| 0 <= s < f.len() ==> #[trigger] f[s] < lv0.len() && ready(wf, dg, lv0, f[s] as int),
        forall|w: int| 0 <= w < lv.len() ==> #[trigger] lv[w] == (if f.contains(w as usize) { Some(r as usize) } else { lv0[w] }),
    ensures
        levels_ok(wf, dg, lv, r + 1),
{
            assert(lv0[f[0] as int] is None);
            // the new levels respect the dependencies
            assert forall|v: int| 0 <= v < lv.len() && (#[trigger] lv[v]) is Some implies runnable(wf, v) && lv[v]->Some_0
                < r + 1 && forall|d: int|
                0 <= d < dg[v]@.len() ==> lv[dep(dg, v, d)] is Some && lv[dep(dg, v, d)]->Some_0 < lv[v]->Some_0 by {
                assert(dg[v]@.len() == dep_names(wf, v).len());
                if f.contains(v as usize) {
                    let s = choose|s: int| 0 <= s < f.len() && f[s] == v as usize;
                    assert(f[s] < lv0.len());
                    assert(f[s] as int == v);
                    assert(ready(wf, dg, lv0, v));
                    assert forall|d: int| 0 <= d < dg[v]@.len() implies lv[dep(dg, v, d)] is Some && lv[dep(
                        dg,
                        v,
                        d,
                    )]->Some_0 < lv[v]->Some_0 by {
                        let u = dep(dg, v, d);
                        assert(lv0[u] is Some);
                        if f.contains(u as usize) {
                            let s2 = choose|s2: int| 0 <= s2 < f.len() && f[s2] == u as usize;
                            assert(ready(wf, dg, lv0, u));
                        }
                    }
                } else {
                    assert(lv0[v] is Some);
                    assert forall|d: int| 0 <= d < dg[v]@.len() implies lv[dep(dg, v, d)] is Some && lv[dep(
                        dg,
                        v,
                        d,
                    )]->Some_0 < lv[v]->Some_0 by {
                        let u = dep(dg, v, d);
                        assert(lv0[u] is Some);
                        if f.contains(u as usize) {
                            let s2 = choose|s2: int| 0 <= s2 < f.len() && f[s2] == u as usize;
                            assert(ready(wf, dg, lv0, u));
                        }
                    }
                }
            }
}

/// One round keeps levels tight, keeps waiting tasks waiting on the last
/// round or later, and uses the new level.
proof fn lemma_round_tight(
    wf: &WorkFlow,
    dg: Seq<Vec<usize>>,
    lv0: Seq<Option<usize>>,
    lv: Seq<Option<usize>>,
    f: Seq<usize>,
    r: int,
)
    requires
        wf.wf(),
        edges_resolved(wf, dg),
        levels_ok(wf, dg, lv0, r),
        levels_tight(dg, lv0),
        levels_pending(wf, dg, lv0, r),
        levels_used(lv0, r),
        0 <= r,
        r + 1 <= usize::MAX,
        f.len() > 0,
        lv0.len() <= usize::MAX,
        lv.len() == lv0.len(),
        forall|s: int| 0 <= s < f.len() ==> #[trigger] f[s] < lv0.len() && ready(wf, dg, lv0, f[s] as int),
        forall|v: int| 0 <= v < lv0.len() && ready(wf, dg, lv0, v) ==> f.contains(v as usize),
        forall|w: int| 0 <= w < lv.len() ==> #[trigger] lv[w] == (if f.contains(w as usize) { Some(r as usize) } else { lv0[w] }),
    ensures
        levels_tight(dg, lv),
        levels_pending(wf, dg, lv, r + 1),
        levels_used(lv, r + 1),
{
    // a task with a level before this round is not among the new ones
    assert forall|u: int| 0 <= u < lv0.len() && (#[trigger] lv0[u]) is Some implies !f.contains(u as usize) by {
        if f.contains(u as usize) {
            let s = choose|s: int| 0 <= s < f.len() && f[s] == u as usize;
            assert(f[s] < lv0.len());
            assert(ready(wf, dg, lv0, f[s] as int));
        }
    }
    assert forall|v: int| 0 <= v < lv.len() && (#[trigger] lv[v]) is Some && lv[v]->Some_0 > 0 implies exists|d: int|
        0 <= d < dg[v]@.len() && lv[dep(dg, v, d)] == Some((lv[v]->Some_0 - 1) as usize) by {
        if f.contains(v as usize) {
            let s = choose|s: int| 0 <= s < f.len() && f[s] == v as usize;
            assert(f[s] < lv0.len());
            assert(f[s] as int == v);
            assert(ready(wf, dg, lv0, v));
            assert(lv0[v] is None);
            assert(r > 0);
            let d = choose|d: int|
                0 <= d < dg[v]@.len() && (lv0[dep(dg, v, d)] is None || lv0[dep(dg, v, d)] == Some((r - 1) as usize));
            lemma_edge(wf, dg, v, d);
            let u = dep(dg, v, d);
            assert(lv0[u] is Some);
            assert(lv[u] == lv0[u]);
        } else {
            assert(lv0[v] is Some);
            let d = choose|d: int| 0 <= d < dg[v]@.len() && lv0[dep(dg, v, d)] == Some((lv0[v]->Some_0 - 1) as usize);
            lemma_edge(wf, dg, v, d);
            let u = dep(dg, v, d);
            assert(lv[u] == lv0[u]);
        }
    }
    assert forall|v: int| 0 <= v < lv.len() && runnable(wf, v) && (#[trigger] lv[v]) is None implies exists|d: int|
        0 <= d < dg[v]@.len() && (lv[dep(dg, v, d)] is None || lv[dep(dg, v, d)] == Some(r as usize)) by {
        assert(!f.contains(v as usize));
        assert(lv0[v] is None);
        assert(!ready(wf, dg, lv0, v));
        let d = choose|d: int| 0 <= d < dg[v]@.len() && !(lv0[dep(dg, v, d)] is Some);
        lemma_edge(wf, dg, v, d);
    }
    assert forall|q: int| 0 <= q < r + 1 implies #[trigger] level_used(lv, q) by {
        if q == r {
            assert(f.contains(f[0]));
            assert(lv[f[0] as int] == Some(q as usize));
        } else {
            assert(level_used(lv0, q));
            let v = choose|v: int| 0 <= v < lv0.len() && lv0[v] == Some(q as usize);
            assert(lv[v] == Some(q as usize));
        }
    }
}

/// Under `runnable_closed`, a schedule exists exactly when the runnable
/// tasks are acyclic.
proof fn lemma_acyclic_closed(wf: &WorkFlow)
    ensures
        runnable_closed(wf) ==> (schedulable(wf) <==> acyclic(wf)),
{
    if runnable_closed(wf) {
        if schedulable(wf) {
            let rank = choose|rank: Seq<nat>| is_schedule_rank(wf, rank);
            assert forall|v: int, u: int|
                0 <= v < wf.tasks@.len() && 0 <= u < wf.tasks@.len() && runnable(wf, v) && runnable(wf, u)
                    && #[trigger] depends_on(wf, v, u) implies rank[u] < rank[v] by {}
            assert(is_topological_rank(wf, rank));
        }
        if acyclic(wf) {
            let rank = choose|rank: Seq<nat>| is_topological_rank(wf, rank);
            assert(is_schedule_rank(wf, rank));
        }
    }
}

/// For each level below `rounds`, the tasks of that level in increasing
/// position.
fn collect_levels(level: &Vec<Option<usize>>, rounds: usize) -> (idx: Vec<Vec<usize>>)
    ensures
        idx@.len() == rounds,
        forall|k: int, j: int|
            0 <= k < rounds && 0 <= j < idx@[k]@.len() ==> #[trigger] idx@[k]@[j] < level@.len() && level@[idx@[k]@[j] as int]
                == Some(k as usize),
        forall|w: int|
            0 <= w < level@.len() && (#[trigger] level@[w]) is Some && level@[w]->Some_0 < rounds ==> idx@[level@[w]->Some_0 as int]@.contains(
                w as usize,
            ),
        forall|k: int, a: int, b: int|
            0 <= k < rounds && 0 <= a < b < idx@[k]@.len() ==> #[trigger] idx@[k]@[a] < #[trigger] idx@[k]@[b],
{
    let n = level.len();
    let mut idx: Vec<Vec<usize>> = Vec::new();
    let mut k: usize = 0;
    while k < rounds
        invariant
            n == level@.len(),
            0 <= k <= rounds,
            idx@.len() == k,
            forall|q: int, j: int|
                0 <= q < k && 0 <= j < idx@[q]@.len() ==> #[trigger] idx@[q]@[j] < n && level@[idx@[q]@[j] as int] == Some(
                    q as usize,
                ),
            forall|w: int|
                0 <= w < n && (#[trigger] level@[w]) is Some && level@[w]->Some_0 < k ==> idx@[level@[w]->Some_0 as int]@.contains(
                    w as usize,
                ),
            forall|q: int, a: int, b: int|
                0 <= q < k && 0 <= a < b < idx@[q]@.len() ==> #[trigger] idx@[q]@[a] < #[trigger] idx@[q]@[b],
        decreases rounds - k,
    {
        let mut stage: Vec<usize> = Vec::new();
        let mut w: usize = 0;
        while w < n
            invariant
                n == level@.len(),
                0 <= w <= n,
                forall|j: int| 0 <= j < stage@.len() ==> #[trigger] stage@[j] < w && level@[stage@[j] as int] == Some(k),
                forall|x: int| 0 <= x < w && (#[trigger] level@[x]) == Some(k) ==> stage@.contains(x as usize),
                forall|a: int, b: int| 0 <= a < b < stage@.len() ==> #[trigger] stage@[a] < #[trigger] stage@[b],
            decreases n - w,
        {
            if level[w] == Some(k) {
                let ghost before = stage@;
                stage.push(w);
                proof {
                    assert forall|x: int| 0 <= x < w + 1 && (#[trigger] level@[x]) == Some(k) implies stage@.contains(
                        x as usize,
                    ) by {
                        if x < w {
                            let j = choose|j: int| 0 <= j < before.len() && before[j] == x as usize;
                            assert(stage@[j] == x as usize);
                        } else {
                            assert(stage@[before.len() as int] == x as usize);
                        }
                    }
                    assert forall|a: int, b: int| 0 <= a < b < stage@.len() implies #[trigger] stage@[a] < #[trigger] stage@[b] by {
                        assert(stage@[a] == before[a]);
                        if b < before.len() {
                            assert(stage@[b] == before[b]);
                        }
                    }
                }
            }
            w += 1;
        }
        let ghost before = idx@;
        let ghost st = stage@;
        idx.push(stage);
        proof {
            assert(idx@[k as int]@ == st);
            assert forall|q: int, j: int|
                0 <= q < k + 1 && 0 <= j < idx@[q]@.len() implies #[trigger] idx@[q]@[j] < n && level@[idx@[q]@[j] as int]
                == Some(q as usize) by {
                if q < k {
                    assert(idx@[q] == before[q]);
                } else {
                    assert(idx@[q]@[j] == st[j]);
                }
            }
            assert forall|x: int|
                0 <= x < n && (#[trigger] level@[x]) is Some && level@[x]->Some_0 < k + 1 implies idx@[level@[x]->Some_0 as int]@.contains(
                x as usize,
            ) by {
                if level@[x]->Some_0 < k {
                    assert(idx@[level@[x]->Some_0 as int] == before[level@[x]->Some_0 as int]);
                } else {
                    assert(level@[x] == Some(k));
                }
            }
            assert forall|q: int, a: int, b: int|
                0 <= q < k + 1 && 0 <= a < b < idx@[q]@.len() implies #[trigger] idx@[q]@[a] < #[trigger] idx@[q]@[b] by {
                if q < k {
                    assert(idx@[q] == before[q]);
                } else {
                    assert(idx@[q]@[a] == st[a]);
                    assert(idx@[q]@[b] == st[b]);
                }
            }
        }
        k += 1;
    }
    idx
}

/// The names of the tasks at the positions in `idx`.
fn names_of(wf: &WorkFlow, idx: &Vec<Vec<usize>>) -> (stages: Vec<Vec<String>>)
    requires
        forall|k: int, j: int| 0 <= k < idx@.len() && 0 <= j < idx@[k]@.len() ==> #[trigger] idx@[k]@[j] < wf.tasks@.len(),
    ensures
        stages@.len() == idx@.len(),
        forall|k: int| 0 <= k < idx@.len() ==> #[trigger] stages@[k]@.len() == idx@[k]@.len(),
        forall|k: int, j: int|
            0 <= k < idx@.len() && 0 <= j < idx@[k]@.len() ==> #[trigger] stages@[k]@[j]@ == wf.task_name(idx@[k]@[j] as int),
{
    let mut stages: Vec<Vec<String>> = Vec::new();
    let mut k: usize = 0;
    while k < idx.len()
        invariant
            0 <= k <= idx@.len(),
            stages@.len() == k,
            forall|k: int, j: int| 0 <= k < idx@.len() && 0 <= j < idx@[k]@.len() ==> #[trigger] idx@[k]@[j] < wf.tasks@.len(),
            forall|q: int| 0 <= q < k ==> #[trigger] stages@[q]@.len() == idx@[q]@.len(),
            forall|q: int, j: int|
                0 <= q < k && 0 <= j < idx@[q]@.len() ==> #[trigger] stages@[q]@[j]@ == wf.task_name(idx@[q]@[j] as int),
        decreases idx@.len() - k,
    {
        let mut names: Vec<String> = Vec::new();
        let mut j: usize = 0;
        while j < idx[k].len()
            invariant
                0 <= k < idx@.len(),
                0 <= j <= idx@[k as int]@.len(),
                names@.len() == j,
                forall|k: int, j: int| 0 <= k < idx@.len() && 0 <= j < idx@[k]@.len() ==> #[trigger] idx@[k]@[j] < wf.tasks@.len(),
                forall|e: int| 0 <= e < j ==> #[trigger] names@[e]@ == wf.task_name(idx@[k as int]@[e] as int),
            decreases idx@[k as int]@.len() - j,
        {
            let w = idx[k][j];
            let ghost before = names@;
            names.push(wf.tasks[w].0.clone());
            proof {
                assert forall|e: int| 0 <= e < j + 1 implies #[trigger] names@[e]@ == wf.task_name(idx@[k as int]@[e] as int) by {
                    if e < j {
                        assert(names@[e] == before[e]);
                    }
                }
            }
            j += 1;
        }
        let ghost before = stages@;
        let ghost ns = names@;
        stages.push(names);
        proof {
            assert(stages@[k as int]@ == ns);
            assert forall|q: int| 0 <= q < k + 1 implies #[trigger] stages@[q]@.len() == idx@[q]@.len() by {
                if q < k {
                    assert(stages@[q] == before[q]);
                }
            }
            assert forall|q: int, j: int|
                0 <= q < k + 1 && 0 <= j < idx@[q]@.len() implies #[trigger] stages@[q]@[j]@ == wf.task_name(idx@[q]@[j] as int) by {
                if q < k {
                    assert(stages@[q] == before[q]);
                } else {
                    assert(stages@[q]@[j] == ns[j]);
                }
            }
        }
        k += 1;
    }
    stages
}

/// The names of the tasks of each level below `rounds`, in task order.
fn collect_stages(wf: &WorkFlow, dg: &Vec<Vec<usize>>, level: &Vec<Option<usize>>, rounds: usize) -> (stages: Vec<
    Vec<String>,
>)
    requires
        wf.wf(),
        dg@.len() == wf.tasks@.len(),
        edges_resolved(wf, dg@),
        levels_ok(wf, dg@, level@, rounds as int),
        levels_tight(dg@, level@),
        levels_used(level@, rounds as int),
        forall|w: int| 0 <= w < level@.len() && runnable(wf, w) ==> level@[w] is Some,
    ensures
        is_plan(wf, stages@),
{
    let n = level.len();
    let idx = collect_levels(level, rounds);
    let stages = names_of(wf, &idx);
    proof {
        assert(level@.len() == n);
        lemma_plan_from_levels(wf, dg@, level@, rounds as int, idx@, stages@);
    }
    stages
}

/// A placed task sits at its own position in `idx`, with the level of its
/// stage.
proof fn lemma_placed_index(
    wf: &WorkFlow,
    lv: Seq<Option<usize>>,
    idx: Seq<Vec<usize>>,
    stages: Seq<Vec<String>>,
    k: int,
    j: int,
    i: int,
)
    requires
        wf.wf(),
        lv.len() == wf.tasks@.len(),
        placed(wf, stages, k, j, i),
        stages.len() == idx.len(),
        forall|k: int, j: int|
            0 <= k < idx.len() && 0 <= j < idx[k]@.len() ==> #[trigger] idx[k]@[j] < lv.len() && lv[idx[k]@[j] as int] == Some(
                k as usize,
            ),
        forall|k: int| 0 <= k < idx.len() ==> #[trigger] stages[k]@.len() == idx[k]@.len(),
        forall|k: int, j: int|
            0 <= k < idx.len() && 0 <= j < idx[k]@.len() ==> #[trigger] stages[k]@[j]@ == wf.task_name(idx[k]@[j] as int),
    ensures
        idx[k]@[j] == i,
        lv[i] == Some(k as usize),
{
    assert(stages[k]@.len() == idx[k]@.len());
    assert(stages[k]@[j]@ == wf.task_name(idx[k]@[j] as int));
    assert(idx[k]@[j] < lv.len());
}

proof fn lemma_plan_from_levels(
    wf: &WorkFlow,
    dg: Seq<Vec<usize>>,
    lv: Seq<Option<usize>>,
    rounds: int,
    idx: Seq<Vec<usize>>,
    stages: Seq<Vec<String>>,
)
    requires
        wf.wf(),
        dg.len() == wf.tasks@.len(),
        edges_resolved(wf, dg),
        levels_ok(wf, dg, lv, rounds),
        levels_tight(dg, lv),
        levels_used(lv, rounds),
        forall|w: int| 0 <= w < lv.len() && runnable(wf, w) ==> lv[w] is Some,
        idx.len() == rounds,
        rounds <= usize::MAX,
        lv.len() <= usize::MAX,
        forall|k: int, j: int|
            0 <= k < rounds && 0 <= j < idx[k]@.len() ==> #[trigger] idx[k]@[j] < lv.len() && lv[idx[k]@[j] as int] == Some(
                k as usize,
            ),
        forall|w: int|
            0 <= w < lv.len() && (#[trigger] lv[w]) is Some && lv[w]->Some_0 < rounds ==> idx[lv[w]->Some_0 as int]@.contains(
                w as usize,
            ),
        forall|k: int, a: int, b: int|
            0 <= k < rounds && 0 <= a < b < idx[k]@.len() ==> #[trigger] idx[k]@[a] < #[trigger] idx[k]@[b],
        stages.len() == idx.len(),
        forall|k: int| 0 <= k < idx.len() ==> #[trigger] stages[k]@.len() == idx[k]@.len(),
        forall|k: int, j: int|
            0 <= k < idx.len() && 0 <= j < idx[k]@.len() ==> #[trigger] stages[k]@[j]@ == wf.task_name(idx[k]@[j] as int),
    ensures
        is_plan(wf, stages),
{
    assert(lv.len() <= usize::MAX);
    let n = lv.len();
    assert forall|k: int, j: int| 0 <= k < stages.len() && 0 <= j < stages[k]@.len() implies names_runnable_task(
        wf,
        #[trigger] stages[k]@[j]@,
    ) by {
        assert(stages[k]@.len() == idx[k]@.len());
        let w = idx[k]@[j] as int;
        assert(stages[k]@[j]@ == wf.task_name(w));
        assert(lv[w] is Some);
        assert(runnable(wf, w));
    }
    assert forall|i: int| 0 <= i < wf.tasks@.len() && runnable(wf, i) implies exists|k: int, j: int|
        #[trigger] placed(wf, stages, k, j, i) by {
        assert(lv[i] is Some);
        assert(lv[i]->Some_0 < rounds);
        let k = lv[i]->Some_0 as int;
        assert(idx[k]@.contains(i as usize));
        let j = choose|j: int| 0 <= j < idx[k]@.len() && idx[k]@[j] == i as usize;
        assert(stages[k]@.len() == idx[k]@.len());
        assert(stages[k]@[j]@ == wf.task_name(idx[k]@[j] as int));
        assert(placed(wf, stages, k, j, i));
    }
    assert forall|k1: int, j1: int, k2: int, j2: int, i: int|
        #[trigger] placed(wf, stages, k1, j1, i) && #[trigger] placed(wf, stages, k2, j2, i) implies k1 == k2 && j1
        == j2 by {
        lemma_placed_index(wf, lv, idx, stages, k1, j1, i);
        lemma_placed_index(wf, lv, idx, stages, k2, j2, i);
        assert(k1 == k2);
        assert(stages[k1]@.len() == idx[k1]@.len());
        if j1 < j2 {
            assert(idx[k1]@[j1] < idx[k1]@[j2]);
        } else if j2 < j1 {
            assert(idx[k1]@[j2] < idx[k1]@[j1]);
        }
    }
    assert forall|v: int, u: int, k1: int, j1: int, k2: int, j2: int|
        #[trigger] placed(wf, stages, k1, j1, u) && #[trigger] placed(wf, stages, k2, j2, v) && depends_on(wf, v, u)
        implies k1 < k2 by {
        lemma_placed_index(wf, lv, idx, stages, k1, j1, u);
        lemma_placed_index(wf, lv, idx, stages, k2, j2, v);
        lemma_depends_on_index(wf, dg, v, u);
        let d = choose|d: int| 0 <= d < dg[v]@.len() && dep(dg, v, d) == u;
    }
    assert forall|k: int| 0 <= k < stages.len() implies #[trigger] stages[k]@.len() > 0 by {
        assert(level_used(lv, k));
        let v = choose|v: int| 0 <= v < lv.len() && lv[v] == Some(k as usize);
        assert(idx[k]@.contains(v as usize));
        assert(stages[k]@.len() == idx[k]@.len());
    }
    assert forall|v: int, k: int, j: int| #[trigger] placed(wf, stages, k, j, v) && k > 0 implies exists|u: int, j2: int|
        #[trigger] placed(wf, stages, k - 1, j2, u) && depends_on(wf, v, u) by {
        lemma_placed_index(wf, lv, idx, stages, k, j, v);
        let d = choose|d: int| 0 <= d < dg[v]@.len() && lv[dep(dg, v, d)] == Some((lv[v]->Some_0 - 1) as usize);
        lemma_edge(wf, dg, v, d);
        let u = dep(dg, v, d);
        assert(lv[u] == Some((k - 1) as usize));
        assert(idx[k - 1]@.contains(u as usize));
        let j2 = choose|j2: int| 0 <= j2 < idx[k - 1]@.len() && #[trigger] idx[k - 1]@[j2] == u as usize;
        assert(stages[k - 1]@.len() == idx[k - 1]@.len());
        assert(stages[k - 1]@[j2]@ == wf.task_name(idx[k - 1]@[j2] as int));
        assert(placed(wf, stages, k - 1, j2, u));
        lemma_depends_on_index(wf, dg, v, u);
    }
}

} // verus!
