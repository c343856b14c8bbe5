//! Which per-relation tasks tonight's run has to perform, and which may keep
//! the artifact that an earlier run left behind.

use vstd::prelude::*;
use crate::collation::occurs;

verus! {

/// Which comparisons are meaningful for a relation.
#[derive(Clone, Copy, Debug, PartialEq, Eq, Structural)]
pub enum StreetsPolicy {
    /// Both streets and house numbers are compared.
    Yes,
    /// Only house numbers are compared.
    No,
    /// Only streets are compared.
    Only,
}

/// The artifact-producing tasks of one relation, in the order a run performs them.
#[derive(Clone, Copy, Debug, PartialEq, Eq, Structural)]
pub enum Task {
    OsmStreets,
    OsmHousenumbers,
    RefStreets,
    RefHousenumbers,
    MissingStreets,
    MissingHousenumbers,
    AdditionalStreets,
}

/// Position of a task in the per-relation sequence.
pub open spec fn task_rank(t: Task) -> int {
    match t {
        Task::OsmStreets => 0,
        Task::OsmHousenumbers => 1,
        Task::RefStreets => 2,
        Task::RefHousenumbers => 3,
        Task::MissingStreets => 4,
        Task::MissingHousenumbers => 5,
        Task::AdditionalStreets => 6,
    }
}

/// The task at a position of the per-relation sequence.
pub open spec fn task_at(k: int) -> Task {
    if k <= 0 {
        Task::OsmStreets
    } else if k == 1 {
        Task::OsmHousenumbers
    } else if k == 2 {
        Task::RefStreets
    } else if k == 3 {
        Task::RefHousenumbers
    } else if k == 4 {
        Task::MissingStreets
    } else if k == 5 {
        Task::MissingHousenumbers
    } else {
        Task::AdditionalStreets
    }
}

/// The relation's policy leaves the task meaningful: house-number work is
/// skipped under `Only`, street work (the reference street list and both
/// street reports) under `No`.
pub open spec fn policy_allows(p: StreetsPolicy, t: Task) -> bool {
    match t {
        Task::RefHousenumbers | Task::MissingHousenumbers => p != StreetsPolicy::Only,
        Task::RefStreets | Task::MissingStreets | Task::AdditionalStreets => p != StreetsPolicy::No,
        _ => true,
    }
}

/// Which of a relation's artifacts are present on disk.
#[derive(Clone, Copy, Debug, PartialEq, Eq, Structural)]
pub struct Artifacts {
    pub osm_streets: bool,
    pub osm_housenumbers: bool,
    pub ref_streets: bool,
    pub ref_housenumbers: bool,
    pub missing_streets: bool,
    pub missing_housenumbers: bool,
    pub additional_streets: bool,
}

impl Artifacts {
    pub open spec fn has(self, t: Task) -> bool {
        match t {
            Task::OsmStreets => self.osm_streets,
            Task::OsmHousenumbers => self.osm_housenumbers,
            Task::RefStreets => self.ref_streets,
            Task::RefHousenumbers => self.ref_housenumbers,
            Task::MissingStreets => self.missing_streets,
            Task::MissingHousenumbers => self.missing_housenumbers,
            Task::AdditionalStreets => self.additional_streets,
        }
    }

    /// No artifact present.
    pub fn none() -> (r: Artifacts)
        ensures
            forall|t: Task| !r.has(t),
    {
        Artifacts {
            osm_streets: false,
            osm_housenumbers: false,
            ref_streets: false,
            ref_housenumbers: false,
            missing_streets: false,
            missing_housenumbers: false,
            additional_streets: false,
        }
    }

    /// Whether the artifact of `t` is present.
    pub fn contains(&self, t: Task) -> (r: bool)
        ensures
            r == self.has(t),
    {
        match t {
            Task::OsmStreets => self.osm_streets,
            Task::OsmHousenumbers => self.osm_housenumbers,
            Task::RefStreets => self.ref_streets,
            Task::RefHousenumbers => self.ref_housenumbers,
            Task::MissingStreets => self.missing_streets,
            Task::MissingHousenumbers => self.missing_housenumbers,
            Task::AdditionalStreets => self.additional_streets,
        }
    }

    /// Records that the artifact of `t` is present, the others unchanged.
    pub fn insert(&mut self, t: Task)
        ensures
            forall|u: Task| final(self).has(u) == (u == t || old(self).has(u)),
    {
        match t {
            Task::OsmStreets => self.osm_streets = true,
            Task::OsmHousenumbers => self.osm_housenumbers = true,
            Task::RefStreets => self.ref_streets = true,
            Task::RefHousenumbers => self.ref_housenumbers = true,
            Task::MissingStreets => self.missing_streets = true,
            Task::MissingHousenumbers => self.missing_housenumbers = true,
            Task::AdditionalStreets => self.additional_streets = true,
        }
    }
}

/// What the planner knows of one relation of the registry.
#[derive(Clone, Copy, Debug, PartialEq, Eq, Structural)]
pub struct RelationStatus {
    /// The persisted activity flag.
    pub active: bool,
    pub policy: StreetsPolicy,
    pub existing: Artifacts,
}

/// One task of one relation, the relation given by its registry position.
#[derive(Clone, Copy, Debug, PartialEq, Eq, Structural)]
pub struct Step {
    pub relation: usize,
    pub task: Task,
}

/// The task has to run: the policy allows it, and either a refresh was
/// asked for or its artifact is missing.
pub open spec fn task_due(p: StreetsPolicy, t: Task, update: bool, exists: bool) -> bool {
    policy_allows(p, t) && (update || !exists)
}

/// Relation `i` takes part in the run and its task `t` is due.
pub open spec fn planned(
    rels: Seq<RelationStatus>,
    update: bool,
    activate_all: bool,
    i: int,
    t: Task,
) -> bool {
    0 <= i < rels.len() && (rels[i].active || activate_all) && task_due(
        rels[i].policy,
        t,
        update,
        rels[i].existing.has(t),
    )
}

/// Strict order of steps: by relation, then by task.
pub open spec fn step_before(a: Step, b: Step) -> bool {
    a.relation < b.relation || (a.relation == b.relation && task_rank(a.task) < task_rank(
        b.task,
    ))
}

/// `steps` is the plan of a run: exactly the planned steps, each once, in
/// registry order and within a relation in task order.
pub open spec fn is_plan(
    rels: Seq<RelationStatus>,
    update: bool,
    activate_all: bool,
    steps: Seq<Step>,
) -> bool {
    &&& forall|k: int|
        0 <= k < steps.len() ==> planned(
            rels,
            update,
            activate_all,
            (#[trigger] steps[k]).relation as int,
            steps[k].task,
        )
    &&& forall|i: int, t: Task|
        planned(rels, update, activate_all, i, t) ==> exists|k: int|
            0 <= k < steps.len() && #[trigger] steps[k] == (Step { relation: i as usize, task: t })
    &&& forall|a: int, b: int|
        0 <= a < b < steps.len() ==> step_before(#[trigger] steps[a], #[trigger] steps[b])
}

/// Decides whether a task of a relation has to run tonight.
pub fn should_run(policy: StreetsPolicy, task: Task, update: bool, exists: bool) -> (r: bool)
    ensures
        r == task_due(policy, task, update, exists),
{
    let allowed = match task {
        Task::RefHousenumbers | Task::MissingHousenumbers => policy != StreetsPolicy::Only,
        Task::RefStreets | Task::MissingStreets | Task::AdditionalStreets => policy
            != StreetsPolicy::No,
        _ => true,
    };
    allowed && (update || !exists)
}

/// The task at a position of the per-relation sequence.
pub fn task_of_rank(k: usize) -> (t: Task)
    requires
        k < 7,
    ensures
        t == task_at(k as int),
        task_rank(t) == k,
{
    if k == 0 {
        Task::OsmStreets
    } else if k == 1 {
        Task::OsmHousenumbers
    } else if k == 2 {
        Task::RefStreets
    } else if k == 3 {
        Task::RefHousenumbers
    } else if k == 4 {
        Task::MissingStreets
    } else if k == 5 {
        Task::MissingHousenumbers
    } else {
        Task::AdditionalStreets
    }
}

proof fn lemma_task_rank_at(t: Task)
    ensures
        0 <= task_rank(t) < 7,
        task_at(task_rank(t)) == t,
{
}

/// Lists tonight's steps over the relations of the registry, in order.
/// With `activate_all` every relation takes part, whatever its persisted
/// flag; the statuses themselves are only read.
pub fn plan_run(rels: &Vec<RelationStatus>, update: bool, activate_all: bool) -> (r: Vec<Step>)
    ensures
        is_plan(rels@, update, activate_all, r@),
{
    let mut r: Vec<Step> = Vec::new();
    let mut i: usize = 0;
    while i < rels.len()
        invariant
            i <= rels@.len(),
            forall|k: int|
                0 <= k < r@.len() ==> planned(
                    rels@,
                    update,
                    activate_all,
                    (#[trigger] r@[k]).relation as int,
                    r@[k].task,
                ) && r@[k].relation < i,
            forall|j: int, t: Task|
                0 <= j < i && planned(rels@, update, activate_all, j, t) ==> exists|k: int|
                    0 <= k < r@.len() && #[trigger] r@[k] == (Step { relation: j as usize, task: t }),
            forall|a: int, b: int|
                0 <= a < b < r@.len() ==> step_before(#[trigger] r@[a], #[trigger] r@[b]),
        decreases rels@.len() - i,
    {
        let rel = rels[i];
        let mut k: usize = 0;
        while k < 7
            invariant
                i < rels@.len(),
                rel == rels@[i as int],
                k <= 7,
                forall|q: int|
                    0 <= q < r@.len() ==> planned(
                        rels@,
                        update,
                        activate_all,
                        (#[trigger] r@[q]).relation as int,
                        r@[q].task,
                    ) && r@[q].relation <= i,
                forall|q: int|
                    0 <= q < r@.len() && (#[trigger] r@[q]).relation == i ==> task_rank(r@[q].task)
                        < k,
                forall|j: int, t: Task|
                    0 <= j < i && planned(rels@, update, activate_all, j, t) ==> exists|q: int|
                        0 <= q < r@.len() && #[trigger] r@[q] == (Step { relation: j as usize, task: t }),
                forall|t: Task|
                    task_rank(t) < k && planned(rels@, update, activate_all, i as int, t)
                        ==> exists|q: int|
                        0 <= q < r@.len() && #[trigger] r@[q] == (Step { relation: i, task: t }),
                forall|a: int, b: int|
                    0 <= a < b < r@.len() ==> step_before(#[trigger] r@[a], #[trigger] r@[b]),
            decreases 7 - k,
        {
            let t = task_of_rank(k);
            if (rel.active || activate_all) && should_run(
                rel.policy,
                t,
                update,
                rel.existing.contains(t),
            ) {
                let ghost before = r@;
                r.push(Step { relation: i, task: t });
                proof {
                    assert forall|j: int, u: Task|
                        0 <= j < i && planned(rels@, update, activate_all, j, u) implies exists|q: int|
                        0 <= q < r@.len() && #[trigger] r@[q] == (Step {
                            relation: j as usize,
                            task: u
                        }) by {
                        let q = choose|q: int|
                            0 <= q < before.len() && #[trigger] before[q] == (Step {
                                relation: j as usize,
                                task: u
                            });
                        assert(r@[q] == before[q]);
                    }
                    assert forall|u: Task|
                        task_rank(u) < k + 1 && planned(
                            rels@,
                            update,
                            activate_all,
                            i as int,
                            u,
                        ) implies exists|q: int|
                        0 <= q < r@.len() && #[trigger] r@[q] == (Step { relation: i, task: u }) by {
                        if task_rank(u) == k {
                            lemma_task_rank_at(u);
                            assert(r@[before.len() as int] == (Step { relation: i, task: u }));
                        } else {
                            let q = choose|q: int|
                                0 <= q < before.len() && #[trigger] before[q] == (Step {
                                    relation: i,
                                    task: u
                                });
                            assert(r@[q] == before[q]);
                        }
                    }
                }
            } else {
                proof {
                    assert forall|u: Task|
                        task_rank(u) < k + 1 && planned(
                            rels@,
                            update,
                            activate_all,
                            i as int,
                            u,
                        ) implies exists|q: int|
                        0 <= q < r@.len() && #[trigger] r@[q] == (Step { relation: i, task: u }) by {
                        if task_rank(u) == k {
                            lemma_task_rank_at(u);
                        }
                    }
                }
            }
            k += 1;
        }
        proof {
            assert forall|j: int, t: Task|
                0 <= j < i + 1 && planned(rels@, update, activate_all, j, t) implies exists|q: int|
                0 <= q < r@.len() && #[trigger] r@[q] == (Step { relation: j as usize, task: t }) by {
                if j == i {
                    lemma_task_rank_at(t);
                }
            }
        }
        i += 1;
    }
    r
}

/// Idempotence: once every step of an incremental run has left its
/// artifact behind, a second incremental run over the same registry plans
/// nothing, so it neither rewrites nor touches any artifact.
pub proof fn lemma_second_incremental_run_is_empty(
    before: Seq<RelationStatus>,
    after: Seq<RelationStatus>,
    activate_all: bool,
    second: Seq<Step>,
)
    requires
        after.len() == before.len(),
        forall|i: int|
            0 <= i < before.len() ==> (#[trigger] after[i]).active == before[i].active
                && after[i].policy == before[i].policy,
        forall|i: int, t: Task|
            0 <= i < before.len() && (#[trigger] before[i].existing.has(t) || planned(
                before,
                false,
                activate_all,
                i,
                t,
            )) ==> after[i].existing.has(t),
        is_plan(after, false, activate_all, second),
    ensures
        second.len() == 0,
{
    if second.len() > 0 {
        let s = second[0];
        let i = s.relation as int;
        assert(planned(after, false, activate_all, i, s.task));
        assert(after[i].existing.has(s.task) || !before[i].existing.has(s.task));
        assert(!planned(before, false, activate_all, i, s.task) || after[i].existing.has(
            s.task,
        ));
    }
}

/// Forced refresh: with `update` set, a task of a taking-part relation is
/// planned exactly when its policy allows it, whatever is on disk.
pub proof fn lemma_refresh_ignores_existing(
    rels: Seq<RelationStatus>,
    activate_all: bool,
    steps: Seq<Step>,
    i: int,
    t: Task,
)
    requires
        is_plan(rels, true, activate_all, steps),
        0 <= i < rels.len(),
        rels[i].active || activate_all,
        policy_allows(rels[i].policy, t),
    ensures
        exists|k: int|
            0 <= k < steps.len() && #[trigger] steps[k] == (Step { relation: i as usize, task: t }),
{
    assert(planned(rels, true, activate_all, i, t));
}

/// Policy gating: no plan holds house-number reference or report work for
/// a streets-only relation, nor street reference or report work for a
/// relation whose policy excludes streets.
pub proof fn lemma_policy_gates_plan(
    rels: Seq<RelationStatus>,
    update: bool,
    activate_all: bool,
    steps: Seq<Step>,
    k: int,
)
    requires
        is_plan(rels, update, activate_all, steps),
        0 <= k < steps.len(),
    ensures
        rels[steps[k].relation as int].policy == StreetsPolicy::Only ==> steps[k].task
            != Task::RefHousenumbers && steps[k].task != Task::MissingHousenumbers,
        rels[steps[k].relation as int].policy == StreetsPolicy::No ==> steps[k].task
            != Task::RefStreets && steps[k].task != Task::MissingStreets && steps[k].task
            != Task::AdditionalStreets,
{
    assert(planned(rels, update, activate_all, steps[k].relation as int, steps[k].task));
}

/// Monthly reactivation: when all relations are activated, a dormant
/// relation's due tasks are planned just as an active one's would be.
pub proof fn lemma_activate_all_includes_dormant(
    rels: Seq<RelationStatus>,
    update: bool,
    steps: Seq<Step>,
    i: int,
    t: Task,
)
    requires
        is_plan(rels, update, true, steps),
        0 <= i < rels.len(),
        task_due(rels[i].policy, t, update, rels[i].existing.has(t)),
    ensures
        exists|k: int|
            0 <= k < steps.len() && #[trigger] steps[k] == (Step { relation: i as usize, task: t }),
{
    assert(planned(rels, update, true, i, t));
}

/// The policy a relation's `missing-streets` setting names: `yes` (also
/// when the setting is empty), `no` or `only`.
pub open spec fn policy_named(name: Seq<char>) -> Option<StreetsPolicy> {
    if name.len() == 0 || name == seq!['y', 'e', 's'] {
        Some(StreetsPolicy::Yes)
    } else if name == seq!['n', 'o'] {
        Some(StreetsPolicy::No)
    } else if name == seq!['o', 'n', 'l', 'y'] {
        Some(StreetsPolicy::Only)
    } else {
        None
    }
}

impl StreetsPolicy {
    /// Reads a `missing-streets` setting.
    pub fn from_name(name: &Vec<char>) -> (r: Option<StreetsPolicy>)
        ensures
            r == policy_named(name@),
    {
        let n = name.len();
        if n == 0 {
            return Some(StreetsPolicy::Yes);
        }
        if n == 3 && name[0] == 'y' && name[1] == 'e' && name[2] == 's' {
            assert(name@ =~= seq!['y', 'e', 's']);
            return Some(StreetsPolicy::Yes);
        }
        if n == 2 && name[0] == 'n' && name[1] == 'o' {
            assert(name@ =~= seq!['n', 'o']);
            return Some(StreetsPolicy::No);
        }
        if n == 4 && name[0] == 'o' && name[1] == 'n' && name[2] == 'l' && name[3] == 'y' {
            assert(name@ =~= seq!['o', 'n', 'l', 'y']);
            return Some(StreetsPolicy::Only);
        }
        None
    }
}

/// The positions whose value equals `wanted`, in order; all positions when
/// nothing is wanted. This limits the registry to a county or settlement.
pub fn limit_to(values: &Vec<Vec<char>>, wanted: &Option<Vec<char>>) -> (r: Vec<usize>)
    ensures
        forall|k: int| 0 <= k < r@.len() ==> (#[trigger] r@[k] as int) < values@.len(),
        forall|a: int, b: int| 0 <= a < b < r@.len() ==> #[trigger] r@[a] < #[trigger] r@[b],
        forall|i: int|
            0 <= i < values@.len() ==> (#[trigger] occurs(r@, i) <==> (wanted matches Some(w)
                ==> values@[i]@ == w@)),
{
    let mut r: Vec<usize> = Vec::new();
    let mut i: usize = 0;
    while i < values.len()
        invariant
            i <= values@.len(),
            forall|k: int| 0 <= k < r@.len() ==> (#[trigger] r@[k] as int) < i,
            forall|a: int, b: int| 0 <= a < b < r@.len() ==> #[trigger] r@[a] < #[trigger] r@[b],
            forall|j: int|
                0 <= j < i ==> (#[trigger] occurs(r@, j) <==> (wanted matches Some(w)
                    ==> values@[j]@ == w@)),
        decreases values@.len() - i,
    {
        let keep = match wanted {
            Some(w) => crate::collation::same_text(&values[i], w),
            None => true,
        };
        let ghost before = r@;
        if keep {
            r.push(i);
        }
        proof {
            assert forall|j: int|
                0 <= j < i + 1 implies (#[trigger] occurs(r@, j) <==> (wanted matches Some(w)
                ==> values@[j]@ == w@)) by {
                if occurs(r@, j) {
                    let k = choose|k: int| 0 <= k < r@.len() && r@[k] == j;
                    if j < i {
                        assert(k < before.len());
                        assert(before[k] == j);
                        assert(occurs(before, j));
                    }
                }
                if j < i && occurs(before, j) {
                    let k = choose|k: int| 0 <= k < before.len() && before[k] == j;
                    assert(r@[k] == j);
                }
                if j == i && keep {
                    assert(r@[before.len() as int] == j);
                }
            }
        }
        i += 1;
    }
    r
}

} // verus!
