//! The decisions taken while a workflow runs: which status a dependency must
//! reach, whether it is met, what a hook entry asks for, what kind of body a
//! task has, what environment a command gets, and when to retry.

use vstd::prelude::*;
use vstd::string::*;
use crate::placeholders::{ConfigValue, Context, bind, resolve_with, same_text};
use crate::structure::{DepStatus, Dependency, Task, edges, split_kind};

verus! {

/// Errors that stop a run.
#[derive(PartialEq, Eq, Structural, Clone, Copy, Debug)]
pub enum RunError {
    /// The engine does not satisfy a version requirement.
    VersionMismatch,
    /// A plugin's source is neither a git URL nor an existing path.
    PluginSourceInvalid,
    /// A plugin's build command failed.
    PluginBuildFailed,
    /// A plugin library could not be loaded or lacks an entry point.
    PluginLoadFailed,
    /// A plugin manifest does not match its reference.
    PluginManifestInvalid,
    /// A task has neither command nor template nor plugin.
    TaskIllFormed,
    /// A dependency ended in another status than the one required.
    DependencyNotSatisfied,
    /// A hook entry carries an unknown kind prefix.
    UnknownHookKind,
}

pub open spec fn status_of_text(s: Seq<char>) -> Option<DepStatus> {
    if s == seq!['s', 'u', 'c', 'c', 'e', 's', 's'] {
        Some(DepStatus::Success)
    } else if s == seq!['f', 'a', 'i', 'l', 'u', 'r', 'e'] || s == seq!['f', 'a', 'i', 'l'] {
        Some(DepStatus::Failure)
    } else if s == seq!['a', 'n', 'y'] {
        Some(DepStatus::Any)
    } else {
        None
    }
}

/// The status named by `s`: `success`, `failure` or `fail`, `any`.
pub fn parse_status(s: &str) -> (r: Option<DepStatus>)
    ensures
        r == status_of_text(s@),
{
    proof {
        reveal_strlit("success");
        reveal_strlit("failure");
        reveal_strlit("fail");
        reveal_strlit("any");
        assert("success"@ =~= seq!['s', 'u', 'c', 'c', 'e', 's', 's']);
        assert("failure"@ =~= seq!['f', 'a', 'i', 'l', 'u', 'r', 'e']);
        assert("fail"@ =~= seq!['f', 'a', 'i', 'l']);
        assert("any"@ =~= seq!['a', 'n', 'y']);
    }
    if same_text(s, "success") {
        Some(DepStatus::Success)
    } else if same_text(s, "failure") || same_text(s, "fail") {
        Some(DepStatus::Failure)
    } else if same_text(s, "any") {
        Some(DepStatus::Any)
    } else {
        None
    }
}

pub open spec fn required_status(dep: Dependency) -> Option<DepStatus> {
    match dep {
        Dependency::Simple(_) => Some(DepStatus::Success),
        Dependency::Status(_, ConfigValue::Text(s)) => status_of_text(s@),
        Dependency::Status(_, _) => None,
    }
}

/// The status that dependency edge `dep` requires: success for a bare name,
/// the named status otherwise. `None` when the status is not one of the
/// known ones; such a requirement can never be met.
pub fn requirement(dep: &Dependency) -> (r: Option<DepStatus>)
    ensures
        r == required_status(*dep),
{
    match dep {
        Dependency::Simple(_) => Some(DepStatus::Success),
        Dependency::Status(_, ConfigValue::Text(s)) => parse_status(s.as_str()),
        Dependency::Status(_, _) => None,
    }
}

/// Whether a dependency whose status cell is `cell` meets `required`.
/// `cell` is `None` when the name is no task; such a dependency never meets
/// a requirement. A cell that is still empty counts as neither success nor
/// failure.
pub open spec fn status_met(cell: Option<Option<bool>>, required: DepStatus) -> bool {
    match cell {
        None => false,
        Some(c) => match required {
            DepStatus::Success => c == Some(true),
            DepStatus::Failure => c == Some(false),
            DepStatus::Any => true,
        },
    }
}

pub fn check_dependency_status(cell: Option<Option<bool>>, required: DepStatus) -> (r: bool)
    ensures
        r == status_met(cell, required),
{
    match cell {
        None => false,
        Some(c) => match required {
            DepStatus::Success => c == Some(true),
            DepStatus::Failure => c == Some(false),
            DepStatus::Any => true,
        },
    }
}

/// Whether a dependency must still be run: it is a task and has no outcome.
pub fn needs_run(cell: Option<Option<bool>>) -> (r: bool)
    ensures
        r == (cell == Some(Option::<bool>::None)),
{
    match cell {
        Some(None) => true,
        _ => false,
    }
}

/// The verdict once a dependency has had its chance to run.
pub fn settle_dependency(dep: &Dependency, cell: Option<Option<bool>>) -> (r: Result<(), RunError>)
    ensures
        r is Ok <==> (required_status(*dep) matches Some(s) && status_met(cell, s)),
        r matches Err(e) ==> e == RunError::DependencyNotSatisfied,
{
    match requirement(dep) {
        Some(s) => {
            if check_dependency_status(cell, s) {
                Ok(())
            } else {
                Err(RunError::DependencyNotSatisfied)
            }
        },
        None => Err(RunError::DependencyNotSatisfied),
    }
}

/// What a hook entry runs.
#[derive(PartialEq, Eq, Structural, Clone, Copy, Debug)]
pub enum HookKind {
    Task,
    Template,
    Plugin,
}

pub open spec fn hook_kind_of(kind: Seq<char>) -> Option<HookKind> {
    if kind == seq!['t', 'a', 's', 'k'] {
        Some(HookKind::Task)
    } else if kind == seq!['t', 'e', 'm', 'p', 'l', 'a', 't', 'e'] {
        Some(HookKind::Template)
    } else if kind == seq!['p', 'l', 'u', 'g', 'i', 'n'] {
        Some(HookKind::Plugin)
    } else {
        None
    }
}

/// What the hook entry `dep` runs, and the name it runs: `task:T` or a
/// bare `T` runs task `T`, `template:T` template `T`, `plugin:P` plugin
/// `P`. Any other prefix is an error.
pub fn hook_action(dep: &Dependency) -> (r: Result<(HookKind, String), RunError>)
    ensures
        hook_kind_of(split_kind(dep.spec_name()).0) matches Some(k) ==> r matches Ok(p) && p.0 == k && p.1@ == split_kind(
            dep.spec_name(),
        ).1,
        hook_kind_of(split_kind(dep.spec_name()).0) is None ==> r == Err::<(HookKind, String), RunError>(
            RunError::UnknownHookKind,
        ),
{
    let (kind, name) = crate::structure::parse_dependency(dep.name().as_str());
    proof {
        reveal_strlit("task");
        reveal_strlit("template");
        reveal_strlit("plugin");
        assert("task"@ =~= seq!['t', 'a', 's', 'k']);
        assert("template"@ =~= seq!['t', 'e', 'm', 'p', 'l', 'a', 't', 'e']);
        assert("plugin"@ =~= seq!['p', 'l', 'u', 'g', 'i', 'n']);
    }
    if same_text(kind, "task") {
        Ok((HookKind::Task, String::from_str(name)))
    } else if same_text(kind, "template") {
        Ok((HookKind::Template, String::from_str(name)))
    } else if same_text(kind, "plugin") {
        Ok((HookKind::Plugin, String::from_str(name)))
    } else {
        Err(RunError::UnknownHookKind)
    }
}

/// What a task's body runs.
#[derive(PartialEq, Eq, Structural, Clone, Copy, Debug)]
pub enum BodyKind {
    Template,
    Command,
    Plugin,
}

/// The kind of a task's body: a template when one is named, else a command
/// when one is given, else a plugin when one is named; a task with none of
/// the three is ill-formed.
pub fn body_kind(task: &Task) -> (r: Result<BodyKind, RunError>)
    ensures
        task.template is Some ==> r == Ok::<BodyKind, RunError>(BodyKind::Template),
        task.template is None && task.command is Some ==> r == Ok::<BodyKind, RunError>(BodyKind::Command),
        task.template is None && task.command is None && task.plugin is Some ==> r == Ok::<BodyKind, RunError>(
            BodyKind::Plugin,
        ),
        task.template is None && task.command is None && task.plugin is None ==> r == Err::<BodyKind, RunError>(
            RunError::TaskIllFormed,
        ),
{
    if task.template.is_some() {
        Ok(BodyKind::Template)
    } else if task.command.is_some() {
        Ok(BodyKind::Command)
    } else if task.plugin.is_some() {
        Ok(BodyKind::Plugin)
    } else {
        Err(RunError::TaskIllFormed)
    }
}

/// The string entries of `table`, in order, keys and values as they are.
pub open spec fn text_entries(table: Seq<(String, ConfigValue)>) -> Seq<(Seq<char>, Seq<char>)>
    decreases table.len(),
{
    if table.len() == 0 {
        Seq::empty()
    } else {
        let rest = text_entries(table.drop_last());
        match table.last().1 {
            ConfigValue::Text(s) => rest.push((table.last().0@, s@)),
            _ => rest,
        }
    }
}

/// The entries of `table` whose values are strings, with each value
/// resolved against `vars`, in order.
pub open spec fn resolved_env(vars: Seq<(Seq<char>, Seq<char>)>, table: Seq<(String, ConfigValue)>) -> Seq<
    (Seq<char>, Seq<char>),
> {
    text_entries(table).map_values(|e: (Seq<char>, Seq<char>)| (e.0, resolve_with(vars, e.1)))
}

/// Appends to `env` the string entries of `table`, resolved against `ctx`.
pub fn push_resolved_env(env: &mut Vec<(String, String)>, table: &Vec<(String, ConfigValue)>, ctx: &Context)
    ensures
        final(env)@.map_values(|p: (String, String)| (p.0@, p.1@)) == old(env)@.map_values(
            |p: (String, String)| (p.0@, p.1@),
        ) + resolved_env(ctx@, table@),
{
    let ghost start = env@.map_values(|p: (String, String)| (p.0@, p.1@));
    let mut i: usize = 0;
    while i < table.len()
        invariant
            0 <= i <= table@.len(),
            env@.map_values(|p: (String, String)| (p.0@, p.1@)) == start + resolved_env(ctx@, table@.take(i as int)),
        decreases table@.len() - i,
    {
        let ghost before = env@;
        proof {
            assert(table@.take(i as int + 1).drop_last() =~= table@.take(i as int));
            assert(table@.take(i as int + 1).last() == table@[i as int]);
        }
        match &table[i].1 {
            ConfigValue::Text(s) => {
                let v = ctx.resolve(s.as_str());
                env.push((table[i].0.clone(), v));
                proof {
                    assert(env@.map_values(|p: (String, String)| (p.0@, p.1@)) =~= before.map_values(
                        |p: (String, String)| (p.0@, p.1@),
                    ).push((table@[i as int].0@, resolve_with(ctx@, s@))));
                    assert(resolved_env(ctx@, table@.take(i as int + 1)) =~= resolved_env(ctx@, table@.take(i as int)).push(
                        (table@[i as int].0@, resolve_with(ctx@, s@)),
                    ));
                }
            },
            _ => {
                proof {
                    assert(resolved_env(ctx@, table@.take(i as int + 1)) =~= resolved_env(ctx@, table@.take(i as int)));
                }
            },
        }
        i += 1;
    }
    proof {
        assert(table@.take(table@.len() as int) =~= table@);
    }
}

/// `vars` after binding each entry of `entries` in turn.
pub open spec fn bind_all(vars: Seq<(Seq<char>, Seq<char>)>, entries: Seq<(Seq<char>, Seq<char>)>) -> Seq<
    (Seq<char>, Seq<char>),
>
    decreases entries.len(),
{
    if entries.len() == 0 {
        vars
    } else {
        let last = entries.last();
        bind(bind_all(vars, entries.drop_last()), last.0, last.1)
    }
}

/// The context a template task runs in: each string entry of the task's
/// configuration bound as a placeholder, later entries overriding earlier
/// ones of the same key.
pub fn template_context(config: Option<&Vec<(String, ConfigValue)>>) -> (r: Context)
    ensures
        r.wf(),
        config is None ==> r@.len() == 0,
        config matches Some(t) ==> r@ == bind_all(Seq::empty(), text_entries(t@)),
{
    let mut ctx = Context::new();
    match config {
        Some(table) => {
            let mut i: usize = 0;
            while i < table.len()
                invariant
                    0 <= i <= table@.len(),
                    ctx.wf(),
                    ctx@ == bind_all(Seq::empty(), text_entries(table@.take(i as int))),
                decreases table@.len() - i,
            {
                proof {
                    assert(table@.take(i as int + 1).drop_last() =~= table@.take(i as int));
                    assert(table@.take(i as int + 1).last() == table@[i as int]);
                }
                match &table[i].1 {
                    ConfigValue::Text(s) => {
                        ctx.set(table[i].0.clone(), s.clone());
                        proof {
                            let e = text_entries(table@.take(i as int + 1));
                            assert(e == text_entries(table@.take(i as int)).push((table@[i as int].0@, s@)));
                            assert(e.drop_last() =~= text_entries(table@.take(i as int)));
                        }
                    },
                    _ => {},
                }
                i += 1;
            }
            proof {
                assert(table@.take(table@.len() as int) =~= table@);
            }
        },
        None => {},
    }
    ctx
}

// ---- the life of one task ----------------------------------------------------

/// A hook list of a task.
#[derive(PartialEq, Eq, Structural, Clone, Copy, Debug)]
pub enum HookList {
    OnStart,
    OnError,
    OnFinish,
}

/// Where a task's execution stands.
#[derive(PartialEq, Eq, Structural, Clone, Copy, Debug)]
pub enum Phase {
    /// Running the `on_start` hook at this index next.
    Starting(usize),
    /// Waiting for the body's outcome.
    Body,
    /// Running the `on_error` hook at this index next.
    Failing(usize),
    /// Recording the outcome next.
    Committing,
    /// Running the `on_finish` hook at this index next.
    Finishing(usize),
    Done,
}

/// What the runner does next for a task.
#[derive(PartialEq, Eq, Structural, Clone, Copy, Debug)]
pub enum Step {
    /// Run hook `index` of the list.
    Hook(HookList, usize),
    /// Run the task's body and report its outcome.
    RunBody,
    /// Record the outcome in the task's status cell.
    Commit(bool),
    Finished,
}

pub open spec fn hook_len(hooks: Option<Vec<Dependency>>) -> nat {
    edges(hooks).len()
}

fn hook_count(hooks: &Option<Vec<Dependency>>) -> (r: usize)
    ensures
        r == hook_len(*hooks),
{
    match hooks {
        Some(v) => v.len(),
        None => 0,
    }
}

/// The step taken in phase `phase` with body outcome `success`, and the
/// phase after it.
pub open spec fn step_of(task: Task, phase: Phase, success: bool) -> (Step, Phase) {
    match phase {
        Phase::Starting(i) => if i < hook_len(task.on_start) {
            (Step::Hook(HookList::OnStart, i), Phase::Starting((i + 1) as usize))
        } else {
            (Step::RunBody, Phase::Body)
        },
        Phase::Body => (Step::RunBody, Phase::Body),
        Phase::Failing(i) => if i < hook_len(task.on_error) {
            (Step::Hook(HookList::OnError, i), Phase::Failing((i + 1) as usize))
        } else {
            (Step::Commit(success), Phase::Finishing(0))
        },
        Phase::Committing => (Step::Commit(success), Phase::Finishing(0)),
        Phase::Finishing(i) => if i < hook_len(task.on_finish) {
            (Step::Hook(HookList::OnFinish, i), Phase::Finishing((i + 1) as usize))
        } else {
            (Step::Finished, Phase::Done)
        },
        Phase::Done => (Step::Finished, Phase::Done),
    }
}

/// The execution of one task: its `on_start` hooks in order, its body, its
/// `on_error` hooks in order when the body failed, the record of the
/// outcome, then its `on_finish` hooks in order.
pub struct TaskRun {
    pub phase: Phase,
    /// The body's outcome, once reported.
    pub success: bool,
    /// Whether the outcome has been handed out for recording.
    pub committed: bool,
}

impl TaskRun {
    /// Whether `committed` tells the truth about the phase: the outcome is
    /// recorded exactly from the `on_finish` hooks on.
    pub open spec fn wf(&self) -> bool {
        self.committed <==> (self.phase matches Phase::Finishing(_) || self.phase == Phase::Done)
    }

    pub open spec fn new_phase() -> Phase {
        Phase::Starting(0)
    }

    pub fn new() -> (r: TaskRun)
        ensures
            r.phase == Self::new_phase(),
            !r.committed,
            r.wf(),
    {
        TaskRun { phase: Phase::Starting(0), success: false, committed: false }
    }

    /// The next step for `task`; the phase moves on past it.
    pub fn next_step(&mut self, task: &Task) -> (r: Step)
        requires
            old(self).wf(),
            old(self).phase matches Phase::Starting(i) ==> i < usize::MAX,
            old(self).phase matches Phase::Failing(i) ==> i < usize::MAX,
            old(self).phase matches Phase::Finishing(i) ==> i < usize::MAX,
        ensures
            (r, final(self).phase) == step_of(*task, old(self).phase, old(self).success),
            final(self).success == old(self).success,
            final(self).committed == (old(self).committed || r is Commit),
            final(self).wf(),
            r is Finished ==> final(self).committed,
            r matches Step::Commit(b) ==> b == old(self).success,
    {
        let (step, next) = match self.phase {
            Phase::Starting(i) => if i < hook_count(&task.on_start) {
                (Step::Hook(HookList::OnStart, i), Phase::Starting(i + 1))
            } else {
                (Step::RunBody, Phase::Body)
            },
            Phase::Body => (Step::RunBody, Phase::Body),
            Phase::Failing(i) => if i < hook_count(&task.on_error) {
                (Step::Hook(HookList::OnError, i), Phase::Failing(i + 1))
            } else {
                (Step::Commit(self.success), Phase::Finishing(0))
            },
            Phase::Committing => (Step::Commit(self.success), Phase::Finishing(0)),
            Phase::Finishing(i) => if i < hook_count(&task.on_finish) {
                (Step::Hook(HookList::OnFinish, i), Phase::Finishing(i + 1))
            } else {
                (Step::Finished, Phase::Done)
            },
            Phase::Done => (Step::Finished, Phase::Done),
        };
        self.phase = next;
        if let Step::Commit(_) = step {
            self.committed = true;
        }
        step
    }

    /// Reports the body's outcome: a failure goes through the `on_error`
    /// hooks, a success straight to recording.
    pub fn body_done(&mut self, success: bool)
        requires
            old(self).phase == Phase::Body,
            old(self).wf(),
        ensures
            final(self).success == success,
            final(self).phase == (if success { Phase::Committing } else { Phase::Failing(0) }),
            final(self).committed == old(self).committed,
            final(self).wf(),
    {
        self.success = success;
        self.phase = if success { Phase::Committing } else { Phase::Failing(0) };
    }
}

/// Hooks `i`, `i + 1`, ... below `n` of `list`, as steps.
pub open spec fn hook_steps(list: HookList, i: nat, n: nat) -> Seq<Step> {
    Seq::new((n - i) as nat, |k: int| Step::Hook(list, (i + k) as usize))
}

/// The steps of a task whose body ends in `outcome`.
pub open spec fn life_of(task: Task, outcome: bool) -> Seq<Step> {
    hook_steps(HookList::OnStart, 0, hook_len(task.on_start)) + seq![Step::RunBody] + (if outcome {
        Seq::empty()
    } else {
        hook_steps(HookList::OnError, 0, hook_len(task.on_error))
    }) + seq![Step::Commit(outcome)] + hook_steps(HookList::OnFinish, 0, hook_len(task.on_finish)) + seq![
        Step::Finished,
    ]
}

/// The steps that a runner sees from `phase` on, at most `fuel` of them,
/// when the body ends in `outcome`.
pub open spec fn drive(task: Task, phase: Phase, success: bool, outcome: bool, fuel: nat) -> Seq<Step>
    decreases fuel,
{
    if fuel == 0 {
        Seq::empty()
    } else {
        let (st, next) = step_of(task, phase, success);
        if st is Finished {
            seq![Step::Finished]
        } else if st is RunBody {
            seq![Step::RunBody] + drive(
                task,
                if outcome { Phase::Committing } else { Phase::Failing(0) },
                outcome,
                outcome,
                (fuel - 1) as nat,
            )
        } else {
            seq![st] + drive(task, next, success, outcome, (fuel - 1) as nat)
        }
    }
}

pub open spec fn hooks_fit(task: Task) -> bool {
    hook_len(task.on_start) < usize::MAX && hook_len(task.on_error) < usize::MAX && hook_len(task.on_finish)
        < usize::MAX
}

proof fn lemma_drive_finish(task: Task, i: nat, success: bool, outcome: bool, fuel: nat)
    requires
        hooks_fit(task),
        i <= hook_len(task.on_finish),
        fuel > hook_len(task.on_finish) - i,
    ensures
        drive(task, Phase::Finishing(i as usize), success, outcome, fuel) == hook_steps(
            HookList::OnFinish,
            i,
            hook_len(task.on_finish),
        ) + seq![Step::Finished],
    decreases hook_len(task.on_finish) - i,
{
    let n = hook_len(task.on_finish);
    if i < n {
        lemma_drive_finish(task, i + 1, success, outcome, (fuel - 1) as nat);
        assert(hook_steps(HookList::OnFinish, i, n) =~= seq![Step::Hook(HookList::OnFinish, i as usize)]
            + hook_steps(HookList::OnFinish, i + 1, n));
    } else {
        assert(hook_steps(HookList::OnFinish, i, n) =~= Seq::<Step>::empty());
    }
}

proof fn lemma_drive_fail(task: Task, i: nat, outcome: bool, fuel: nat)
    requires
        hooks_fit(task),
        i <= hook_len(task.on_error),
        fuel > hook_len(task.on_error) - i + 1 + hook_len(task.on_finish),
    ensures
        drive(task, Phase::Failing(i as usize), false, outcome, fuel) == hook_steps(
            HookList::OnError,
            i,
            hook_len(task.on_error),
        ) + seq![Step::Commit(false)] + hook_steps(HookList::OnFinish, 0, hook_len(task.on_finish)) + seq![
            Step::Finished,
        ],
    decreases hook_len(task.on_error) - i,
{
    let n = hook_len(task.on_error);
    if i < n {
        lemma_drive_fail(task, i + 1, outcome, (fuel - 1) as nat);
        assert(hook_steps(HookList::OnError, i, n) =~= seq![Step::Hook(HookList::OnError, i as usize)] + hook_steps(
            HookList::OnError,
            i + 1,
            n,
        ));
    } else {
        lemma_drive_finish(task, 0, false, outcome, (fuel - 1) as nat);
        assert(hook_steps(HookList::OnError, i, n) =~= Seq::<Step>::empty());
    }
}

proof fn lemma_drive_start(task: Task, i: nat, outcome: bool, fuel: nat)
    requires
        hooks_fit(task),
        i <= hook_len(task.on_start),
        fuel > hook_len(task.on_start) - i + hook_len(task.on_error) + hook_len(task.on_finish) + 3,
    ensures
        drive(task, Phase::Starting(i as usize), false, outcome, fuel) == hook_steps(
            HookList::OnStart,
            i,
            hook_len(task.on_start),
        ) + seq![Step::RunBody] + (if outcome {
            Seq::empty()
        } else {
            hook_steps(HookList::OnError, 0, hook_len(task.on_error))
        }) + seq![Step::Commit(outcome)] + hook_steps(HookList::OnFinish, 0, hook_len(task.on_finish)) + seq![
            Step::Finished,
        ],
    decreases hook_len(task.on_start) - i,
{
    let n = hook_len(task.on_start);
    let tail = (if outcome {
        Seq::empty()
    } else {
        hook_steps(HookList::OnError, 0, hook_len(task.on_error))
    }) + seq![Step::Commit(outcome)] + hook_steps(HookList::OnFinish, 0, hook_len(task.on_finish)) + seq![
        Step::Finished,
    ];
    if i < n {
        lemma_drive_start(task, i + 1, outcome, (fuel - 1) as nat);
        assert(hook_steps(HookList::OnStart, i, n) =~= seq![Step::Hook(HookList::OnStart, i as usize)] + hook_steps(
            HookList::OnStart,
            i + 1,
            n,
        ));
        assert(drive(task, Phase::Starting(i as usize), false, outcome, fuel) =~= hook_steps(HookList::OnStart, i, n)
            + seq![Step::RunBody] + tail);
    } else {
        assert(hook_steps(HookList::OnStart, i, n) =~= Seq::<Step>::empty());
        let f = (fuel - 1) as nat;
        if outcome {
            lemma_drive_finish(task, 0, true, true, (f - 1) as nat);
            assert(drive(task, Phase::Committing, true, true, f) =~= seq![Step::Commit(true)] + hook_steps(
                HookList::OnFinish,
                0,
                hook_len(task.on_finish),
            ) + seq![Step::Finished]);
        } else {
            lemma_drive_fail(task, 0, false, f);
        }
        assert(drive(task, Phase::Starting(i as usize), false, outcome, fuel) =~= hook_steps(HookList::OnStart, i, n)
            + seq![Step::RunBody] + tail);
    }
}

/// Every run of a task goes through its `on_start` hooks in order, its
/// body, its `on_error` hooks in order exactly when the body failed, one
/// record of the body's outcome, its `on_finish` hooks in order, and then
/// ends: an executed task always leaves its outcome in its status cell,
/// and nothing else is recorded for it.
pub proof fn lemma_task_life(task: Task, outcome: bool)
    requires
        hooks_fit(task),
    ensures
        drive(
            task,
            TaskRun::new_phase(),
            false,
            outcome,
            hook_len(task.on_start) + hook_len(task.on_error) + hook_len(task.on_finish) + 4,
        ) =~= life_of(task, outcome),
{
    lemma_drive_start(
        task,
        0,
        outcome,
        hook_len(task.on_start) + hook_len(task.on_error) + hook_len(task.on_finish) + 4,
    );
}

// ---- retries ---------------------------------------------------------------

/// After attempt number `attempt` (counting from one) ended in `success`:
/// `Some(outcome)` when the task is done, `None` when it runs again.
pub open spec fn retry_step(retry: nat, attempt: nat, success: bool) -> Option<bool> {
    if success {
        Some(true)
    } else if attempt > retry {
        Some(false)
    } else {
        None
    }
}

/// Decides what follows attempt number `attempt` (counting from one) of a
/// command allowed `retry` further attempts after a failure.
pub fn next_attempt(retry: usize, attempt: usize, success: bool) -> (r: Option<bool>)
    ensures
        r == retry_step(retry as nat, attempt as nat, success),
{
    if success {
        Some(true)
    } else if attempt > retry {
        Some(false)
    } else {
        None
    }
}

/// Number of attempts made, and the outcome, when attempt `a + 1` onwards
/// end as `outcomes[a]`, `outcomes[a + 1]`, ... say.
pub open spec fn run_attempts(retry: nat, outcomes: Seq<bool>, a: nat) -> (nat, bool)
    decreases retry + 1 - a,
{
    if a >= outcomes.len() || a > retry {
        (a, false)
    } else {
        match retry_step(retry, a + 1, outcomes[a as int]) {
            Some(b) => (a + 1, b),
            None => run_attempts(retry, outcomes, a + 1),
        }
    }
}

/// With `retry = N`, a command runs at most N + 1 times; it stops right
/// after its first success, and it succeeds exactly when one of its first
/// N + 1 runs does.
pub proof fn lemma_retry_bound(retry: nat, outcomes: Seq<bool>)
    requires
        outcomes.len() > retry,
    ensures
        run_attempts(retry, outcomes, 0).0 <= retry + 1,
        run_attempts(retry, outcomes, 0).0 >= 1,
        forall|j: int|
            0 <= j <= retry && outcomes[j] && (forall|i: int| 0 <= i < j ==> !outcomes[i]) ==> run_attempts(
                retry,
                outcomes,
                0,
            ) == ((j + 1) as nat, true),
        run_attempts(retry, outcomes, 0).1 <==> exists|i: int| 0 <= i <= retry && outcomes[i],
{
    lemma_retry_from(retry, outcomes, 0);
}

proof fn lemma_retry_from(retry: nat, outcomes: Seq<bool>, a: nat)
    requires
        outcomes.len() > retry,
        a <= retry,
    ensures
        a < run_attempts(retry, outcomes, a).0 <= retry + 1,
        forall|j: int|
            a <= j <= retry && outcomes[j] && (forall|i: int| a <= i < j ==> !outcomes[i]) ==> run_attempts(
                retry,
                outcomes,
                a,
            ) == ((j + 1) as nat, true),
        run_attempts(retry, outcomes, a).1 <==> exists|i: int| a <= i <= retry && outcomes[i],
    decreases retry + 1 - a,
{
    if outcomes[a as int] {
    } else if a + 1 > retry {
    } else {
        lemma_retry_from(retry, outcomes, a + 1);
        assert forall|j: int|
            a <= j <= retry && outcomes[j] && (forall|i: int| a <= i < j ==> !outcomes[i]) implies run_attempts(
            retry,
            outcomes,
            a,
        ) == ((j + 1) as nat, true) by {
            assert(j != a);
        }
        if exists|i: int| a <= i <= retry && outcomes[i] {
            let i = choose|i: int| a <= i <= retry && outcomes[i];
            assert(i != a);
        }
    }
}

} // verus!
