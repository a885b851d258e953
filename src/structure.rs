//! The in-memory workflow model: tasks, templates, plugin references and
//! dependency edges.

use vstd::prelude::*;
use vstd::string::*;
use crate::placeholders::{ConfigValue, same_text};

verus! {

/// The status that a dependency must end in.
#[derive(PartialEq, Eq, Structural, Clone, Copy, Debug)]
pub enum DepStatus {
    Success,
    Failure,
    Any,
}

/// A dependency edge, also the shape of a hook entry.
#[derive(PartialEq, Debug)]
pub enum Dependency {
    /// A bare name: the dependency must succeed.
    Simple(String),
    /// A one-entry mapping from a name to a required status (or, for a
    /// plugin hook, to the plugin's configuration).
    Status(String, ConfigValue),
}

impl Dependency {
    pub open spec fn spec_name(&self) -> Seq<char> {
        match self {
            Dependency::Simple(n) => n@,
            Dependency::Status(n, _) => n@,
        }
    }

    /// The name that the edge refers to, kind prefix included.
    pub fn name(&self) -> (r: &String)
        ensures
            r@ == self.spec_name(),
    {
        match self {
            Dependency::Simple(n) => n,
            Dependency::Status(n, _) => n,
        }
    }
}

/// A task of a workflow.
pub struct Task {
    pub command: Option<String>,
    pub template: Option<String>,
    pub retry: Option<usize>,
    pub retry_delay: Option<usize>,
    pub run: Option<bool>,
    pub plugin: Option<String>,
    pub on_start: Option<Vec<Dependency>>,
    pub on_finish: Option<Vec<Dependency>>,
    pub on_error: Option<Vec<Dependency>>,
    pub config: Option<Vec<(String, ConfigValue)>>,
    pub env: Option<Vec<(String, ConfigValue)>>,
    pub dependencies: Option<Vec<Dependency>>,
}

/// The edges of an optional list, none when the list is absent.
pub open spec fn edges(deps: Option<Vec<Dependency>>) -> Seq<Dependency> {
    match deps {
        Some(v) => v@,
        None => Seq::empty(),
    }
}

impl Task {
    /// Not marked `run = false`.
    pub open spec fn is_runnable(&self) -> bool {
        self.run != Some(false)
    }

    /// The names of the task's dependencies, in order.
    pub open spec fn dep_names(&self) -> Seq<Seq<char>> {
        edges(self.dependencies).map_values(|d: Dependency| d.spec_name())
    }

    pub fn get_dependencies(&self) -> (r: Option<&Vec<Dependency>>)
        ensures
            r is Some <==> self.dependencies is Some,
            r matches Some(v) ==> *v == self.dependencies->Some_0,
    {
        self.dependencies.as_ref()
    }

    pub fn get_config(&self) -> (r: Option<&Vec<(String, ConfigValue)>>)
        ensures
            r is Some <==> self.config is Some,
            r matches Some(v) ==> *v == self.config->Some_0,
    {
        self.config.as_ref()
    }

    pub fn get_env(&self) -> (r: Option<&Vec<(String, ConfigValue)>>)
        ensures
            r is Some <==> self.env is Some,
            r matches Some(v) ==> *v == self.env->Some_0,
    {
        self.env.as_ref()
    }

    pub fn get_on_error(&self) -> (r: Option<&Vec<Dependency>>)
        ensures
            r is Some <==> self.on_error is Some,
            r matches Some(v) ==> *v == self.on_error->Some_0,
    {
        self.on_error.as_ref()
    }

    pub fn get_on_finish(&self) -> (r: Option<&Vec<Dependency>>)
        ensures
            r is Some <==> self.on_finish is Some,
            r matches Some(v) ==> *v == self.on_finish->Some_0,
    {
        self.on_finish.as_ref()
    }

    pub fn get_on_start(&self) -> (r: Option<&Vec<Dependency>>)
        ensures
            r is Some <==> self.on_start is Some,
            r matches Some(v) ==> *v == self.on_start->Some_0,
    {
        self.on_start.as_ref()
    }
}

/// A reusable command, invoked from tasks by name.
pub struct TaskTemplate {
    pub name: String,
    pub command: Option<String>,
    pub retry: Option<usize>,
    pub retry_delay: Option<usize>,
    pub run: Option<bool>,
    pub env: Option<Vec<(String, ConfigValue)>>,
    pub dependencies: Option<Vec<Dependency>>,
}

impl TaskTemplate {
    pub fn get_dependencies(&self) -> (r: Option<&Vec<Dependency>>)
        ensures
            r is Some <==> self.dependencies is Some,
            r matches Some(v) ==> *v == self.dependencies->Some_0,
    {
        self.dependencies.as_ref()
    }

    pub fn get_env(&self) -> (r: Option<&Vec<(String, ConfigValue)>>)
        ensures
            r is Some <==> self.env is Some,
            r matches Some(v) ==> *v == self.env->Some_0,
    {
        self.env.as_ref()
    }
}

/// A plugin that a workflow uses.
pub struct Plugin {
    pub name: String,
    /// A local path or a git URL.
    pub source: String,
    /// The version requirement on the plugin.
    pub version: Option<String>,
    pub config: Option<Vec<(String, ConfigValue)>>,
}

impl Plugin {
    pub fn get_config(&self) -> (r: Option<&Vec<(String, ConfigValue)>>)
        ensures
            r is Some <==> self.config is Some,
            r matches Some(v) ==> *v == self.config->Some_0,
    {
        self.config.as_ref()
    }
}

/// A named set of tasks with their dependencies, templates, plugins and
/// workflow-level hooks.
pub struct WorkFlow {
    pub name: String,
    /// The requirement on the engine version.
    pub version: String,
    pub description: Option<String>,
    pub on_start: Option<Vec<Dependency>>,
    pub on_finish: Option<Vec<Dependency>>,
    /// Tasks by name; names are unique.
    pub tasks: Vec<(String, Task)>,
    pub plugins: Option<Vec<Plugin>>,
    pub templates: Option<Vec<TaskTemplate>>,
}

impl WorkFlow {
    /// Task names are pairwise distinct.
    pub open spec fn wf(&self) -> bool {
        forall|a: int, b: int|
            0 <= a < self.tasks@.len() && 0 <= b < self.tasks@.len() && a != b
                ==> self.tasks@[a].0@ != self.tasks@[b].0@
    }

    pub open spec fn task_name(&self, i: int) -> Seq<char> {
        self.tasks@[i].0@
    }

    /// Position of the task called `name`, if there is one.
    pub open spec fn has_task(&self, name: Seq<char>) -> bool {
        exists|i: int| 0 <= i < self.tasks@.len() && self.tasks@[i].0@ == name
    }

    pub fn new(name: String, version: String, description: Option<String>) -> (r: WorkFlow)
        ensures
            r.name == name,
            r.version == version,
            r.description == description,
            r.on_start is None,
            r.on_finish is None,
            r.tasks@.len() == 0,
            r.plugins is None,
            r.templates is None,
            r.wf(),
    {
        WorkFlow {
            name,
            version,
            description,
            on_finish: None,
            on_start: None,
            tasks: Vec::new(),
            plugins: None,
            templates: None,
        }
    }

    /// Adds a command task called `name`, replacing any task of that name.
    pub fn add_task(&mut self, name: String, command: String, dependencies: Option<Vec<Dependency>>)
        requires
            old(self).wf(),
        ensures
            final(self).wf(),
            final(self).name == old(self).name,
            final(self).version == old(self).version,
            final(self).has_task(name@),
            forall|i: int|
                0 <= i < final(self).tasks@.len() && final(self).tasks@[i].0@ == name@ ==> {
                    let t = final(self).tasks@[i].1;
                    &&& t.command == Some(command)
                    &&& t.dependencies == dependencies
                    &&& t.template is None && t.plugin is None
                    &&& t.run is None && t.retry is None && t.retry_delay is None
                },
            forall|n: Seq<char>| n != name@ ==> (final(self).has_task(n) <==> old(self).has_task(n)),
            forall|i: int|
                0 <= i < old(self).tasks@.len() && old(self).tasks@[i].0@ != name@ ==> #[trigger] final(self).tasks@[i]
                    == old(self).tasks@[i],
            old(self).has_task(name@) ==> final(self).tasks@.len() == old(self).tasks@.len(),
            !old(self).has_task(name@) ==> final(self).tasks@.len() == old(self).tasks@.len() + 1,
    {
        let task = Task {
            command: Some(command),
            plugin: None,
            template: None,
            config: None,
            run: None,
            retry: None,
            retry_delay: None,
            env: None,
            dependencies,
            on_start: None,
            on_finish: None,
            on_error: None,
        };
        let mut j: usize = 0;
        while j < self.tasks.len()
            invariant
                0 <= j <= self.tasks@.len(),
                self == old(self),
                self.wf(),
                forall|k: int| 0 <= k < j ==> self.tasks@[k].0@ != name@,
                task.command == Some(command),
                task.dependencies == dependencies,
                task.template is None && task.plugin is None,
                task.run is None && task.retry is None && task.retry_delay is None,
            decreases self.tasks@.len() - j,
        {
            if self.tasks[j].0 == name {
                let ghost before = self.tasks@;
                let ghost entry = (name, task);
                self.tasks[j] = (name, task);
                proof {
                    assert(self.tasks@[j as int] == entry);

                    assert(self.tasks@ == before.update(j as int, self.tasks@[j as int]));
                    assert forall|i: int| 0 <= i < self.tasks@.len() && self.tasks@[i].0@ == name@ implies i == j by {
                        if i != j {
                            assert(before[i].0@ == name@);
                        }
                    }
                    assert forall|n: Seq<char>| n != name@ implies (self.has_task(n) <==> old(self).has_task(n)) by {
                        if old(self).has_task(n) {
                            let k = choose|k: int| 0 <= k < before.len() && before[k].0@ == n;
                            assert(self.tasks@[k].0@ == n);
                        }
                        if self.has_task(n) {
                            let k = choose|k: int| 0 <= k < self.tasks@.len() && self.tasks@[k].0@ == n;
                            assert(before[k].0@ == n);
                        }
                    }
                    assert(self.has_task(name@));
                }
                return;
            }
            j += 1;
        }
        let ghost before = self.tasks@;
        self.tasks.push((name, task));
        proof {
            let last = self.tasks@.len() - 1;
            assert(self.tasks@[last].0@ == name@);
            assert(self.has_task(name@));
            assert forall|n: Seq<char>| n != name@ implies (self.has_task(n) <==> old(self).has_task(n)) by {
                if old(self).has_task(n) {
                    let k = choose|k: int| 0 <= k < before.len() && before[k].0@ == n;
                    assert(self.tasks@[k].0@ == n);
                }
                if self.has_task(n) {
                    let k = choose|k: int| 0 <= k < self.tasks@.len() && self.tasks@[k].0@ == n;
                    assert(before[k].0@ == n);
                }
            }
        }
    }

    /// The task called `name`.
    pub fn get_task(&self, name: &str) -> (r: Option<&Task>)
        ensures
            r is Some <==> self.has_task(name@),
            r matches Some(t) ==> exists|i: int|
                0 <= i < self.tasks@.len() && self.tasks@[i].0@ == name@ && self.tasks@[i].1 == *t,
    {
        let mut j: usize = 0;
        while j < self.tasks.len()
            invariant
                0 <= j <= self.tasks@.len(),
                forall|k: int| 0 <= k < j ==> self.tasks@[k].0@ != name@,
            decreases self.tasks@.len() - j,
        {
            if same_text(self.tasks[j].0.as_str(), name) {
                return Some(&self.tasks[j].1);
            }
            j += 1;
        }
        None
    }

    pub fn get_tasks(&self) -> (r: &Vec<(String, Task)>)
        ensures
            r == &self.tasks,
    {
        &self.tasks
    }

    pub fn get_plugins(&self) -> (r: Option<&Vec<Plugin>>)
        ensures
            r is Some <==> self.plugins is Some,
            r matches Some(v) ==> *v == self.plugins->Some_0,
    {
        self.plugins.as_ref()
    }

    pub fn get_on_finish(&self) -> (r: Option<&Vec<Dependency>>)
        ensures
            r is Some <==> self.on_finish is Some,
            r matches Some(v) ==> *v == self.on_finish->Some_0,
    {
        self.on_finish.as_ref()
    }

    pub fn get_on_start(&self) -> (r: Option<&Vec<Dependency>>)
        ensures
            r is Some <==> self.on_start is Some,
            r matches Some(v) ==> *v == self.on_start->Some_0,
    {
        self.on_start.as_ref()
    }

    /// The first template called `name`. The workflow must have a template
    /// section.
    pub fn get_template(&self, name: &str) -> (r: Option<&TaskTemplate>)
        requires
            self.templates is Some,
        ensures
            r is Some <==> exists|i: int|
                0 <= i < self.templates->Some_0@.len() && self.templates->Some_0@[i].name@ == name@,
            r matches Some(t) ==> exists|i: int|
                0 <= i < self.templates->Some_0@.len() && self.templates->Some_0@[i].name@ == name@
                    && self.templates->Some_0@[i] == *t,
    {
        let templates = self.templates.as_ref().unwrap();
        let mut j: usize = 0;
        while j < templates.len()
            invariant
                0 <= j <= templates@.len(),
                templates == self.templates->Some_0,
                forall|k: int| 0 <= k < j ==> templates@[k].name@ != name@,
            decreases templates@.len() - j,
        {
            if same_text(templates[j].name.as_str(), name) {
                return Some(&templates[j]);
            }
            j += 1;
        }
        None
    }
}

/// Splits `dep` at its first `:` into kind and name.
pub open spec fn split_kind(dep: Seq<char>) -> (Seq<char>, Seq<char>) {
    if exists|i: int| 0 <= i < dep.len() && dep[i] == ':' {
        let p = choose|p: int| 0 <= p < dep.len() && dep[p] == ':' && forall|k: int| 0 <= k < p ==> dep[k] != ':';
        (dep.subrange(0, p), dep.subrange(p + 1, dep.len() as int))
    } else {
        (seq!['t', 'a', 's', 'k'], dep)
    }
}

/// Splits a dependency name into its kind and the name proper: `kind:name`
/// at the first `:`, or `task` and the whole name when there is none.
pub fn parse_dependency(dep: &str) -> (r: (&str, &str))
    ensures
        (r.0@, r.1@) == split_kind(dep@),
{
    let n = dep.unicode_len();
    let mut i: usize = 0;
    while i < n
        invariant
            n == dep@.len(),
            0 <= i <= n,
            forall|k: int| 0 <= k < i ==> dep@[k] != ':',
        decreases n - i,
    {
        if dep.get_char(i) == ':' {
            let kind = dep.substring_char(0, i);
            let rest = dep.substring_char(i + 1, n);
            proof {
                let p = choose|p: int| 0 <= p < dep@.len() && dep@[p] == ':' && forall|k: int| 0 <= k < p ==> dep@[k] != ':';
                if p < i {
                    assert(dep@[p] != ':');
                }
                if p > i {
                    assert(dep@[i as int] != ':');
                }
                assert(p == i);
            }
            return (kind, rest);
        }
        i += 1;
    }
    proof {
        reveal_strlit("task");
    }
    ("task", dep)
}

} // verus!
