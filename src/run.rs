use vstd::prelude::*;
use vstd::string::StringExecFns;
use crate::model::{
    Job, JobStatus, JobStatusView, JobView, Status, Step, StepStatus, StepStatusView, StepView,
    Task, TaskStatus, TaskStatusView, TaskView, copy_texts, texts, owned, job_views, task_views,
};
use crate::schedule::{
    Decision, Schedule, ScheduleError, distinct, first_repeat, missing, nested_texts, precedes,
};
use crate::tracker::{JobTracker, StepTracker, TaskTracker, step_of, task_of, with_step_of, with_task_of};

verus! {

/// Why a run, a job, a task or a step did not complete.
#[derive(Debug)]
pub enum Error {
    /// Nothing can start and nothing is running, yet nodes are left.
    CircularDependency,
    /// The process of a step ended unsuccessfully, with this exit code if it had one.
    Exit(Option<i32>),
    /// A process could not be started or awaited, or a file could not be read.
    Io(String),
    /// A job failed; it carries the job.
    JobFailed(Job),
    /// A launched unit of work ended abnormally.
    Join(String),
    /// A dependency names no node.
    MissingDependency(String),
    /// Two nodes of one collection share this name.
    DuplicateName(String),
    /// A job definition could not be read.
    Serde(String),
    /// A task failed; it carries the task.
    TaskFailed(Task),
}

impl Decision {
    /// The decision as the outcome of a scheduler: a schedule that is stuck
    /// fails with `CircularDependency`; any other decision stands.
    pub fn checked(self) -> (r: Result<Decision, Error>)
        ensures
            self is Stuck ==> r matches Err(Error::CircularDependency),
            !(self is Stuck) ==> r == Ok::<Decision, Error>(self),
    {
        match self {
            Decision::Stuck => Err(Error::CircularDependency),
            other => Ok(other),
        }
    }
}

/// Every name of `depends` is among `names`.
pub open spec fn covered(depends: Seq<Seq<char>>, names: Seq<Seq<char>>) -> bool {
    forall|k: int| 0 <= k < depends.len() ==> names.contains(#[trigger] depends[k])
}

/// Whether every name of `depends` is among the names of `names`.
fn all_named(depends: &Vec<String>, names: &Vec<String>) -> (r: bool)
    ensures
        r == covered(texts(depends@), texts(names@)),
{
    let mut k: usize = 0;
    while k < depends.len()
        invariant
            k <= depends.len(),
            forall|m: int| 0 <= m < k ==> texts(names@).contains(#[trigger] texts(depends@)[m]),
        decreases depends.len() - k,
    {
        if !crate::schedule::contains_name(names, &depends[k]) {
            assert(texts(depends@)[k as int] == depends@[k as int]@);
            return false;
        }
        k = k + 1;
    }
    true
}

pub open spec fn job_names(jobs: Seq<JobView>) -> Seq<Seq<char>> {
    jobs.map_values(|j: JobView| j.name)
}

pub open spec fn task_names(tasks: Seq<TaskView>) -> Seq<Seq<char>> {
    tasks.map_values(|t: TaskView| t.name)
}

pub open spec fn step_mirror(s: StepView) -> StepStatusView {
    match s {
        StepView::Command { args } => StepStatusView {
            args,
            output: Seq::empty(),
            status: Status::Pending,
        },
    }
}

pub open spec fn task_mirror(t: TaskView) -> TaskStatusView {
    TaskStatusView {
        name: t.name,
        depends: t.depends,
        steps: t.steps.map_values(|s: StepView| step_mirror(s)),
        status: Status::Pending,
    }
}

/// The record that tracks `j` before it runs: everything pending, no output.
pub open spec fn job_mirror(j: JobView) -> JobStatusView {
    JobStatusView {
        name: j.name,
        depends: j.depends,
        tasks: j.tasks.map_values(|t: TaskView| task_mirror(t)),
        status: Status::Pending,
    }
}

/// `m` with the record of each job of `jobs` registered, in order.
pub open spec fn registered(m: Map<Seq<char>, JobStatusView>, jobs: Seq<JobView>) -> Map<
    Seq<char>,
    JobStatusView,
>
    decreases jobs.len(),
{
    if jobs.len() == 0 {
        m
    } else {
        registered(m, jobs.drop_last()).insert(jobs.last().name, job_mirror(jobs.last()))
    }
}

impl StepStatus {
    /// The record of `step` before it runs.
    pub fn pending(step: &Step) -> (r: StepStatus)
        ensures
            r@ == step_mirror(step@),
    {
        match step {
            Step::Command { args } => {
                let r = StepStatus::Command {
                    args: copy_texts(args),
                    output: Vec::new(),
                    status: Status::Pending,
                };
                assert(texts(Seq::<String>::empty()) =~= Seq::<Seq<char>>::empty());
                r
            },
        }
    }
}

impl TaskStatus {
    /// The record of `task` before it runs.
    pub fn pending(task: &Task) -> (r: TaskStatus)
        ensures
            r@ == task_mirror(task@),
    {
        let mut steps: Vec<StepStatus> = Vec::new();
        let mut i: usize = 0;
        while i < task.steps.len()
            invariant
                i <= task.steps.len(),
                steps.len() == i,
                forall|k: int| 0 <= k < i ==> (#[trigger] steps@[k])@ == step_mirror(task.steps@[k]@),
            decreases task.steps.len() - i,
        {
            steps.push(StepStatus::pending(&task.steps[i]));
            i = i + 1;
        }
        let r = TaskStatus {
            name: task.name.clone(),
            depends: copy_texts(&task.depends),
            steps,
            status: Status::Pending,
        };
        assert(r@.steps =~= task_mirror(task@).steps);
        r
    }
}

impl JobStatus {
    /// The record of `job` before it runs.
    pub fn pending(job: &Job) -> (r: JobStatus)
        ensures
            r@ == job_mirror(job@),
    {
        let mut tasks: Vec<TaskStatus> = Vec::new();
        let mut i: usize = 0;
        while i < job.tasks.len()
            invariant
                i <= job.tasks.len(),
                tasks.len() == i,
                forall|k: int| 0 <= k < i ==> (#[trigger] tasks@[k])@ == task_mirror(job.tasks@[k]@),
            decreases job.tasks.len() - i,
        {
            tasks.push(TaskStatus::pending(&job.tasks[i]));
            i = i + 1;
        }
        let r = JobStatus {
            name: job.name.clone(),
            depends: copy_texts(&job.depends),
            tasks,
            status: Status::Pending,
        };
        assert(r@.tasks =~= job_mirror(job@).tasks);
        r
    }
}

pub open spec fn job_deps(jobs: Seq<JobView>) -> Seq<Seq<Seq<char>>> {
    jobs.map_values(|j: JobView| j.depends)
}

pub open spec fn task_deps(tasks: Seq<TaskView>) -> Seq<Seq<Seq<char>>> {
    tasks.map_values(|t: TaskView| t.depends)
}

/// Dependency `k` of node `i` is the first, in declaration order, that names
/// no node.
pub open spec fn first_missing(
    names: Seq<Seq<char>>,
    depends: Seq<Seq<Seq<char>>>,
    i: int,
    k: int,
) -> bool {
    &&& missing(names, depends, i, k)
    &&& forall|i2: int, k2: int| #[trigger] precedes(i2, k2, i, k) ==> !missing(names, depends, i2, k2)
}

/// `t` with its status set to `status`.
pub open spec fn task_restatus(t: TaskStatusView, status: Status) -> TaskStatusView {
    TaskStatusView { status, ..t }
}

/// `j` with its status set to `status`.
pub open spec fn job_restatus(j: JobStatusView, status: Status) -> JobStatusView {
    JobStatusView { status, ..j }
}

/// The status a node ends with: finished if it succeeded, failed otherwise.
pub open spec fn outcome_status(ok: bool) -> Status {
    if ok {
        Status::Finished
    } else {
        Status::Failed
    }
}

/// `s` with its status set to `status`.
pub open spec fn restatus(s: StepStatusView, status: Status) -> StepStatusView {
    StepStatusView { status, ..s }
}

/// The names of `tasks`.
fn names_of_tasks(tasks: &Vec<Task>) -> (r: Vec<String>)
    ensures
        r.len() == tasks.len(),
        texts(r@) == task_names(task_views(tasks@)),
{
    let mut names: Vec<String> = Vec::new();
    let mut i: usize = 0;
    while i < tasks.len()
        invariant
            i <= tasks.len(),
            names.len() == i,
            forall|m: int| 0 <= m < i ==> (#[trigger] names@[m])@ == tasks@[m].name@,
        decreases tasks.len() - i,
    {
        names.push(tasks[i].name.clone());
        i = i + 1;
    }
    assert(texts(names@) =~= task_names(task_views(tasks@)));
    names
}

/// The dependency lists of `tasks`.
fn depends_of_tasks(tasks: &Vec<Task>) -> (r: Vec<Vec<String>>)
    ensures
        r.len() == tasks.len(),
        nested_texts(r@) == task_deps(task_views(tasks@)),
{
    let mut depends: Vec<Vec<String>> = Vec::new();
    let mut i: usize = 0;
    while i < tasks.len()
        invariant
            i <= tasks.len(),
            depends.len() == i,
            forall|m: int| 0 <= m < i ==> texts((#[trigger] depends@[m])@) == texts(tasks@[m].depends@),
        decreases tasks.len() - i,
    {
        depends.push(copy_texts(&tasks[i].depends));
        i = i + 1;
    }
    assert(nested_texts(depends@) =~= task_deps(task_views(tasks@)));
    depends
}

/// The names of `jobs`.
fn names_of_jobs(jobs: &Vec<Job>) -> (r: Vec<String>)
    ensures
        r.len() == jobs.len(),
        texts(r@) == job_names(job_views(jobs@)),
{
    let mut names: Vec<String> = Vec::new();
    let mut i: usize = 0;
    while i < jobs.len()
        invariant
            i <= jobs.len(),
            names.len() == i,
            forall|m: int| 0 <= m < i ==> (#[trigger] names@[m])@ == jobs@[m].name@,
        decreases jobs.len() - i,
    {
        names.push(jobs[i].name.clone());
        i = i + 1;
    }
    assert(texts(names@) =~= job_names(job_views(jobs@)));
    names
}

/// The dependency lists of `jobs`.
fn depends_of_jobs(jobs: &Vec<Job>) -> (r: Vec<Vec<String>>)
    ensures
        r.len() == jobs.len(),
        nested_texts(r@) == job_deps(job_views(jobs@)),
{
    let mut depends: Vec<Vec<String>> = Vec::new();
    let mut i: usize = 0;
    while i < jobs.len()
        invariant
            i <= jobs.len(),
            depends.len() == i,
            forall|m: int| 0 <= m < i ==> texts((#[trigger] depends@[m])@) == texts(jobs@[m].depends@),
        decreases jobs.len() - i,
    {
        depends.push(copy_texts(&jobs[i].depends));
        i = i + 1;
    }
    assert(nested_texts(depends@) =~= job_deps(job_views(jobs@)));
    depends
}

impl Task {
    /// Whether every dependency of the task names one of `finished`.
    pub fn ready(&self, finished: &Vec<Task>) -> (r: bool)
        ensures
            r == covered(self@.depends, task_names(task_views(finished@))),
    {
        let names = names_of_tasks(finished);
        all_named(&self.depends, &names)
    }

    pub fn copy(&self) -> (r: Task)
        ensures
            r@ == self@,
    {
        let mut steps: Vec<Step> = Vec::new();
        let mut i: usize = 0;
        while i < self.steps.len()
            invariant
                i <= self.steps.len(),
                steps.len() == i,
                forall|k: int| 0 <= k < i ==> (#[trigger] steps@[k])@ == self.steps@[k]@,
            decreases self.steps.len() - i,
        {
            steps.push(self.steps[i].copy());
            i = i + 1;
        }
        let r = Task { name: self.name.clone(), depends: copy_texts(&self.depends), steps };
        assert(r@.steps =~= self@.steps);
        r
    }
}

impl Job {
    pub fn new(name: String) -> (r: Job)
        ensures
            r@.name == name@,
            r@.depends.len() == 0,
            r@.tasks.len() == 0,
    {
        Job { name, depends: Vec::new(), tasks: Vec::new() }
    }

    /// Adds a dependency on the job named `name`.
    pub fn depends(&mut self, name: String)
        ensures
            final(self)@ == (JobView { depends: old(self)@.depends.push(name@), ..old(self)@ }),
    {
        let ghost pre = self@;
        self.depends.push(name);
        assert(self@.depends =~= pre.depends.push(self.depends@.last()@));
    }

    /// Whether every dependency of this job names one of `finished`.
    pub fn ready(&self, finished: &Vec<Job>) -> (r: bool)
        ensures
            r == covered(self@.depends, job_names(job_views(finished@))),
    {
        let names = names_of_jobs(finished);
        all_named(&self.depends, &names)
    }

    pub fn copy(&self) -> (r: Job)
        ensures
            r@ == self@,
    {
        let mut tasks: Vec<Task> = Vec::new();
        let mut i: usize = 0;
        while i < self.tasks.len()
            invariant
                i <= self.tasks.len(),
                tasks.len() == i,
                forall|k: int| 0 <= k < i ==> (#[trigger] tasks@[k])@ == self.tasks@[k]@,
            decreases self.tasks.len() - i,
        {
            tasks.push(self.tasks[i].copy());
            i = i + 1;
        }
        let r = Job { name: self.name.clone(), depends: copy_texts(&self.depends), tasks };
        assert(r@.tasks =~= self@.tasks);
        r
    }

    /// The schedule of the tasks of this job, with every task pending. If a
    /// task depends on a name that no task of the job has, fails with the
    /// first such dependency; failing that, if two tasks share a name, with
    /// the first repeated name. Either name is qualified by the name of the
    /// job as `<job>/<name>`.
    pub fn schedule(&self) -> (r: Result<Schedule, Error>)
        ensures
            match r {
                Ok(s) => {
                    &&& s@.wf()
                    &&& s@.satisfiable()
                    &&& s@.unique_names()
                    &&& s@.names == task_names(self@.tasks)
                    &&& s@.depends == task_deps(self@.tasks)
                    &&& s@.finished.len() == 0
                    &&& forall|i: int| s@.valid_node(i) ==> s@.status[i] == Status::Pending
                },
                Err(Error::MissingDependency(d)) => exists|i: int, k: int|
                    {
                        &&& #[trigger] first_missing(task_names(self@.tasks), task_deps(self@.tasks), i, k)
                        &&& d@ == self@.name + "/"@ + self@.tasks[i].depends[k]
                    },
                Err(Error::DuplicateName(d)) => exists|n: Seq<char>|
                    {
                        &&& #[trigger] first_repeat(task_names(self@.tasks), n)
                        &&& d@ == self@.name + "/"@ + n
                    },
                Err(_) => false,
            },
            r matches Err(Error::MissingDependency(_)) <==> exists|i: int, k: int|
                #[trigger] missing(task_names(self@.tasks), task_deps(self@.tasks), i, k),
            r is Ok <==> (forall|i: int, k: int|
                !#[trigger] missing(task_names(self@.tasks), task_deps(self@.tasks), i, k))
                && distinct(task_names(self@.tasks)),
    {
        let names = names_of_tasks(&self.tasks);
        let depends = depends_of_tasks(&self.tasks);
        let ghost ns = texts(names@);
        let ghost ds = nested_texts(depends@);
        let ghost dv = depends@;
        match Schedule::new(names, depends) {
            Ok(s) => Ok(s),
            Err(ScheduleError::Missing(d)) => {
                proof {
                    let (i, k) = choose|i: int, k: int|
                        {
                            &&& missing(ns, ds, i, k)
                            &&& d@ == dv[i]@[k]@
                            &&& forall|i2: int, k2: int|
                                #[trigger] precedes(i2, k2, i, k) ==> !missing(ns, ds, i2, k2)
                        };
                    assert(first_missing(ns, ds, i, k));
                    assert(ds[i][k] == dv[i]@[k]@);
                    assert(d@ == self@.tasks[i].depends[k]);
                }
                let q = <String as StringExecFns>::concat(self.name.clone(), "/");
                let q = <String as StringExecFns>::concat(q, d.as_str());
                Err(Error::MissingDependency(q))
            },
            Err(ScheduleError::Duplicate(d)) => {
                assert(first_repeat(task_names(self@.tasks), d@));
                let q = <String as StringExecFns>::concat(self.name.clone(), "/");
                let q = <String as StringExecFns>::concat(q, d.as_str());
                assert(q@ == self@.name + "/"@ + d@);
                Err(Error::DuplicateName(q))
            },
        }
    }
}

impl Job {
    /// Puts the tasks in the order `order` gives, as indices into the
    /// current tasks: once every task has finished, the completion order.
    pub fn reorder(&mut self, order: &Vec<usize>)
        requires
            forall|p: int| 0 <= p < order@.len() ==> #[trigger] order@[p] < old(self).tasks@.len(),
        ensures
            final(self)@.name == old(self)@.name,
            final(self)@.depends == old(self)@.depends,
            final(self)@.tasks == order@.map_values(|i: usize| old(self)@.tasks[i as int]),
    {
        let ghost pre = self@;
        let mut tasks: Vec<Task> = Vec::new();
        let mut p: usize = 0;
        while p < order.len()
            invariant
                self@ == pre,
                p <= order.len(),
                tasks.len() == p,
                forall|q: int| 0 <= q < order@.len() ==> #[trigger] order@[q] < self.tasks@.len(),
                forall|q: int| 0 <= q < p ==> (#[trigger] tasks@[q])@ == pre.tasks[order@[q] as int],
            decreases order.len() - p,
        {
            tasks.push(self.tasks[order[p]].copy());
            p = p + 1;
        }
        self.tasks = tasks;
        assert(self@.tasks =~= order@.map_values(|i: usize| pre.tasks[i as int]));
    }

    /// Takes in the outcome of running task `i` of this job: on success the
    /// task finishes in `schedule`; on failure the job fails with the task,
    /// and `schedule` is left as it was.
    pub fn retire(&self, schedule: &mut Schedule, i: usize, outcome: Result<(), Error>) -> (r: Result<(), Error>)
        requires
            old(schedule)@.wf(),
            old(schedule)@.len() == self.tasks.len(),
            i < self.tasks.len(),
            old(schedule)@.status[i as int] == Status::Running,
        ensures
            final(schedule)@.wf(),
            r is Ok <==> outcome is Ok,
            outcome is Ok ==> {
                &&& final(schedule)@.names == old(schedule)@.names
                &&& final(schedule)@.depends == old(schedule)@.depends
                &&& final(schedule)@.status == old(schedule)@.status.update(i as int, Status::Finished)
                &&& final(schedule)@.finished == old(schedule)@.finished.push(i)
            },
            outcome is Err ==> final(schedule)@ == old(schedule)@,
            r matches Err(e) ==> e matches Error::TaskFailed(t) && t@ == self@.tasks[i as int],
    {
        match outcome {
            Ok(()) => {
                schedule.complete(i);
                Ok(())
            },
            Err(_) => Err(Error::TaskFailed(self.tasks[i].copy())),
        }
    }
}

/// Runs a collection of jobs, each after the jobs it depends on.
pub struct Runner {
    pub jobs: Vec<Job>,
}

impl Runner {
    pub fn new() -> (r: Runner)
        ensures
            r.jobs@.len() == 0,
    {
        Runner { jobs: Vec::new() }
    }

    /// Registers the pending record of every job with `tracker` and returns
    /// the schedule of the jobs, every job pending. If a job depends on a name
    /// that no job has, fails with the first such dependency; failing that, if
    /// two jobs share a name, with the first repeated name. On failure
    /// `tracker` is left as it was: nothing has started.
    pub fn prepare(&self, tracker: &mut JobTracker) -> (r: Result<Schedule, Error>)
        requires
            old(tracker).wf(),
        ensures
            final(tracker).wf(),
            match r {
                Ok(s) => {
                    &&& s@.wf()
                    &&& s@.satisfiable()
                    &&& s@.unique_names()
                    &&& s@.names == job_names(job_views(self.jobs@))
                    &&& s@.depends == job_deps(job_views(self.jobs@))
                    &&& s@.finished.len() == 0
                    &&& forall|i: int| s@.valid_node(i) ==> s@.status[i] == Status::Pending
                    &&& final(tracker)@ == registered(
                        old(tracker)@,
                        job_views(self.jobs@),
                    )
                },
                Err(Error::MissingDependency(d)) => {
                    &&& final(tracker)@ == old(tracker)@
                    &&& exists|i: int, k: int|
                        {
                            &&& #[trigger] first_missing(
                                job_names(job_views(self.jobs@)),
                                job_deps(job_views(self.jobs@)),
                                i,
                                k,
                            )
                            &&& d@ == self.jobs@[i]@.depends[k]
                        }
                },
                Err(Error::DuplicateName(d)) => {
                    &&& final(tracker)@ == old(tracker)@
                    &&& first_repeat(job_names(job_views(self.jobs@)), d@)
                },
                Err(_) => false,
            },
            r matches Err(Error::MissingDependency(_)) <==> exists|i: int, k: int|
                #[trigger] missing(
                    job_names(job_views(self.jobs@)),
                    job_deps(job_views(self.jobs@)),
                    i,
                    k,
                ),
            r is Ok <==> (forall|i: int, k: int|
                !#[trigger] missing(
                    job_names(job_views(self.jobs@)),
                    job_deps(job_views(self.jobs@)),
                    i,
                    k,
                )) && distinct(job_names(job_views(self.jobs@))),
    {
        let ghost jobs = job_views(self.jobs@);
        let ghost pre = tracker@;
        let names = names_of_jobs(&self.jobs);
        let depends = depends_of_jobs(&self.jobs);
        let ghost ns = texts(names@);
        let ghost ds = nested_texts(depends@);
        let ghost dv = depends@;
        match Schedule::new(names, depends) {
            Ok(s) => {
                let mut i: usize = 0;
                while i < self.jobs.len()
                    invariant
                        jobs == job_views(self.jobs@),
                        i <= self.jobs.len(),
                        tracker.wf(),
                        tracker@ == registered(pre, jobs.take(i as int)),
                    decreases self.jobs.len() - i,
                {
                    tracker.insert(JobStatus::pending(&self.jobs[i]));
                    proof {
                        assert(jobs.take(i + 1).drop_last() =~= jobs.take(i as int));
                    }
                    i = i + 1;
                }
                assert(jobs.take(self.jobs.len() as int) =~= jobs);
                Ok(s)
            },
            Err(ScheduleError::Missing(d)) => {
                proof {
                    let (i, k) = choose|i: int, k: int|
                        {
                            &&& missing(ns, ds, i, k)
                            &&& d@ == dv[i]@[k]@
                            &&& forall|i2: int, k2: int|
                                #[trigger] precedes(i2, k2, i, k) ==> !missing(ns, ds, i2, k2)
                        };
                    assert(first_missing(ns, ds, i, k));
                    assert(ds[i][k] == dv[i]@[k]@);
                    assert(d@ == self.jobs@[i]@.depends[k]);
                }
                Err(Error::MissingDependency(d))
            },
            Err(ScheduleError::Duplicate(d)) => Err(Error::DuplicateName(d)),
        }
    }
}

impl Runner {
    /// Puts the jobs in the order `order` gives, as indices into the current
    /// jobs: once every job has finished, the completion order.
    pub fn reorder(&mut self, order: &Vec<usize>)
        requires
            forall|p: int| 0 <= p < order@.len() ==> #[trigger] order@[p] < old(self).jobs@.len(),
        ensures
            job_views(final(self).jobs@) == order@.map_values(
                |i: usize| job_views(old(self).jobs@)[i as int],
            ),
    {
        let ghost pre = job_views(self.jobs@);
        let mut jobs: Vec<Job> = Vec::new();
        let mut p: usize = 0;
        while p < order.len()
            invariant
                job_views(self.jobs@) == pre,
                self.jobs@.len() == pre.len(),
                p <= order.len(),
                jobs.len() == p,
                forall|q: int| 0 <= q < order@.len() ==> #[trigger] order@[q] < self.jobs@.len(),
                forall|q: int| 0 <= q < p ==> (#[trigger] jobs@[q])@ == pre[order@[q] as int],
            decreases order.len() - p,
        {
            jobs.push(self.jobs[order[p]].copy());
            p = p + 1;
        }
        self.jobs = jobs;
        assert(job_views(self.jobs@) =~= order@.map_values(|i: usize| pre[i as int]));
    }

    /// Takes in the outcome of running job `i`: on success the job finishes
    /// in `schedule`; on failure the run fails with the job, and `schedule` is
    /// left as it was.
    pub fn retire(&self, schedule: &mut Schedule, i: usize, outcome: Result<(), Error>) -> (r: Result<(), Error>)
        requires
            old(schedule)@.wf(),
            old(schedule)@.len() == self.jobs.len(),
            i < self.jobs.len(),
            old(schedule)@.status[i as int] == Status::Running,
        ensures
            final(schedule)@.wf(),
            r is Ok <==> outcome is Ok,
            outcome is Ok ==> {
                &&& final(schedule)@.names == old(schedule)@.names
                &&& final(schedule)@.depends == old(schedule)@.depends
                &&& final(schedule)@.status == old(schedule)@.status.update(i as int, Status::Finished)
                &&& final(schedule)@.finished == old(schedule)@.finished.push(i)
            },
            outcome is Err ==> final(schedule)@ == old(schedule)@,
            r matches Err(e) ==> e matches Error::JobFailed(j) && j@ == self.jobs@[i as int]@,
    {
        match outcome {
            Ok(()) => {
                schedule.complete(i);
                Ok(())
            },
            Err(_) => Err(Error::JobFailed(self.jobs[i].copy())),
        }
    }
}

/// Holds the jobs read from a directory of job definitions.
pub struct Loader {
    pub directory: String,
    pub jobs: Vec<Job>,
}

impl Loader {
    pub fn new(directory: String) -> (r: Loader)
        ensures
            r.directory == directory,
            r.jobs@.len() == 0,
    {
        Loader { directory, jobs: Vec::new() }
    }

    /// Whether a file with extension `ext` holds a job definition.
    pub fn accepts(ext: &str) -> (r: bool)
        ensures
            r == (ext@ == "yml"@ || ext@ == "yaml"@),
    {
        let e = owned(ext);
        let yml = owned("yml");
        let yaml = owned("yaml");
        e == yml || e == yaml
    }

    /// A runner over a copy of the loaded jobs.
    pub fn runner(&self) -> (r: Runner)
        ensures
            job_views(r.jobs@) == job_views(self.jobs@),
    {
        let mut runner = Runner::new();
        let mut i: usize = 0;
        while i < self.jobs.len()
            invariant
                i <= self.jobs.len(),
                runner.jobs.len() == i,
                forall|k: int| 0 <= k < i ==> (#[trigger] runner.jobs@[k])@ == self.jobs@[k]@,
            decreases self.jobs.len() - i,
        {
            runner.jobs.push(self.jobs[i].copy());
            i = i + 1;
        }
        assert(job_views(runner.jobs@) =~= job_views(self.jobs@));
        runner
    }
}

impl StepTracker {
    /// Marks step `index` running, before its process starts.
    pub fn start(&self, tracker: &mut JobTracker, index: usize)
        requires
            old(tracker).wf(),
        ensures
            final(tracker).wf(),
            step_of(old(tracker)@, self.job(), self.task(), index as int) matches Some(s)
                ==> final(tracker)@ == with_step_of(
                old(tracker)@,
                self.job(),
                self.task(),
                index as int,
                restatus(s, Status::Running),
            ),
            step_of(old(tracker)@, self.job(), self.task(), index as int) is None ==> final(tracker)@
                == old(tracker)@,
    {
        let set = |s: StepStatus| -> (r: StepStatus)
            ensures
                r@ == restatus(s@, Status::Running),
            { s.with_status(Status::Running) };
        self.modify(tracker, index, set);
    }

    /// Records how the process of step `index` ended: the step finished if it
    /// exited with code zero, and failed otherwise, with the exit code (none
    /// if the process was ended by a signal).
    pub fn finish(&self, tracker: &mut JobTracker, index: usize, code: Option<i32>) -> (r: Result<(), Error>)
        requires
            old(tracker).wf(),
        ensures
            final(tracker).wf(),
            r is Ok <==> code == Some(0i32),
            r matches Err(e) ==> e matches Error::Exit(c) && c == code,
            step_of(old(tracker)@, self.job(), self.task(), index as int) matches Some(s)
                ==> final(tracker)@ == with_step_of(
                old(tracker)@,
                self.job(),
                self.task(),
                index as int,
                restatus(s, if code == Some(0i32) { Status::Finished } else { Status::Failed }),
            ),
            step_of(old(tracker)@, self.job(), self.task(), index as int) is None ==> final(tracker)@
                == old(tracker)@,
    {
        let ok = match code {
            Some(c) => c == 0,
            None => false,
        };
        let status = if ok { Status::Finished } else { Status::Failed };
        let set = |s: StepStatus| -> (r: StepStatus)
            ensures
                r@ == restatus(s@, status),
            { s.with_status(status) };
        self.modify(tracker, index, set);
        if ok {
            Ok(())
        } else {
            Err(Error::Exit(code))
        }
    }
}

impl Step {
    /// The executable to run and its arguments; none for a command without
    /// an executable.
    pub fn program(&self) -> (r: Option<(String, Vec<String>)>)
        ensures
            match self {
                Step::Command { args } => if args@.len() == 0 {
                    r is None
                } else {
                    r matches Some((p, rest)) && p == args@[0] && rest@ == args@.subrange(
                        1,
                        args@.len() as int,
                    )
                },
            },
    {
        match self {
            Step::Command { args } => {
                if args.len() == 0 {
                    return None;
                }
                let mut rest: Vec<String> = Vec::new();
                let mut i: usize = 1;
                while i < args.len()
                    invariant
                        1 <= i <= args.len(),
                        rest@ == args@.subrange(1, i as int),
                    decreases args.len() - i,
                {
                    rest.push(args[i].clone());
                    i = i + 1;
                }
                Some((args[0].clone(), rest))
            },
        }
    }
}

impl Task {
    /// The first step to run, or none for a task without steps.
    pub fn first_step(&self) -> (r: Option<usize>)
        ensures
            r == if self.steps@.len() > 0 {
                Some(0usize)
            } else {
                None::<usize>
            },
    {
        if self.steps.len() > 0 {
            Some(0)
        } else {
            None
        }
    }

    /// What follows once step `done` ended with `outcome`: the task stops at
    /// the first step that fails, and otherwise goes on with the next step,
    /// until none is left.
    pub fn next_step(&self, done: usize, outcome: Result<(), Error>) -> (r: Result<Option<usize>, Error>)
        requires
            done < self.steps@.len(),
        ensures
            outcome is Err ==> r is Err && r->Err_0 == outcome->Err_0,
            outcome is Ok ==> r == Ok::<Option<usize>, Error>(
                if done + 1 < self.steps@.len() {
                    Some((done + 1) as usize)
                } else {
                    None::<usize>
                },
            ),
    {
        match outcome {
            Err(e) => Err(e),
            Ok(()) => if done < self.steps.len() - 1 {
                Ok(Some(done + 1))
            } else {
                Ok(None)
            },
        }
    }
}

impl TaskTracker {
    /// Marks task `name` running, before it is launched.
    pub fn start(&self, tracker: &mut JobTracker, name: &str)
        requires
            old(tracker).wf(),
        ensures
            final(tracker).wf(),
            task_of(old(tracker)@, self.job(), name@) matches Some(t) ==> final(tracker)@
                == with_task_of(old(tracker)@, self.job(), name@, task_restatus(t, Status::Running)),
            task_of(old(tracker)@, self.job(), name@) is None ==> final(tracker)@ == old(tracker)@,
    {
        let set = |t: TaskStatus| -> (r: TaskStatus)
            ensures
                r@ == task_restatus(t@, Status::Running),
            {
                let mut t = t;
                t.status = Status::Running;
                t
            };
        self.modify(tracker, name, set);
    }

    /// Records how task `name` ended: finished if `ok`, failed otherwise.
    pub fn finish(&self, tracker: &mut JobTracker, name: &str, ok: bool)
        requires
            old(tracker).wf(),
        ensures
            final(tracker).wf(),
            task_of(old(tracker)@, self.job(), name@) matches Some(t) ==> final(tracker)@
                == with_task_of(old(tracker)@, self.job(), name@, task_restatus(t, outcome_status(ok))),
            task_of(old(tracker)@, self.job(), name@) is None ==> final(tracker)@ == old(tracker)@,
    {
        let status = if ok { Status::Finished } else { Status::Failed };
        let set = |t: TaskStatus| -> (r: TaskStatus)
            ensures
                r@ == task_restatus(t@, status),
            {
                let mut t = t;
                t.status = status;
                t
            };
        self.modify(tracker, name, set);
    }
}

impl JobTracker {
    /// Marks job `name` running, before it is launched.
    pub fn start(&mut self, name: &str)
        requires
            old(self).wf(),
        ensures
            final(self).wf(),
            old(self)@.contains_key(name@) ==> final(self)@ == old(self)@.insert(
                name@,
                job_restatus(old(self)@[name@], Status::Running),
            ),
            !old(self)@.contains_key(name@) ==> final(self)@ == old(self)@,
    {
        let set = |j: JobStatus| -> (r: JobStatus)
            ensures
                r@ == job_restatus(j@, Status::Running),
            {
                let mut j = j;
                j.status = Status::Running;
                j
            };
        self.modify(name, set);
    }

    /// Records how job `name` ended: finished if `ok`, failed otherwise.
    pub fn finish(&mut self, name: &str, ok: bool)
        requires
            old(self).wf(),
        ensures
            final(self).wf(),
            old(self)@.contains_key(name@) ==> final(self)@ == old(self)@.insert(
                name@,
                job_restatus(old(self)@[name@], outcome_status(ok)),
            ),
            !old(self)@.contains_key(name@) ==> final(self)@ == old(self)@,
    {
        let status = if ok { Status::Finished } else { Status::Failed };
        let set = |j: JobStatus| -> (r: JobStatus)
            ensures
                r@ == job_restatus(j@, status),
            {
                let mut j = j;
                j.status = status;
                j
            };
        self.modify(name, set);
    }
}

} // verus!
