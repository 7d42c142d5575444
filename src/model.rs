use vstd::prelude::*;
use vstd::string::StringExecFns;

verus! {

/// The state of one job, task or step, as the tracker reports it.
#[derive(Clone, Copy, Debug, PartialEq, Eq, Structural)]
pub enum Status {
    Pending,
    Running,
    Finished,
    Failed,
}

impl Status {
    /// How far along its lifecycle a node with this status is.
    pub open spec fn rank(self) -> nat {
        match self {
            Status::Pending => 0,
            Status::Running => 1,
            Status::Finished => 2,
            Status::Failed => 2,
        }
    }

    /// A status may only move forward: Pending, then Running, then one of
    /// Finished or Failed, never back and never skipping Running.
    pub open spec fn may_become(self, next: Status) -> bool {
        self == next || (self == Status::Pending && next == Status::Running) || (self
            == Status::Running && (next == Status::Finished || next == Status::Failed))
    }
}

impl Default for Status {
    fn default() -> (r: Status)
        ensures
            r == Status::Pending,
    {
        Status::Pending
    }
}

/// The character sequences of a list of strings.
pub open spec fn texts(v: Seq<String>) -> Seq<Seq<char>> {
    v.map_values(|s: String| s@)
}

/// A copy of a list of strings.
pub fn copy_texts(v: &Vec<String>) -> (r: Vec<String>)
    ensures
        r@ == v@,
{
    let mut r: Vec<String> = Vec::new();
    let mut i: usize = 0;
    while i < v.len()
        invariant
            i <= v.len(),
            r@ == v@.subrange(0, i as int),
        decreases v.len() - i,
    {
        r.push(v[i].clone());
        i = i + 1;
    }
    assert(r@ =~= v@);
    r
}

/// A `&str` as an owned string.
pub fn owned(s: &str) -> (r: String)
    ensures
        r@ == s@,
{
    <String as StringExecFns>::from_str(s)
}

/// Unit of work inside a task. `Command` runs `args[0]` with the remaining
/// strings as its arguments.
#[derive(Clone, Debug)]
pub enum Step {
    Command { args: Vec<String> },
}

pub enum StepView {
    Command { args: Seq<Seq<char>> },
}

impl View for Step {
    type V = StepView;

    open spec fn view(&self) -> StepView {
        match self {
            Step::Command { args } => StepView::Command { args: texts(args@) },
        }
    }
}

impl Step {
    pub fn command(args: Vec<String>) -> (r: Step)
        ensures
            r == (Step::Command { args }),
    {
        Step::Command { args }
    }

    pub fn copy(&self) -> (r: Step)
        ensures
            r@ == self@,
    {
        match self {
            Step::Command { args } => Step::Command { args: copy_texts(args) },
        }
    }
}

/// A named sequence of steps, run one after the other.
#[derive(Clone, Debug)]
pub struct Task {
    pub name: String,
    pub depends: Vec<String>,
    pub steps: Vec<Step>,
}

pub struct TaskView {
    pub name: Seq<char>,
    pub depends: Seq<Seq<char>>,
    pub steps: Seq<StepView>,
}

impl View for Task {
    type V = TaskView;

    open spec fn view(&self) -> TaskView {
        TaskView {
            name: self.name@,
            depends: texts(self.depends@),
            steps: self.steps@.map_values(|s: Step| s@),
        }
    }
}

pub open spec fn task_views(v: Seq<Task>) -> Seq<TaskView> {
    v.map_values(|t: Task| t@)
}

pub open spec fn job_views(v: Seq<Job>) -> Seq<JobView> {
    v.map_values(|j: Job| j@)
}

/// A named collection of tasks; its dependencies name other jobs.
#[derive(Clone, Debug)]
pub struct Job {
    pub name: String,
    pub depends: Vec<String>,
    pub tasks: Vec<Task>,
}

pub struct JobView {
    pub name: Seq<char>,
    pub depends: Seq<Seq<char>>,
    pub tasks: Seq<TaskView>,
}

impl View for Job {
    type V = JobView;

    open spec fn view(&self) -> JobView {
        JobView {
            name: self.name@,
            depends: texts(self.depends@),
            tasks: task_views(self.tasks@),
        }
    }
}

/// The tracked record of one step: its arguments, the lines it printed so
/// far and its status.
#[derive(Clone, Debug)]
pub enum StepStatus {
    Command { args: Vec<String>, output: Vec<String>, status: Status },
}

pub struct StepStatusView {
    pub args: Seq<Seq<char>>,
    pub output: Seq<Seq<char>>,
    pub status: Status,
}

impl View for StepStatus {
    type V = StepStatusView;

    open spec fn view(&self) -> StepStatusView {
        match self {
            StepStatus::Command { args, output, status } => StepStatusView {
                args: texts(args@),
                output: texts(output@),
                status: *status,
            },
        }
    }
}

/// The tracked record of one task.
#[derive(Clone, Debug)]
pub struct TaskStatus {
    pub name: String,
    pub depends: Vec<String>,
    pub steps: Vec<StepStatus>,
    pub status: Status,
}

pub struct TaskStatusView {
    pub name: Seq<char>,
    pub depends: Seq<Seq<char>>,
    pub steps: Seq<StepStatusView>,
    pub status: Status,
}

impl View for TaskStatus {
    type V = TaskStatusView;

    open spec fn view(&self) -> TaskStatusView {
        TaskStatusView {
            name: self.name@,
            depends: texts(self.depends@),
            steps: self.steps@.map_values(|s: StepStatus| s@),
            status: self.status,
        }
    }
}

/// The tracked record of one job, mirroring its tasks and their steps.
#[derive(Clone, Debug)]
pub struct JobStatus {
    pub name: String,
    pub depends: Vec<String>,
    pub tasks: Vec<TaskStatus>,
    pub status: Status,
}

pub struct JobStatusView {
    pub name: Seq<char>,
    pub depends: Seq<Seq<char>>,
    pub tasks: Seq<TaskStatusView>,
    pub status: Status,
}

impl View for JobStatus {
    type V = JobStatusView;

    open spec fn view(&self) -> JobStatusView {
        JobStatusView {
            name: self.name@,
            depends: texts(self.depends@),
            tasks: self.tasks@.map_values(|t: TaskStatus| t@),
            status: self.status,
        }
    }
}

impl StepStatus {
    pub fn copy(&self) -> (r: StepStatus)
        ensures
            r@ == self@,
    {
        match self {
            StepStatus::Command { args, output, status } => StepStatus::Command {
                args: copy_texts(args),
                output: copy_texts(output),
                status: *status,
            },
        }
    }
}

impl TaskStatus {
    pub fn copy(&self) -> (r: TaskStatus)
        ensures
            r@ == self@,
    {
        let mut steps: Vec<StepStatus> = Vec::new();
        let mut i: usize = 0;
        while i < self.steps.len()
            invariant
                i <= self.steps.len(),
                steps.len() == i,
                forall|k: int| 0 <= k < i ==> (#[trigger] steps@[k])@ == self.steps@[k]@,
            decreases self.steps.len() - i,
        {
            steps.push(self.steps[i].copy());
            i = i + 1;
        }
        let r = TaskStatus {
            name: self.name.clone(),
            depends: copy_texts(&self.depends),
            steps,
            status: self.status,
        };
        assert(r@.steps =~= self@.steps);
        r
    }
}

impl JobStatus {
    pub fn copy(&self) -> (r: JobStatus)
        ensures
            r@ == self@,
    {
        let mut tasks: Vec<TaskStatus> = Vec::new();
        let mut i: usize = 0;
        while i < self.tasks.len()
            invariant
                i <= self.tasks.len(),
                tasks.len() == i,
                forall|k: int| 0 <= k < i ==> (#[trigger] tasks@[k])@ == self.tasks@[k]@,
            decreases self.tasks.len() - i,
        {
            tasks.push(self.tasks[i].copy());
            i = i + 1;
        }
        let r = JobStatus {
            name: self.name.clone(),
            depends: copy_texts(&self.depends),
            tasks,
            status: self.status,
        };
        assert(r@.tasks =~= self@.tasks);
        r
    }
}

} // verus!
