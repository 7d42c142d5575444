use vstd::prelude::*;
use vstd::string::StrSliceExecFns;
use crate::model::{
    JobStatus, JobStatusView, StepStatus, StepStatusView, TaskStatus, TaskStatusView, owned,
};

verus! {

/// `i` is the first task named `name`.
pub open spec fn is_first_task(tasks: Seq<TaskStatusView>, name: Seq<char>, i: int) -> bool {
    &&& 0 <= i < tasks.len()
    &&& tasks[i].name == name
    &&& forall|j: int| 0 <= j < i ==> tasks[j].name != name
}

pub open spec fn has_task(tasks: Seq<TaskStatusView>, name: Seq<char>) -> bool {
    exists|i: int| 0 <= i < tasks.len() && tasks[i].name == name
}

/// The index of the first task named `name`.
pub open spec fn first_task(tasks: Seq<TaskStatusView>, name: Seq<char>) -> int {
    choose|i: int| is_first_task(tasks, name, i)
}

/// `job` with its task `i` replaced by `t`.
pub open spec fn with_task(job: JobStatusView, i: int, t: TaskStatusView) -> JobStatusView {
    JobStatusView { tasks: job.tasks.update(i, t), ..job }
}

/// `s` with `line` appended to its output.
pub open spec fn appended(s: StepStatusView, line: Seq<char>) -> StepStatusView {
    StepStatusView { output: s.output.push(line), ..s }
}

/// `s` without its line ending, `\n` or `\r\n`, if it has one.
pub open spec fn without_line_end(s: Seq<char>) -> Seq<char> {
    if s.len() > 0 && s.last() == '\n' {
        if s.len() > 1 && s[s.len() - 2] == '\r' {
            s.subrange(0, s.len() - 2)
        } else {
            s.drop_last()
        }
    } else {
        s
    }
}

/// The text of one line of output as read from a stream: `buffer` without
/// its line ending.
pub fn line_text(buffer: &str) -> (r: String)
    ensures
        r@ == without_line_end(buffer@),
{
    let n = buffer.unicode_len();
    let mut end: usize = n;
    if n > 0 && buffer.get_char(n - 1) == '\n' {
        end = n - 1;
        if n > 1 && buffer.get_char(n - 2) == '\r' {
            end = n - 2;
        }
    }
    let r = owned(buffer.substring_char(0, end));
    assert(buffer@.drop_last() =~= buffer@.subrange(0, buffer@.len() - 1));
    assert(buffer@ =~= buffer@.subrange(0, n as int));
    r
}

/// `task` with its step `i` replaced by `s`.
pub open spec fn with_step(task: TaskStatusView, i: int, s: StepStatusView) -> TaskStatusView {
    TaskStatusView { steps: task.steps.update(i, s), ..task }
}

/// The record of task `task` of job `job`: the first task of that name.
pub open spec fn task_of(m: Map<Seq<char>, JobStatusView>, job: Seq<char>, task: Seq<char>) -> Option<
    TaskStatusView,
> {
    if m.contains_key(job) && has_task(m[job].tasks, task) {
        Some(m[job].tasks[first_task(m[job].tasks, task)])
    } else {
        None
    }
}

/// The record of step `index` of task `task` of job `job`.
pub open spec fn step_of(
    m: Map<Seq<char>, JobStatusView>,
    job: Seq<char>,
    task: Seq<char>,
    index: int,
) -> Option<StepStatusView> {
    match task_of(m, job, task) {
        Some(t) => if 0 <= index < t.steps.len() {
            Some(t.steps[index])
        } else {
            None
        },
        None => None,
    }
}

/// `m` with the record of task `task` of job `job` replaced by `t`.
pub open spec fn with_task_of(
    m: Map<Seq<char>, JobStatusView>,
    job: Seq<char>,
    task: Seq<char>,
    t: TaskStatusView,
) -> Map<Seq<char>, JobStatusView> {
    m.insert(job, with_task(m[job], first_task(m[job].tasks, task), t))
}

/// `m` with the record of step `index` of task `task` of job `job` replaced by `s`.
pub open spec fn with_step_of(
    m: Map<Seq<char>, JobStatusView>,
    job: Seq<char>,
    task: Seq<char>,
    index: int,
    s: StepStatusView,
) -> Map<Seq<char>, JobStatusView> {
    with_task_of(m, job, task, with_step(task_of(m, job, task)->0, index, s))
}

proof fn lemma_first_exists(tasks: Seq<TaskStatusView>, name: Seq<char>, i: int)
    requires
        0 <= i < tasks.len(),
        tasks[i].name == name,
    ensures
        is_first_task(tasks, name, first_task(tasks, name)),
    decreases i,
{
    if exists|j: int| 0 <= j < i && tasks[j].name == name {
        let j = choose|j: int| 0 <= j < i && tasks[j].name == name;
        lemma_first_exists(tasks, name, j);
    } else {
        assert(is_first_task(tasks, name, i));
    }
}

proof fn lemma_has_first(tasks: Seq<TaskStatusView>, name: Seq<char>)
    requires
        has_task(tasks, name),
    ensures
        is_first_task(tasks, name, first_task(tasks, name)),
{
    let i = choose|i: int| 0 <= i < tasks.len() && tasks[i].name == name;
    lemma_first_exists(tasks, name, i);
}

proof fn lemma_first_task(tasks: Seq<TaskStatusView>, name: Seq<char>, i: int)
    requires
        is_first_task(tasks, name, i),
    ensures
        has_task(tasks, name),
        first_task(tasks, name) == i,
{
    let c = first_task(tasks, name);
    if c < i {
        assert(tasks[c].name == name);
    } else if c > i {
        assert(tasks[i].name == name);
    }
}

/// The first task of `tasks` named `name`, if any.
pub fn find_task(tasks: &Vec<TaskStatus>, name: &String) -> (r: Option<usize>)
    ensures
        match r {
            Some(i) => is_first_task(tasks@.map_values(|t: TaskStatus| t@), name@, i as int),
            None => !has_task(tasks@.map_values(|t: TaskStatus| t@), name@),
        },
{
    let ghost v = tasks@.map_values(|t: TaskStatus| t@);
    let mut i: usize = 0;
    while i < tasks.len()
        invariant
            v == tasks@.map_values(|t: TaskStatus| t@),
            i <= tasks.len(),
            forall|j: int| 0 <= j < i ==> v[j].name != name@,
        decreases tasks.len() - i,
    {
        if tasks[i].name == *name {
            return Some(i);
        }
        i = i + 1;
    }
    None
}

impl StepStatus {
    /// The record with `line` appended to its output.
    pub fn push_output(self, line: &str) -> (r: StepStatus)
        ensures
            r@ == appended(self@, line@),
    {
        match self {
            StepStatus::Command { args, output, status } => {
                let mut output = output;
                let ghost before = output@;
                output.push(owned(line));
                proof {
                    assert(crate::model::texts(output@) =~= crate::model::texts(before).push(line@));
                }
                StepStatus::Command { args, output, status }
            },
        }
    }

    /// The record with its status set to `status`.
    pub fn with_status(self, status: crate::model::Status) -> (r: StepStatus)
        ensures
            r@ == (StepStatusView { status, ..self@ }),
    {
        match self {
            StepStatus::Command { args, output, .. } => StepStatus::Command { args, output, status },
        }
    }
}

impl TaskStatus {
    /// The record with step `index` replaced by what `f` makes of it; unchanged
    /// if there is no such step.
    pub fn update_step<F: FnOnce(StepStatus) -> StepStatus>(self, index: usize, f: F) -> (r: TaskStatus)
        requires
            forall|s: StepStatus| f.requires((s,)),
        ensures
            index < self@.steps.len() ==> exists|y: StepStatus|
                f.ensures((self.steps@[index as int],), y) && r@ == with_step(self@, index as int, y@),
            index >= self@.steps.len() ==> r@ == self@,
    {
        if index < self.steps.len() {
            let ghost pre = self;
            let mut task = self;
            let step = task.steps.remove(index);
            let changed = f(step);
            task.steps.insert(index, changed);
            assert(task@.steps =~= with_step(pre@, index as int, changed@).steps);
            task
        } else {
            self
        }
    }
}

impl JobStatus {
    /// The record with its first task named `name` replaced by what `f` makes
    /// of it; unchanged if no task has that name.
    pub fn update_task<F: FnOnce(TaskStatus) -> TaskStatus>(self, name: &str, f: F) -> (r: JobStatus)
        requires
            forall|t: TaskStatus| f.requires((t,)),
        ensures
            has_task(self@.tasks, name@) ==> exists|y: TaskStatus|
                f.ensures((self.tasks@[first_task(self@.tasks, name@)],), y) && r@ == with_task(
                    self@,
                    first_task(self@.tasks, name@),
                    y@,
                ),
            !has_task(self@.tasks, name@) ==> r@ == self@,
    {
        let key = owned(name);
        match find_task(&self.tasks, &key) {
            Some(i) => {
                let ghost pre = self;
                proof {
                    lemma_first_task(pre@.tasks, name@, i as int);
                }
                let mut job = self;
                let task = job.tasks.remove(i);
                let changed = f(task);
                job.tasks.insert(i, changed);
                assert(job@.tasks =~= with_task(pre@, i as int, changed@).tasks);
                job
            },
            None => self,
        }
    }
}

/// The shared record of every job of a run, by name.
///
/// The records are kept in two vectors of equal length, names beside records,
/// with no name twice, rather than in a `HashMap<String, JobStatus>`: the
/// verifier knows the contents of a `Vec` exactly, while of a map keyed by
/// `String` it could prove too little for the contracts below. Lookups are
/// linear in the number of jobs, which a run keeps small.
pub struct JobTracker {
    names: Vec<String>,
    jobs: Vec<JobStatus>,
}

impl JobTracker {
    /// Each job name is registered at most once.
    pub closed spec fn wf(self) -> bool {
        &&& self.names.len() == self.jobs.len()
        &&& forall|i: int, j: int|
            0 <= i < j < self.names.len() ==> #[trigger] self.names@[i]@ != #[trigger] self.names@[j]@
    }

    spec fn has(self, k: Seq<char>) -> bool {
        exists|i: int| 0 <= i < self.names.len() && #[trigger] self.names@[i]@ == k
    }

    spec fn at(self, k: Seq<char>) -> int {
        choose|i: int| 0 <= i < self.names.len() && #[trigger] self.names@[i]@ == k
    }

    proof fn lemma_at(self, i: int)
        requires
            self.wf(),
            0 <= i < self.names.len(),
        ensures
            self.has(self.names@[i]@),
            self.at(self.names@[i]@) == i,
            self@.contains_key(self.names@[i]@),
            self@[self.names@[i]@] == self.jobs@[i]@,
    {
        assert(self.names@[i]@ == self.names@[i]@);
        let c = self.at(self.names@[i]@);
        if c < i {
            assert(self.names@[c]@ != self.names@[i]@);
        } else if c > i {
            assert(self.names@[i]@ != self.names@[c]@);
        }
    }

    fn find(&self, name: &String) -> (r: Option<usize>)
        requires
            self.wf(),
        ensures
            match r {
                Some(i) => i < self.names.len() && self.names@[i as int]@ == name@,
                None => !self@.contains_key(name@),
            },
    {
        let mut i: usize = 0;
        while i < self.names.len()
            invariant
                i <= self.names.len(),
                forall|j: int| 0 <= j < i ==> self.names@[j]@ != name@,
            decreases self.names.len() - i,
        {
            if self.names[i] == *name {
                return Some(i);
            }
            i = i + 1;
        }
        None
    }

    pub fn new() -> (r: JobTracker)
        ensures
            r.wf(),
            r@ == Map::<Seq<char>, JobStatusView>::empty(),
    {
        let r = JobTracker { names: Vec::new(), jobs: Vec::new() };
        assert(r@ =~= Map::<Seq<char>, JobStatusView>::empty());
        r
    }

    /// A snapshot of the record of job `name`.
    pub fn get(&self, name: &str) -> (r: Option<JobStatus>)
        requires
            self.wf(),
        ensures
            match r {
                Some(j) => self@.contains_key(name@) && j@ == self@[name@],
                None => !self@.contains_key(name@),
            },
    {
        match self.find(&owned(name)) {
            Some(i) => {
                proof {
                    self.lemma_at(i as int);
                }
                Some(self.jobs[i].copy())
            },
            None => None,
        }
    }

    /// Registers `job` under its name, replacing any record of that name.
    pub fn insert(&mut self, job: JobStatus)
        requires
            old(self).wf(),
        ensures
            final(self).wf(),
            final(self)@ == old(self)@.insert(job@.name, job@),
    {
        let ghost pre = *self;
        let ghost v = job@;
        match self.find(&job.name) {
            Some(i) => {
                self.jobs[i] = job;
                proof {
                    let post = *self;
                    assert forall|k: Seq<char>| post.has(k) == pre.has(k) by {
                        if pre.has(k) {
                            let j = choose|j: int| 0 <= j < pre.names.len() && #[trigger] pre.names@[j]@ == k;
                            assert(post.names@[j]@ == k);
                        }
                    }
                    assert forall|k: Seq<char>| post.has(k) implies post@[k] == pre@.insert(v.name, v)[k] by {
                        let j = choose|j: int| 0 <= j < post.names.len() && #[trigger] post.names@[j]@ == k;
                        post.lemma_at(j);
                        pre.lemma_at(j);
                    }
                    assert(post@ =~= pre@.insert(v.name, v));
                }
            },
            None => {
                self.names.push(job.name.clone());
                self.jobs.push(job);
                proof {
                    let post = *self;
                    let n = pre.names.len() as int;
                    assert forall|a: int, b: int|
                        0 <= a < b < post.names.len() implies #[trigger] post.names@[a]@ != #[trigger] post.names@[b]@ by {
                        if b == n {
                            assert(pre.names@[a]@ == post.names@[a]@);
                            if pre.names@[a]@ == v.name {
                                pre.lemma_at(a);
                            }
                        }
                    }
                    assert forall|k: Seq<char>| post.has(k) == (pre.has(k) || k == v.name) by {
                        if pre.has(k) {
                            let j = choose|j: int| 0 <= j < pre.names.len() && #[trigger] pre.names@[j]@ == k;
                            assert(post.names@[j]@ == k);
                        }
                        if k == v.name {
                            assert(post.names@[n]@ == k);
                        }
                        if post.has(k) {
                            let j = choose|j: int| 0 <= j < post.names.len() && #[trigger] post.names@[j]@ == k;
                            if j < n {
                                assert(pre.names@[j]@ == k);
                            }
                        }
                    }
                    assert forall|k: Seq<char>| post.has(k) implies post@[k] == pre@.insert(v.name, v)[k] by {
                        let j = choose|j: int| 0 <= j < post.names.len() && #[trigger] post.names@[j]@ == k;
                        post.lemma_at(j);
                        if j < n {
                            pre.lemma_at(j);
                        }
                    }
                    assert(post@ =~= pre@.insert(v.name, v));
                }
            },
        }
    }

    /// Replaces the record of job `name` by what `f` makes of it; does nothing
    /// if no job has that name.
    pub fn modify<F: FnOnce(JobStatus) -> JobStatus>(&mut self, name: &str, f: F)
        requires
            old(self).wf(),
            forall|j: JobStatus| f.requires((j,)),
        ensures
            final(self).wf(),
            old(self)@.contains_key(name@) ==> exists|x: JobStatus, y: JobStatus|
                x@ == old(self)@[name@] && f.ensures((x,), y) && final(self)@ == old(self)@.insert(
                    name@,
                    y@,
                ),
            !old(self)@.contains_key(name@) ==> final(self)@ == old(self)@,
    {
        let ghost pre = *self;
        match self.find(&owned(name)) {
            Some(i) => {
                proof {
                    pre.lemma_at(i as int);
                }
                let job = self.jobs.remove(i);
                let changed = f(job);
                self.jobs.insert(i, changed);
                proof {
                    let post = *self;
                    assert(post.names == pre.names);
                    assert(post.jobs@ == pre.jobs@.update(i as int, changed));
                    assert forall|k: Seq<char>| post.has(k) implies post@[k] == pre@.insert(name@, changed@)[k] by {
                        let j = choose|j: int| 0 <= j < post.names.len() && #[trigger] post.names@[j]@ == k;
                        post.lemma_at(j);
                        pre.lemma_at(j);
                    }
                    assert(post@ =~= pre@.insert(name@, changed@));
                }
            },
            None => {},
        }
    }
}

impl View for JobTracker {
    type V = Map<Seq<char>, JobStatusView>;

    closed spec fn view(&self) -> Map<Seq<char>, JobStatusView> {
        Map::new(|k: Seq<char>| self.has(k), |k: Seq<char>| self.jobs@[self.at(k)]@)
    }
}


/// A handle on the task records of one job. It holds no record itself: each
/// call reads or changes the tracker it is given.
#[derive(Clone, Debug)]
pub struct TaskTracker {
    job_name: String,
}

impl TaskTracker {
    /// The job whose tasks this handle addresses.
    pub closed spec fn job(&self) -> Seq<char> {
        self.job_name@
    }

    pub fn new(job_name: String) -> (r: TaskTracker)
        ensures
            r.job() == job_name@,
    {
        TaskTracker { job_name }
    }

    pub fn job_name(&self) -> (r: &String)
        ensures
            r@ == self.job(),
    {
        &self.job_name
    }

    /// A snapshot of the record of task `name`.
    pub fn get(&self, tracker: &JobTracker, name: &str) -> (r: Option<TaskStatus>)
        requires
            tracker.wf(),
        ensures
            match r {
                Some(t) => task_of(tracker@, self.job(), name@) == Some(t@),
                None => task_of(tracker@, self.job(), name@) is None,
            },
    {
        match tracker.get(self.job_name.as_str()) {
            Some(job) => match find_task(&job.tasks, &owned(name)) {
                Some(i) => {
                    proof {
                        lemma_first_task(job@.tasks, name@, i as int);
                    }
                    Some(job.tasks[i].copy())
                },
                None => None,
            },
            None => None,
        }
    }

    /// Replaces the record of task `name` by what `f` makes of it; does
    /// nothing if there is no such task.
    pub fn modify<F: FnOnce(TaskStatus) -> TaskStatus>(&self, tracker: &mut JobTracker, name: &str, f: F)
        requires
            old(tracker).wf(),
            forall|t: TaskStatus| f.requires((t,)),
        ensures
            final(tracker).wf(),
            task_of(old(tracker)@, self.job(), name@) is Some ==> exists|x: TaskStatus, y: TaskStatus|
                x@ == task_of(old(tracker)@, self.job(), name@)->0 && f.ensures((x,), y)
                    && final(tracker)@ == with_task_of(old(tracker)@, self.job(), name@, y@),
            task_of(old(tracker)@, self.job(), name@) is None ==> final(tracker)@ == old(tracker)@,
    {
        let ghost pre = tracker@;
        let ghost jn = self.job();
        let g = |job: JobStatus| -> (r: JobStatus)
            ensures
                has_task(job@.tasks, name@) ==> exists|y: TaskStatus|
                    f.ensures((job.tasks@[first_task(job@.tasks, name@)],), y) && r@ == with_task(
                        job@,
                        first_task(job@.tasks, name@),
                        y@,
                    ),
                !has_task(job@.tasks, name@) ==> r@ == job@,
            { job.update_task(name, f) };
        tracker.modify(self.job_name.as_str(), g);
        proof {
            if pre.contains_key(jn) {
                let (xj, yj) = choose|xj: JobStatus, yj: JobStatus|
                    xj@ == pre[jn] && g.ensures((xj,), yj) && tracker@ == pre.insert(jn, yj@);
                let c = first_task(xj@.tasks, name@);
                if has_task(pre[jn].tasks, name@) {
                    let y = choose|y: TaskStatus|
                        f.ensures((xj.tasks@[c],), y) && yj@ == with_task(xj@, c, y@);
                    lemma_has_first(xj@.tasks, name@);
                    let x = xj.tasks@[c];
                    assert(x@ == xj@.tasks[c]);
                    assert(f.ensures((x,), y) && tracker@ == with_task_of(pre, jn, name@, y@));
                } else {
                    assert(tracker@ =~= pre);
                }
            }
        }
    }
}

/// A handle on the step records of one task.
#[derive(Clone, Debug)]
pub struct StepTracker {
    task_name: String,
    task_tracker: TaskTracker,
}

impl StepTracker {
    /// The task whose steps this handle addresses.
    pub closed spec fn task(&self) -> Seq<char> {
        self.task_name@
    }

    /// The job of that task.
    pub closed spec fn job(&self) -> Seq<char> {
        self.task_tracker.job()
    }

    pub fn new(task_name: String, task_tracker: TaskTracker) -> (r: StepTracker)
        ensures
            r.task() == task_name@,
            r.job() == task_tracker.job(),
    {
        StepTracker { task_name, task_tracker }
    }

    pub fn task_name(&self) -> (r: &String)
        ensures
            r@ == self.task(),
    {
        &self.task_name
    }

    pub fn job_name(&self) -> (r: &String)
        ensures
            r@ == self.job(),
    {
        self.task_tracker.job_name()
    }

    /// A snapshot of the record of step `index`.
    pub fn get(&self, tracker: &JobTracker, index: usize) -> (r: Option<StepStatus>)
        requires
            tracker.wf(),
        ensures
            match r {
                Some(s) => step_of(tracker@, self.job(), self.task(), index as int) == Some(s@),
                None => step_of(tracker@, self.job(), self.task(), index as int) is None,
            },
    {
        match self.task_tracker.get(tracker, self.task_name.as_str()) {
            Some(task) => if index < task.steps.len() {
                Some(task.steps[index].copy())
            } else {
                None
            },
            None => None,
        }
    }

    /// Replaces the record of step `index` by what `f` makes of it; does
    /// nothing if there is no such step.
    pub fn modify<F: FnOnce(StepStatus) -> StepStatus>(&self, tracker: &mut JobTracker, index: usize, f: F)
        requires
            old(tracker).wf(),
            forall|s: StepStatus| f.requires((s,)),
        ensures
            final(tracker).wf(),
            step_of(old(tracker)@, self.job(), self.task(), index as int) is Some ==> exists|
                x: StepStatus,
                y: StepStatus,
            |
                x@ == step_of(old(tracker)@, self.job(), self.task(), index as int)->0
                    && f.ensures((x,), y) && final(tracker)@ == with_step_of(
                    old(tracker)@,
                    self.job(),
                    self.task(),
                    index as int,
                    y@,
                ),
            step_of(old(tracker)@, self.job(), self.task(), index as int) is None ==> final(tracker)@
                == old(tracker)@,
    {
        let ghost pre = tracker@;
        let ghost jn = self.job();
        let ghost tn = self.task();
        let g = |task: TaskStatus| -> (r: TaskStatus)
            ensures
                index < task@.steps.len() ==> exists|y: StepStatus|
                    f.ensures((task.steps@[index as int],), y) && r@ == with_step(
                        task@,
                        index as int,
                        y@,
                    ),
                index >= task@.steps.len() ==> r@ == task@,
            { task.update_step(index, f) };
        self.task_tracker.modify(tracker, self.task_name.as_str(), g);
        proof {
            if task_of(pre, jn, tn) is Some {
                let (xt, yt) = choose|xt: TaskStatus, yt: TaskStatus|
                    xt@ == task_of(pre, jn, tn)->0 && g.ensures((xt,), yt) && tracker@
                        == with_task_of(pre, jn, tn, yt@);
                if index < xt@.steps.len() {
                    let y = choose|y: StepStatus|
                        f.ensures((xt.steps@[index as int],), y) && yt@ == with_step(
                            xt@,
                            index as int,
                            y@,
                        );
                    let x = xt.steps@[index as int];
                    assert(x@ == xt@.steps[index as int]);
                    assert(f.ensures((x,), y) && tracker@ == with_step_of(pre, jn, tn, index as int, y@));
                } else {
                    let c = first_task(pre[jn].tasks, tn);
                    lemma_has_first(pre[jn].tasks, tn);
                    assert(pre[jn].tasks.update(c, yt@) =~= pre[jn].tasks);
                    assert(with_task(pre[jn], c, yt@) == pre[jn]);
                    assert(tracker@ =~= pre);
                }
            }
        }
    }

    /// Appends `message`, one line of output of the step, to the record of
    /// step `index`; does nothing if there is no such step.
    pub fn log(&self, tracker: &mut JobTracker, index: usize, message: &str)
        requires
            old(tracker).wf(),
        ensures
            final(tracker).wf(),
            step_of(old(tracker)@, self.job(), self.task(), index as int) matches Some(s)
                ==> final(tracker)@ == with_step_of(
                old(tracker)@,
                self.job(),
                self.task(),
                index as int,
                appended(s, message@),
            ),
            step_of(old(tracker)@, self.job(), self.task(), index as int) is None ==> final(tracker)@
                == old(tracker)@,
    {
        let append = |s: StepStatus| -> (r: StepStatus)
            ensures
                r@ == appended(s@, message@),
            { s.push_output(message) };
        self.modify(tracker, index, append);
    }
}

} // verus!
