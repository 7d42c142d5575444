use bed::{
    Decision, Error, Job, JobStatus, JobTracker, Loader, Runner, Status, Step, StepStatus,
    ScheduleError, Schedule,
    StepTracker, Task, TaskTracker, line_text,
};

fn strings(v: &[&str]) -> Vec<String> {
    v.iter().map(|s| s.to_string()).collect()
}

fn task(name: &str, depends: &[&str], commands: &[&[&str]]) -> Task {
    Task {
        name: name.to_string(),
        depends: strings(depends),
        steps: commands.iter().map(|c| Step::command(strings(c))).collect(),
    }
}

fn job(name: &str, depends: &[&str], tasks: Vec<Task>) -> Job {
    let mut j = Job::new(name.to_string());
    for d in depends {
        j.depends(d.to_string());
    }
    j.tasks = tasks;
    j
}

fn started(d: Decision) -> Vec<usize> {
    match d {
        Decision::Wait(v) => v,
        other => panic!("expected Wait, got {:?}", other),
    }
}

fn task_status(tracker: &JobTracker, job: &str, name: &str) -> Status {
    TaskTracker::new(job.to_string()).get(tracker, name).unwrap().status
}

fn step_record(tracker: &JobTracker, job: &str, task: &str, index: usize) -> (Vec<String>, Status) {
    let steps = StepTracker::new(task.to_string(), TaskTracker::new(job.to_string()));
    match steps.get(tracker, index).unwrap() {
        StepStatus::Command { output, status, .. } => (output, status),
    }
}

/// Runs one step of `task` through the tracker as the executor does, with the
/// given output lines and exit code.
fn run_step(tracker: &mut JobTracker, job: &str, task: &str, index: usize, lines: &[&str], code: Option<i32>) -> Result<(), Error> {
    let steps = StepTracker::new(task.to_string(), TaskTracker::new(job.to_string()));
    steps.start(tracker, index);
    for line in lines {
        let read = format!("{}\n", line);
        steps.log(tracker, index, &line_text(&read));
    }
    steps.finish(tracker, index, code)
}

fn register(tracker: &mut JobTracker, j: &Job) {
    let mut runner = Runner::new();
    runner.jobs.push(j.clone());
    assert!(runner.prepare(tracker).is_ok());
}

#[test]
fn two_independent_tasks_finish_with_their_output() {
    let j = job("build", &[], vec![
        task("a", &[], &[&["echo", "ok"]]),
        task("b", &[], &[&["echo", "ok"]]),
    ]);
    let mut tracker = JobTracker::new();
    register(&mut tracker, &j);
    let mut schedule = j.schedule().unwrap();
    let launched = started(schedule.advance());
    assert_eq!(launched, vec![0, 1]);
    for &i in &launched {
        let name = schedule.name(i).clone();
        let outcome = run_step(&mut tracker, "build", &name, 0, &["ok"], Some(0));
        assert!(outcome.is_ok());
        assert!(j.retire(&mut schedule, i, outcome).is_ok());
    }
    assert!(matches!(schedule.advance(), Decision::Done));
    assert_eq!(schedule.status(0), Status::Finished);
    assert_eq!(schedule.status(1), Status::Finished);
    for name in ["a", "b"] {
        let (output, status) = step_record(&tracker, "build", name, 0);
        assert_eq!(output, vec!["ok".to_string()]);
        assert_eq!(status, Status::Finished);
    }
}

#[test]
fn failing_task_fails_job_and_dependent_never_runs() {
    let j = job("build", &[], vec![
        task("a", &[], &[&["false"]]),
        task("b", &["a"], &[&["echo", "ok"]]),
    ]);
    let mut tracker = JobTracker::new();
    register(&mut tracker, &j);
    let mut schedule = j.schedule().unwrap();
    let tasks = TaskTracker::new("build".to_string());
    assert_eq!(started(schedule.advance()), vec![0]);
    tasks.start(&mut tracker, "a");
    assert_eq!(task_status(&tracker, "build", "a"), Status::Running);
    let outcome = run_step(&mut tracker, "build", "a", 0, &[], Some(1));
    assert!(matches!(outcome, Err(Error::Exit(Some(1)))));
    tasks.finish(&mut tracker, "a", outcome.is_ok());
    assert_eq!(task_status(&tracker, "build", "a"), Status::Failed);
    match j.retire(&mut schedule, 0, outcome) {
        Err(Error::TaskFailed(t)) => assert_eq!(t.name, "a"),
        other => panic!("expected TaskFailed, got {:?}", other),
    }
    assert_eq!(schedule.status(1), Status::Pending);
    assert_eq!(task_status(&tracker, "build", "b"), Status::Pending);
    assert_eq!(step_record(&tracker, "build", "a", 0).1, Status::Failed);
    assert_eq!(step_record(&tracker, "build", "b", 0).1, Status::Pending);
}

#[test]
fn job_starts_only_after_both_dependencies_finish() {
    let mut runner = Runner::new();
    runner.jobs.push(job("a", &[], vec![]));
    runner.jobs.push(job("b", &[], vec![]));
    runner.jobs.push(job("c", &["a", "b"], vec![]));
    let mut tracker = JobTracker::new();
    let mut schedule = runner.prepare(&mut tracker).unwrap();
    let status = |t: &JobTracker, n: &str| t.get(n).unwrap().status;
    for i in started(schedule.advance()) {
        tracker.start(&runner.jobs[i].name);
    }
    assert_eq!(status(&tracker, "a"), Status::Running);
    assert_eq!(status(&tracker, "b"), Status::Running);
    assert_eq!(status(&tracker, "c"), Status::Pending);
    assert_eq!(schedule.status(0), Status::Running);
    assert_eq!(schedule.status(1), Status::Running);
    assert_eq!(schedule.status(2), Status::Pending);
    tracker.finish("b", true);
    assert!(runner.retire(&mut schedule, 1, Ok(())).is_ok());
    assert_eq!(started(schedule.advance()), Vec::<usize>::new());
    assert_eq!(schedule.status(2), Status::Pending);
    assert_eq!(status(&tracker, "c"), Status::Pending);
    tracker.finish("a", true);
    assert!(runner.retire(&mut schedule, 0, Ok(())).is_ok());
    assert_eq!(started(schedule.advance()), vec![2]);
    tracker.start("c");
    assert_eq!(status(&tracker, "a"), Status::Finished);
    assert_eq!(status(&tracker, "b"), Status::Finished);
    assert_eq!(status(&tracker, "c"), Status::Running);
    tracker.finish("c", true);
    assert_eq!(status(&tracker, "c"), Status::Finished);
    assert!(runner.retire(&mut schedule, 2, Ok(())).is_ok());
    assert!(matches!(schedule.advance(), Decision::Done));
    assert_eq!(schedule.finished(), &vec![1, 0, 2]);
    runner.reorder(schedule.finished());
    let names: Vec<&str> = runner.jobs.iter().map(|j| j.name.as_str()).collect();
    assert_eq!(names, vec!["b", "a", "c"]);
}

#[test]
fn snapshot_is_stable_once_the_run_is_over() {
    let j = job("build", &[], vec![task("a", &[], &[&["echo", "ok"]])]);
    let mut tracker = JobTracker::new();
    register(&mut tracker, &j);
    let _ = run_step(&mut tracker, "build", "a", 0, &["ok"], Some(0));
    let first = tracker.get("build").unwrap();
    let second = tracker.get("build").unwrap();
    assert_eq!(format!("{:?}", first), format!("{:?}", second));
}

#[test]
fn cycle_is_stuck_and_never_starts() {
    let j = job("build", &[], vec![task("a", &["b"], &[]), task("b", &["a"], &[])]);
    let mut schedule = j.schedule().unwrap();
    assert!(matches!(schedule.advance().checked(), Err(Error::CircularDependency)));
    assert_eq!(schedule.status(0), Status::Pending);
    assert_eq!(schedule.status(1), Status::Pending);
}

#[test]
fn progress_decisions_pass_through_check() {
    let j = job("build", &[], vec![task("a", &[], &[])]);
    let mut schedule = j.schedule().unwrap();
    match schedule.advance().checked() {
        Ok(Decision::Wait(v)) => assert_eq!(v, vec![0]),
        other => panic!("expected Wait, got {:?}", other.is_ok()),
    }
    assert!(j.retire(&mut schedule, 0, Ok(())).is_ok());
    assert!(matches!(schedule.advance().checked(), Ok(Decision::Done)));
}

#[test]
fn cycle_beside_runnable_task() {
    let j = job("build", &[], vec![
        task("x", &[], &[]),
        task("a", &["b"], &[]),
        task("b", &["a"], &[]),
    ]);
    let mut schedule = j.schedule().unwrap();
    assert_eq!(started(schedule.advance()), vec![0]);
    assert!(j.retire(&mut schedule, 0, Ok(())).is_ok());
    assert!(matches!(schedule.advance(), Decision::Stuck));
    assert_eq!(schedule.status(1), Status::Pending);
    assert_eq!(schedule.status(2), Status::Pending);
}

#[test]
fn missing_task_dependency_is_qualified_by_job() {
    let j = job("build", &[], vec![task("a", &[], &[]), task("b", &["a", "nope"], &[])]);
    match j.schedule() {
        Err(Error::MissingDependency(name)) => assert_eq!(name, "build/nope"),
        other => panic!("expected MissingDependency, got {:?}", other.is_ok()),
    }
}

#[test]
fn missing_job_dependency_registers_nothing() {
    let mut runner = Runner::new();
    runner.jobs.push(job("a", &["ghost"], vec![]));
    runner.jobs.push(job("b", &["phantom"], vec![]));
    let mut tracker = JobTracker::new();
    match runner.prepare(&mut tracker) {
        Err(Error::MissingDependency(name)) => assert_eq!(name, "ghost"),
        other => panic!("expected MissingDependency, got {:?}", other.is_ok()),
    }
    assert!(tracker.get("a").is_none());
    assert!(tracker.get("b").is_none());
}

#[test]
fn chain_finishes_in_dependency_order() {
    let j = job("build", &[], vec![
        task("c", &["b"], &[]),
        task("b", &["a"], &[]),
        task("a", &[], &[]),
    ]);
    let mut schedule = j.schedule().unwrap();
    let mut order = Vec::new();
    loop {
        match schedule.advance() {
            Decision::Wait(v) => {
                assert_eq!(v.len(), 1);
                order.push(v[0]);
                assert_eq!(schedule.status(v[0]), Status::Running);
                assert!(j.retire(&mut schedule, v[0], Ok(())).is_ok());
                assert_eq!(schedule.status(v[0]), Status::Finished);
            }
            Decision::Done => break,
            Decision::Stuck => panic!("stuck"),
        }
    }
    assert_eq!(order, vec![2, 1, 0]);
    let mut j2 = j.clone();
    j2.reorder(schedule.finished());
    let names: Vec<&str> = j2.tasks.iter().map(|t| t.name.as_str()).collect();
    assert_eq!(names, vec!["a", "b", "c"]);
}

#[test]
fn empty_job_is_done_at_once() {
    let j = job("empty", &[], vec![]);
    let mut schedule = j.schedule().unwrap();
    assert_eq!(schedule.len(), 0);
    assert!(matches!(schedule.advance(), Decision::Done));
}

#[test]
fn step_killed_by_signal_fails_without_code() {
    let j = job("build", &[], vec![task("a", &[], &[&["sleep", "9"]])]);
    let mut tracker = JobTracker::new();
    register(&mut tracker, &j);
    let outcome = run_step(&mut tracker, "build", "a", 0, &["partial"], None);
    assert!(matches!(outcome, Err(Error::Exit(None))));
    let (output, status) = step_record(&tracker, "build", "a", 0);
    assert_eq!(output, vec!["partial".to_string()]);
    assert_eq!(status, Status::Failed);
}

#[test]
fn step_status_moves_through_running() {
    let j = job("build", &[], vec![task("a", &[], &[&["echo", "1"], &["echo", "2"]])]);
    let mut tracker = JobTracker::new();
    register(&mut tracker, &j);
    let steps = StepTracker::new("a".to_string(), TaskTracker::new("build".to_string()));
    assert_eq!(step_record(&tracker, "build", "a", 0).1, Status::Pending);
    steps.start(&mut tracker, 0);
    assert_eq!(step_record(&tracker, "build", "a", 0).1, Status::Running);
    assert!(steps.finish(&mut tracker, 0, Some(0)).is_ok());
    assert_eq!(step_record(&tracker, "build", "a", 0).1, Status::Finished);
    assert_eq!(step_record(&tracker, "build", "a", 1).1, Status::Pending);
    assert!(steps.get(&tracker, 2).is_none());
}

#[test]
fn output_lines_keep_their_order() {
    let j = job("build", &[], vec![task("a", &[], &[&["seq", "3"]])]);
    let mut tracker = JobTracker::new();
    register(&mut tracker, &j);
    let _ = run_step(&mut tracker, "build", "a", 0, &["1", "2", "3"], Some(0));
    assert_eq!(step_record(&tracker, "build", "a", 0).0, strings(&["1", "2", "3"]));
}

#[test]
fn tracker_updates_to_unknown_names_are_ignored() {
    let mut tracker = JobTracker::new();
    tracker.modify("nobody", |mut j: JobStatus| {
        j.status = Status::Failed;
        j
    });
    assert!(tracker.get("nobody").is_none());
    let tasks = TaskTracker::new("nobody".to_string());
    tasks.modify(&mut tracker, "t", |t| t);
    assert!(tasks.get(&tracker, "t").is_none());
    let steps = StepTracker::new("t".to_string(), tasks);
    steps.log(&mut tracker, 0, "late line");
    assert!(steps.get(&tracker, 0).is_none());
}

#[test]
fn tracker_insert_replaces_record_of_same_name() {
    let mut tracker = JobTracker::new();
    let j = job("build", &["x"], vec![task("a", &[], &[])]);
    tracker.insert(JobStatus::pending(&j));
    let mut other = JobStatus::pending(&job("build", &[], vec![]));
    other.status = Status::Running;
    tracker.insert(other);
    let got = tracker.get("build").unwrap();
    assert_eq!(got.status, Status::Running);
    assert!(got.tasks.is_empty());
    assert!(got.depends.is_empty());
}

#[test]
fn tracker_modify_changes_one_record() {
    let mut tracker = JobTracker::new();
    tracker.insert(JobStatus::pending(&job("a", &[], vec![])));
    tracker.insert(JobStatus::pending(&job("b", &[], vec![])));
    tracker.modify("a", |mut j: JobStatus| {
        j.status = Status::Running;
        j
    });
    assert_eq!(tracker.get("a").unwrap().status, Status::Running);
    assert_eq!(tracker.get("b").unwrap().status, Status::Pending);
    let tasks = TaskTracker::new("a".to_string());
    assert!(tasks.get(&tracker, "zzz").is_none());
}

#[test]
fn task_tracker_updates_first_task_of_name() {
    let j = job("build", &[], vec![task("a", &[], &[]), task("b", &[], &[])]);
    let mut tracker = JobTracker::new();
    register(&mut tracker, &j);
    let tasks = TaskTracker::new("build".to_string());
    tasks.modify(&mut tracker, "b", |mut t| {
        t.status = Status::Running;
        t
    });
    assert_eq!(task_status(&tracker, "build", "b"), Status::Running);
    assert_eq!(task_status(&tracker, "build", "a"), Status::Pending);
}

#[test]
fn pending_record_mirrors_job() {
    let j = job("build", &["setup"], vec![task("a", &["z"], &[&["make", "all"]])]);
    let record = JobStatus::pending(&j);
    assert_eq!(record.name, "build");
    assert_eq!(record.depends, strings(&["setup"]));
    assert_eq!(record.status, Status::Pending);
    assert_eq!(record.tasks.len(), 1);
    assert_eq!(record.tasks[0].name, "a");
    assert_eq!(record.tasks[0].depends, strings(&["z"]));
    match &record.tasks[0].steps[0] {
        StepStatus::Command { args, output, status } => {
            assert_eq!(args, &strings(&["make", "all"]));
            assert!(output.is_empty());
            assert_eq!(*status, Status::Pending);
        }
    }
}

#[test]
fn readiness_follows_finished_names() {
    let j = job("c", &["a", "b"], vec![]);
    assert!(!j.ready(&vec![job("a", &[], vec![])]));
    assert!(j.ready(&vec![job("b", &[], vec![]), job("a", &[], vec![])]));
    assert!(job("free", &[], vec![]).ready(&vec![]));
    let t = task("t", &["s"], &[]);
    assert!(!t.ready(&vec![]));
    assert!(t.ready(&vec![task("s", &[], &[])]));
}

#[test]
fn job_builders() {
    let mut j = Job::new("x".to_string());
    assert!(j.depends.is_empty() && j.tasks.is_empty());
    j.depends("y".to_string());
    j.depends("z".to_string());
    assert_eq!(j.depends, strings(&["y", "z"]));
    match Step::command(strings(&["ls"])) {
        Step::Command { args } => assert_eq!(args, strings(&["ls"])),
    }
    assert_eq!(Status::default(), Status::Pending);
}

#[test]
fn loader_accepts_yaml_files_only() {
    assert!(Loader::accepts("yml"));
    assert!(Loader::accepts("yaml"));
    assert!(!Loader::accepts("txt"));
    assert!(!Loader::accepts("YML"));
    assert!(!Loader::accepts(""));
}

#[test]
fn loader_hands_its_jobs_to_a_runner() {
    let mut loader = Loader::new(".bed".to_string());
    assert_eq!(loader.directory, ".bed");
    assert!(loader.jobs.is_empty());
    loader.jobs.push(job("a", &[], vec![task("t", &[], &[&["true"]])]));
    loader.jobs.push(job("b", &["a"], vec![]));
    let runner = loader.runner();
    assert_eq!(runner.jobs.len(), 2);
    assert_eq!(runner.jobs[0].name, "a");
    assert_eq!(runner.jobs[0].tasks[0].name, "t");
    assert_eq!(runner.jobs[1].depends, strings(&["a"]));
}

#[test]
fn failed_job_carries_the_job() {
    let mut runner = Runner::new();
    runner.jobs.push(job("a", &[], vec![]));
    let mut tracker = JobTracker::new();
    let mut schedule = runner.prepare(&mut tracker).unwrap();
    assert_eq!(tracker.get("a").unwrap().status, Status::Pending);
    assert_eq!(started(schedule.advance()), vec![0]);
    match runner.retire(&mut schedule, 0, Err(Error::Exit(Some(2)))) {
        Err(Error::JobFailed(j)) => assert_eq!(j.name, "a"),
        other => panic!("expected JobFailed, got {:?}", other),
    }
    assert_eq!(schedule.status(0), Status::Running);
}

#[test]
fn line_text_drops_the_line_ending() {
    assert_eq!(line_text("ok\n"), "ok");
    assert_eq!(line_text("ok\r\n"), "ok");
    assert_eq!(line_text("ok"), "ok");
    assert_eq!(line_text("\n"), "");
    assert_eq!(line_text(""), "");
    assert_eq!(line_text("a\rb\n"), "a\rb");
    assert_eq!(line_text("é\n"), "é");
}

#[test]
fn duplicate_task_names_are_refused_with_the_job_name() {
    let j = job("build", &[], vec![task("a", &[], &[]), task("b", &[], &[]), task("a", &[], &[])]);
    match j.schedule() {
        Err(Error::DuplicateName(name)) => assert_eq!(name, "build/a"),
        other => panic!("expected DuplicateName, got {:?}", other.is_ok()),
    }
}

#[test]
fn missing_dependency_is_reported_before_duplicates() {
    let j = job("build", &[], vec![task("a", &[], &[]), task("a", &["zz"], &[])]);
    match j.schedule() {
        Err(Error::MissingDependency(name)) => assert_eq!(name, "build/zz"),
        other => panic!("expected MissingDependency, got {:?}", other.is_ok()),
    }
}

#[test]
fn duplicate_job_names_register_nothing() {
    let mut runner = Runner::new();
    runner.jobs.push(job("a", &[], vec![]));
    runner.jobs.push(job("b", &[], vec![]));
    runner.jobs.push(job("b", &[], vec![]));
    let mut tracker = JobTracker::new();
    match runner.prepare(&mut tracker) {
        Err(Error::DuplicateName(name)) => assert_eq!(name, "b"),
        other => panic!("expected DuplicateName, got {:?}", other.is_ok()),
    }
    assert!(tracker.get("a").is_none());
}

#[test]
fn schedule_new_reports_which_refusal() {
    let names = strings(&["x", "y"]);
    let depends = vec![strings(&["y"]), strings(&["w"])];
    assert!(matches!(Schedule::new(names, depends), Err(ScheduleError::Missing(d)) if d == "w"));
    let names = strings(&["x", "y", "y"]);
    let depends = vec![vec![], vec![], vec![]];
    assert!(matches!(Schedule::new(names, depends), Err(ScheduleError::Duplicate(d)) if d == "y"));
}

#[test]
fn steps_run_in_order_and_stop_at_first_failure() {
    let t = task("t", &[], &[&["a"], &["b"], &["c"]]);
    assert_eq!(t.first_step(), Some(0));
    assert_eq!(t.next_step(0, Ok(())).unwrap(), Some(1));
    assert_eq!(t.next_step(1, Ok(())).unwrap(), Some(2));
    assert_eq!(t.next_step(2, Ok(())).unwrap(), None);
    assert!(matches!(t.next_step(1, Err(Error::Exit(Some(3)))), Err(Error::Exit(Some(3)))));
    let empty = task("e", &[], &[]);
    assert_eq!(empty.first_step(), None);
}

#[test]
fn failing_step_leaves_later_steps_pending() {
    let t = task("a", &[], &[&["true"], &["false"], &["echo", "late"]]);
    let j = job("build", &[], vec![t.clone()]);
    let mut tracker = JobTracker::new();
    register(&mut tracker, &j);
    let mut current = t.first_step();
    let mut result = Ok(());
    let codes = [Some(0), Some(1), Some(0)];
    while let Some(index) = current {
        let outcome = run_step(&mut tracker, "build", "a", index, &[], codes[index]);
        match t.next_step(index, outcome) {
            Ok(next) => current = next,
            Err(e) => {
                result = Err(e);
                break;
            }
        }
    }
    assert!(matches!(result, Err(Error::Exit(Some(1)))));
    assert_eq!(step_record(&tracker, "build", "a", 0).1, Status::Finished);
    assert_eq!(step_record(&tracker, "build", "a", 1).1, Status::Failed);
    assert_eq!(step_record(&tracker, "build", "a", 2).1, Status::Pending);
}

#[test]
fn job_and_task_marks_ignore_unknown_names() {
    let mut tracker = JobTracker::new();
    tracker.start("nobody");
    tracker.finish("nobody", false);
    assert!(tracker.get("nobody").is_none());
    let tasks = TaskTracker::new("nobody".to_string());
    tasks.start(&mut tracker, "t");
    tasks.finish(&mut tracker, "t", true);
    assert!(tasks.get(&tracker, "t").is_none());
}

#[test]
fn failed_job_is_marked_failed() {
    let mut tracker = JobTracker::new();
    tracker.insert(JobStatus::pending(&job("a", &[], vec![])));
    tracker.start("a");
    assert_eq!(tracker.get("a").unwrap().status, Status::Running);
    tracker.finish("a", false);
    assert_eq!(tracker.get("a").unwrap().status, Status::Failed);
}

#[test]
fn program_splits_executable_from_arguments() {
    let (p, rest) = Step::command(strings(&["echo", "a", "b"])).program().unwrap();
    assert_eq!(p, "echo");
    assert_eq!(rest, strings(&["a", "b"]));
    let (p, rest) = Step::command(strings(&["true"])).program().unwrap();
    assert_eq!(p, "true");
    assert!(rest.is_empty());
    assert!(Step::command(vec![]).program().is_none());
}
