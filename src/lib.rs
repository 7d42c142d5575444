pub mod model;
pub mod run;
pub mod schedule;
pub mod tracker;

pub use model::{Job, JobStatus, Status, Step, StepStatus, Task, TaskStatus};
pub use run::{Error, Loader, Runner};
pub use schedule::{Decision, Schedule, ScheduleError};
pub use tracker::{JobTracker, StepTracker, TaskTracker, line_text};
