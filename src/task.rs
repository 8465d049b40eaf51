//! Job and task records.
use vstd::prelude::*;

verus! {

/// Whether a task runs the map function over an input split or the reduce
/// function over a partition.
#[derive(Clone, Copy, Debug, PartialEq, Eq, Structural)]
pub enum TaskKind {
    MapTask,
    ReduceTask,
}

/// Where a task is in its life: waiting, handed to a worker, or finished.
#[derive(Clone, Copy, Debug, PartialEq, Eq, Structural)]
pub enum TaskState {
    Idle,
    Assigned,
    Done,
}

/// One unit of work. `task_id` is the input split's path for a map task and
/// the partition number in decimal for a reduce task; `index` is the map
/// task's position in the input list or the reduce task's partition number.
#[derive(Debug)]
pub struct TaskRecord {
    pub task_id: String,
    pub kind: TaskKind,
    pub state: TaskState,
    pub index: u64,
}

/// The one record of a run.
#[derive(Debug)]
pub struct JobRecord {
    pub job_name: String,
    pub map_task_count: u64,
    pub reduce_task_count: u64,
}

} // verus!
