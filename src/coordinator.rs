//! The coordinator: the task table and the policy by which tasks are handed
//! out to workers that ask for one.
use crate::naming::{decimal, lemma_decimal_injective, to_decimal};
use crate::task::{JobRecord, TaskKind, TaskRecord, TaskState};
use vstd::prelude::*;
use vstd::string::StringExecFns;

verus! {

/// The task table as the assignment policy sees it: the map tasks' input
/// splits, and the state of each map and each reduce task by index.
pub struct TableView {
    pub map_ids: Seq<Seq<char>>,
    pub map: Seq<TaskState>,
    pub reduce: Seq<TaskState>,
}

/// What a request for a task comes to.
pub enum Decision {
    Assign(TaskKind, int),
    NoTaskAvailable,
    JobComplete,
}

/// Something that happens to the table: a worker asks for a task, or a
/// worker reports a task finished.
pub enum Event {
    Request,
    Finish(TaskKind, int),
}

pub open spec fn all_done(s: Seq<TaskState>) -> bool {
    forall|i: int| 0 <= i < s.len() ==> s[i] == TaskState::Done
}

pub open spec fn has_idle(s: Seq<TaskState>) -> bool {
    exists|i: int| 0 <= i < s.len() && s[i] == TaskState::Idle
}

/// `i` is the lowest index of an idle task.
pub open spec fn is_first_idle(s: Seq<TaskState>, i: int) -> bool {
    &&& 0 <= i < s.len()
    &&& s[i] == TaskState::Idle
    &&& forall|j: int| 0 <= j < i ==> s[j] != TaskState::Idle
}

pub open spec fn first_idle(s: Seq<TaskState>) -> int {
    choose|i: int| is_first_idle(s, i)
}

/// The states of the tasks of one kind.
pub open spec fn states(v: TableView, kind: TaskKind) -> Seq<TaskState> {
    match kind {
        TaskKind::MapTask => v.map,
        TaskKind::ReduceTask => v.reduce,
    }
}

pub open spec fn in_range(v: TableView, kind: TaskKind, i: int) -> bool {
    0 <= i < states(v, kind).len()
}

/// The table with task `i` of `kind` put in state `s`.
pub open spec fn with_state(v: TableView, kind: TaskKind, i: int, s: TaskState) -> TableView {
    match kind {
        TaskKind::MapTask => TableView { map_ids: v.map_ids, map: v.map.update(i, s), reduce: v.reduce },
        TaskKind::ReduceTask => TableView { map_ids: v.map_ids, map: v.map, reduce: v.reduce.update(i, s) },
    }
}

/// The assignment policy. While some map task is not done, only map tasks are
/// handed out, the idle one of lowest index first; once all are done, reduce
/// tasks by the same rule. With nothing idle the answer is that no task is
/// available, or, when every task is done, that the job is complete.
pub open spec fn decide(v: TableView) -> Decision {
    if !all_done(v.map) {
        if has_idle(v.map) {
            Decision::Assign(TaskKind::MapTask, first_idle(v.map))
        } else {
            Decision::NoTaskAvailable
        }
    } else if has_idle(v.reduce) {
        Decision::Assign(TaskKind::ReduceTask, first_idle(v.reduce))
    } else if all_done(v.reduce) {
        Decision::JobComplete
    } else {
        Decision::NoTaskAvailable
    }
}

/// The table after a request: the task handed out, if any, is assigned.
pub open spec fn after_request(v: TableView) -> TableView {
    match decide(v) {
        Decision::Assign(kind, i) => with_state(v, kind, i, TaskState::Assigned),
        _ => v,
    }
}

/// The table after a report that task `i` of `kind` is finished: it is done if
/// it exists and was assigned, and nothing changes otherwise.
pub open spec fn after_finish(v: TableView, kind: TaskKind, i: int) -> TableView {
    if in_range(v, kind, i) && states(v, kind)[i] == TaskState::Assigned {
        with_state(v, kind, i, TaskState::Done)
    } else {
        v
    }
}

pub open spec fn step(v: TableView, e: Event) -> TableView {
    match e {
        Event::Request => after_request(v),
        Event::Finish(kind, i) => after_finish(v, kind, i),
    }
}

/// The table after a sequence of events, applied in order.
pub open spec fn run(v: TableView, events: Seq<Event>) -> TableView
    decreases events.len(),
{
    if events.len() == 0 {
        v
    } else {
        step(run(v, events.drop_last()), events.last())
    }
}

/// The name a task goes by: its input split for a map task, its partition
/// number in decimal for a reduce task.
pub open spec fn task_name_of(v: TableView, kind: TaskKind, i: int) -> Seq<char> {
    match kind {
        TaskKind::MapTask => v.map_ids[i],
        TaskKind::ReduceTask => decimal(i as nat),
    }
}

/// A task handed to a worker.
#[derive(Debug)]
pub struct TaskResponse {
    pub task_name: String,
    pub kind: TaskKind,
    pub tasknum: u64,
    pub map_task_count: u64,
    pub reduce_task_count: u64,
}

/// Why a request got no task.
#[derive(Clone, Copy, Debug, PartialEq, Eq, Structural)]
pub enum AssignError {
    /// Every idle task must wait for tasks in flight; ask again later.
    NoTaskAvailable,
    /// Every task is done.
    JobComplete,
}

/// Why a job could not be set up.
#[derive(Clone, Copy, Debug, PartialEq, Eq, Structural)]
pub enum JobError {
    /// The number of input splits is not the number of map tasks.
    SplitCountMismatch,
    /// A job needs at least one reduce task to route records to.
    NoReduceTasks,
    /// The same input split is listed twice; task names are unique.
    DuplicateSplit,
}

/// The decision that a reply to a request carries.
pub open spec fn decision_of(r: Result<TaskResponse, AssignError>) -> Decision {
    match r {
        Ok(resp) => Decision::Assign(resp.kind, resp.tasknum as int),
        Err(AssignError::NoTaskAvailable) => Decision::NoTaskAvailable,
        Err(AssignError::JobComplete) => Decision::JobComplete,
    }
}

pub open spec fn states_of(tasks: Seq<TaskRecord>) -> Seq<TaskState> {
    tasks.map_values(|t: TaskRecord| t.state)
}

pub open spec fn ids_of(tasks: Seq<TaskRecord>) -> Seq<Seq<char>> {
    tasks.map_values(|t: TaskRecord| t.task_id@)
}

/// No name occurs twice.
pub open spec fn distinct_ids(ids: Seq<Seq<char>>) -> bool {
    forall|a: int, b: int| 0 <= a < b < ids.len() ==> #[trigger] ids[a] != #[trigger] ids[b]
}

/// Whether no two of the names are equal.
pub fn all_distinct(names: &Vec<String>) -> (r: bool)
    ensures
        r == distinct_ids(names@.map_values(|s: String| s@)),
{
    let ghost ids = names@.map_values(|s: String| s@);
    let mut i: usize = 0;
    while i < names.len()
        invariant
            ids == names@.map_values(|s: String| s@),
            i <= names@.len(),
            forall|a: int, b: int| 0 <= a < b < ids.len() && a < i ==> #[trigger] ids[a] != #[trigger] ids[b],
        decreases names.len() - i,
    {
        let mut j: usize = i + 1;
        while j < names.len()
            invariant
                ids == names@.map_values(|s: String| s@),
                i < names@.len(),
                i + 1 <= j <= names@.len(),
                forall|b: int| i < b < j ==> ids[i as int] != #[trigger] ids[b],
            decreases names.len() - j,
        {
            if names[i] == names[j] {
                assert(ids[i as int] == ids[j as int]);
                return false;
            }
            j = j + 1;
        }
        i = i + 1;
    }
    true
}

/// The coordinator's task table: the job record, and the map and reduce tasks,
/// each kind held in order of its index.
#[derive(Debug)]
pub struct TaskService {
    job: JobRecord,
    map_tasks: Vec<TaskRecord>,
    reduce_tasks: Vec<TaskRecord>,
}

impl View for TaskService {
    type V = TableView;

    closed spec fn view(&self) -> TableView {
        TableView {
            map_ids: ids_of(self.map_tasks@),
            map: states_of(self.map_tasks@),
            reduce: states_of(self.reduce_tasks@),
        }
    }
}

/// The first idle index of `s`, when there is one, is the only one.
pub proof fn lemma_first_idle_unique(s: Seq<TaskState>, i: int)
    requires
        is_first_idle(s, i),
    ensures
        has_idle(s),
        first_idle(s) == i,
{
    let j = first_idle(s);
    assert(is_first_idle(s, j));
    if j < i {
        assert(s[j] != TaskState::Idle);
    } else if i < j {
        assert(s[i] != TaskState::Idle);
    }
}

/// Where some task is idle, there is an idle one of lowest index.
pub proof fn lemma_first_idle(s: Seq<TaskState>)
    requires
        has_idle(s),
    ensures
        is_first_idle(s, first_idle(s)),
{
    let i = choose|i: int| 0 <= i < s.len() && s[i] == TaskState::Idle;
    lemma_lowest_idle(s, i);
}

proof fn lemma_lowest_idle(s: Seq<TaskState>, i: int)
    requires
        0 <= i < s.len(),
        s[i] == TaskState::Idle,
    ensures
        exists|j: int| is_first_idle(s, j),
    decreases i,
{
    if exists|j: int| 0 <= j < i && s[j] == TaskState::Idle {
        let j = choose|j: int| 0 <= j < i && s[j] == TaskState::Idle;
        lemma_lowest_idle(s, j);
    } else {
        assert(is_first_idle(s, i));
    }
}

impl TaskService {
    /// The records agree with the job: one map task per split and one reduce
    /// task per partition, each kind held in order of its index, and each
    /// reduce task named by its partition number.
    pub closed spec fn wf(&self) -> bool {
        &&& self.map_tasks@.len() == self.job.map_task_count
        &&& self.reduce_tasks@.len() == self.job.reduce_task_count
        &&& forall|i: int|
            0 <= i < self.map_tasks@.len() ==> (#[trigger] self.map_tasks@[i]).kind == TaskKind::MapTask
                && self.map_tasks@[i].index == i
        &&& forall|i: int|
            0 <= i < self.reduce_tasks@.len() ==> (#[trigger] self.reduce_tasks@[i]).kind
                == TaskKind::ReduceTask && self.reduce_tasks@[i].index == i
                && self.reduce_tasks@[i].task_id@ == decimal(i as nat)
        &&& distinct_ids(ids_of(self.map_tasks@))
    }

    pub closed spec fn spec_job_name(&self) -> Seq<char> {
        self.job.job_name@
    }

    /// What the assignment policy answers to the next request, without
    /// assigning anything.
    pub fn peek_task(&self) -> (r: Result<TaskResponse, AssignError>)
        requires
            self.wf(),
        ensures
            decision_of(r) == decide(self@),
            r matches Ok(resp) ==> {
                &&& resp.task_name@ == task_name_of(self@, resp.kind, resp.tasknum as int)
                &&& resp.map_task_count == self@.map.len()
                &&& resp.reduce_task_count == self@.reduce.len()
            },
    {
        let ghost v = self@;
        let mut map_phase_done = true;
        let mut i: usize = 0;
        while i < self.map_tasks.len()
            invariant
                self.wf(),
                self@ == v,
                0 <= i <= v.map.len(),
                forall|j: int| 0 <= j < i ==> v.map[j] != TaskState::Idle,
                map_phase_done <==> forall|j: int| 0 <= j < i ==> v.map[j] == TaskState::Done,
            decreases self.map_tasks.len() - i,
        {
            if self.map_tasks[i].state == TaskState::Idle {
                proof {
                    assert(is_first_idle(v.map, i as int));
                    lemma_first_idle_unique(v.map, i as int);
                }
                let resp = TaskResponse {
                    task_name: self.map_tasks[i].task_id.clone(),
                    kind: TaskKind::MapTask,
                    tasknum: i as u64,
                    map_task_count: self.job.map_task_count,
                    reduce_task_count: self.job.reduce_task_count,
                };
                assert(!all_done(v.map)) by {
                    assert(v.map[i as int] == TaskState::Idle);
                }
                return Ok(resp);
            }
            if self.map_tasks[i].state != TaskState::Done {
                map_phase_done = false;
            }
            assert(v.map[i as int] == self.map_tasks@[i as int].state);
            i = i + 1;
        }
        if !map_phase_done {
            return Err(AssignError::NoTaskAvailable);
        }
        let mut reduce_phase_done = true;
        let mut i: usize = 0;
        while i < self.reduce_tasks.len()
            invariant
                self.wf(),
                self@ == v,
                all_done(v.map),
                0 <= i <= v.reduce.len(),
                forall|j: int| 0 <= j < i ==> v.reduce[j] != TaskState::Idle,
                reduce_phase_done <==> forall|j: int| 0 <= j < i ==> v.reduce[j] == TaskState::Done,
            decreases self.reduce_tasks.len() - i,
        {
            if self.reduce_tasks[i].state == TaskState::Idle {
                proof {
                    assert(is_first_idle(v.reduce, i as int));
                    lemma_first_idle_unique(v.reduce, i as int);
                }
                let resp = TaskResponse {
                    task_name: self.reduce_tasks[i].task_id.clone(),
                    kind: TaskKind::ReduceTask,
                    tasknum: i as u64,
                    map_task_count: self.job.map_task_count,
                    reduce_task_count: self.job.reduce_task_count,
                };
                return Ok(resp);
            }
            if self.reduce_tasks[i].state != TaskState::Done {
                reduce_phase_done = false;
            }
            assert(v.reduce[i as int] == self.reduce_tasks@[i as int].state);
            i = i + 1;
        }
        if reduce_phase_done {
            Err(AssignError::JobComplete)
        } else {
            Err(AssignError::NoTaskAvailable)
        }
    }

    /// Answers a worker's request for a task by the assignment policy, and
    /// marks the task handed out as assigned before the reply goes back, so
    /// that no later request gets it again. `worker_id` names the caller and
    /// does not affect the answer.
    pub fn send_task(&mut self, worker_id: u32) -> (r: Result<TaskResponse, AssignError>)
        requires
            old(self).wf(),
        ensures
            final(self).wf(),
            final(self).spec_job_name() == old(self).spec_job_name(),
            final(self)@ == after_request(old(self)@),
            decision_of(r) == decide(old(self)@),
            r matches Ok(resp) ==> {
                &&& resp.task_name@ == task_name_of(old(self)@, resp.kind, resp.tasknum as int)
                &&& resp.map_task_count == old(self)@.map.len()
                &&& resp.reduce_task_count == old(self)@.reduce.len()
            },
    {
        let ghost v = self@;
        let r = self.peek_task();
        proof {
            lemma_assigned_task_was_idle(v);
        }
        match r {
            Ok(resp) => {
                let count = match resp.kind {
                    TaskKind::MapTask => self.map_tasks.len(),
                    TaskKind::ReduceTask => self.reduce_tasks.len(),
                };
                assert(resp.tasknum < count);
                let i = resp.tasknum as usize;
                match resp.kind {
                    TaskKind::MapTask => {
                        self.map_tasks[i].state = TaskState::Assigned;
                        assert(self@.map =~= v.map.update(i as int, TaskState::Assigned));
                        assert(self@.map_ids =~= v.map_ids);
                        assert(self@.reduce =~= v.reduce);
                        assert(self@ == with_state(v, TaskKind::MapTask, i as int, TaskState::Assigned));
                    },
                    TaskKind::ReduceTask => {
                        self.reduce_tasks[i].state = TaskState::Assigned;
                        assert(self@.reduce =~= v.reduce.update(i as int, TaskState::Assigned));
                        assert(self@.map_ids =~= v.map_ids);
                        assert(self@.map =~= v.map);
                        assert(self@ == with_state(v, TaskKind::ReduceTask, i as int, TaskState::Assigned));
                    },
                }
                Ok(resp)
            },
            Err(e) => Err(e),
        }
    }
}

impl TaskService {
    /// Sets up a job: the job record, one idle map task per input split, in
    /// the order of the list, and one idle reduce task per partition. Fails
    /// when the number of splits is not `map_task_count`, when there is no
    /// reduce task, or when a split is listed twice.
    pub fn init(
        job_name: &str,
        map_task_count: u64,
        inputs: &Vec<String>,
        reduce_task_count: u64,
    ) -> (r: Result<TaskService, JobError>)
        ensures
            r matches Err(e) ==> e == (if inputs@.len() != map_task_count {
                JobError::SplitCountMismatch
            } else if reduce_task_count == 0 {
                JobError::NoReduceTasks
            } else {
                JobError::DuplicateSplit
            }),
            r is Ok <==> inputs@.len() == map_task_count && reduce_task_count > 0 && distinct_ids(
                inputs@.map_values(|s: String| s@),
            ),
            r matches Ok(t) ==> {
                &&& t.wf()
                &&& t.spec_job_name() == job_name@
                &&& t@.map_ids == inputs@.map_values(|s: String| s@)
                &&& t@.map == Seq::new(map_task_count as nat, |i: int| TaskState::Idle)
                &&& t@.reduce == Seq::new(reduce_task_count as nat, |i: int| TaskState::Idle)
            },
    {
        if inputs.len() as u64 != map_task_count {
            return Err(JobError::SplitCountMismatch);
        }
        if reduce_task_count == 0 {
            return Err(JobError::NoReduceTasks);
        }
        if !all_distinct(inputs) {
            return Err(JobError::DuplicateSplit);
        }
        let mut map_tasks: Vec<TaskRecord> = Vec::new();
        let mut i: usize = 0;
        while i < inputs.len()
            invariant
                0 <= i <= inputs@.len(),
                map_tasks@.len() == i,
                forall|j: int|
                    0 <= j < i ==> (#[trigger] map_tasks@[j]).kind == TaskKind::MapTask
                        && map_tasks@[j].index == j && map_tasks@[j].state == TaskState::Idle
                        && map_tasks@[j].task_id@ == inputs@[j]@,
            decreases inputs.len() - i,
        {
            map_tasks.push(
                TaskRecord {
                    task_id: inputs[i].clone(),
                    kind: TaskKind::MapTask,
                    state: TaskState::Idle,
                    index: i as u64,
                },
            );
            i = i + 1;
        }
        let mut reduce_tasks: Vec<TaskRecord> = Vec::new();
        let mut p: u64 = 0;
        while p < reduce_task_count
            invariant
                0 <= p <= reduce_task_count,
                reduce_tasks@.len() == p,
                forall|j: int|
                    0 <= j < p ==> (#[trigger] reduce_tasks@[j]).kind == TaskKind::ReduceTask
                        && reduce_tasks@[j].index == j && reduce_tasks@[j].state == TaskState::Idle
                        && reduce_tasks@[j].task_id@ == decimal(j as nat),
            decreases reduce_task_count - p,
        {
            reduce_tasks.push(
                TaskRecord {
                    task_id: to_decimal(p),
                    kind: TaskKind::ReduceTask,
                    state: TaskState::Idle,
                    index: p,
                },
            );
            p = p + 1;
        }
        let job = JobRecord {
            job_name: String::from_str(job_name),
            map_task_count,
            reduce_task_count,
        };
        let t = TaskService { job, map_tasks, reduce_tasks };
        assert(t@.map_ids =~= inputs@.map_values(|s: String| s@));
        assert(t@.map =~= Seq::new(map_task_count as nat, |i: int| TaskState::Idle));
        assert(t@.reduce =~= Seq::new(reduce_task_count as nat, |i: int| TaskState::Idle));
        Ok(t)
    }

    /// Records that a worker finished task `index` of `kind`. The report is
    /// taken, and the task becomes done, only when the task exists and is
    /// assigned; otherwise nothing changes.
    pub fn report_done(&mut self, kind: TaskKind, index: u64) -> (accepted: bool)
        requires
            old(self).wf(),
        ensures
            final(self).wf(),
            final(self).spec_job_name() == old(self).spec_job_name(),
            final(self)@ == after_finish(old(self)@, kind, index as int),
            accepted == (in_range(old(self)@, kind, index as int) && states(old(self)@, kind)[index as int]
                == TaskState::Assigned),
    {
        let ghost v = self@;
        match kind {
            TaskKind::MapTask => {
                if index < self.map_tasks.len() as u64 && self.map_tasks[index as usize].state
                    == TaskState::Assigned {
                    self.map_tasks[index as usize].state = TaskState::Done;
                    assert(self@.map =~= v.map.update(index as int, TaskState::Done));
                    assert(self@.map_ids =~= v.map_ids);
                    assert(self@.reduce =~= v.reduce);
                    true
                } else {
                    false
                }
            },
            TaskKind::ReduceTask => {
                if index < self.reduce_tasks.len() as u64 && self.reduce_tasks[index as usize].state
                    == TaskState::Assigned {
                    self.reduce_tasks[index as usize].state = TaskState::Done;
                    assert(self@.reduce =~= v.reduce.update(index as int, TaskState::Done));
                    assert(self@.map_ids =~= v.map_ids);
                    assert(self@.map =~= v.map);
                    true
                } else {
                    false
                }
            },
        }
    }

    /// A copy of task `index` of `kind`, if there is such a task.
    pub fn get_task(&self, kind: TaskKind, index: u64) -> (r: Option<TaskRecord>)
        requires
            self.wf(),
        ensures
            r is Some <==> in_range(self@, kind, index as int),
            r matches Some(t) ==> {
                &&& t.kind == kind
                &&& t.index == index
                &&& t.state == states(self@, kind)[index as int]
                &&& t.task_id@ == task_name_of(self@, kind, index as int)
            },
    {
        let tasks = match kind {
            TaskKind::MapTask => &self.map_tasks,
            TaskKind::ReduceTask => &self.reduce_tasks,
        };
        if index < tasks.len() as u64 {
            let t = &tasks[index as usize];
            Some(TaskRecord { task_id: t.task_id.clone(), kind: t.kind, state: t.state, index: t.index })
        } else {
            None
        }
    }

    /// The number of map tasks of the job.
    pub fn map_task_count(&self) -> (n: u64)
        requires
            self.wf(),
        ensures
            n == self@.map.len(),
    {
        self.job.map_task_count
    }

    /// The number of reduce tasks of the job.
    pub fn reduce_task_count(&self) -> (n: u64)
        requires
            self.wf(),
        ensures
            n == self@.reduce.len(),
    {
        self.job.reduce_task_count
    }

    /// The name of the job.
    pub fn job_name(&self) -> (r: &str)
        ensures
            r@ == self.spec_job_name(),
    {
        self.job.job_name.as_str()
    }
}

/// A task handed out by the policy exists and is idle.
pub proof fn lemma_assigned_task_was_idle(v: TableView)
    ensures
        decide(v) matches Decision::Assign(kind, i) ==> in_range(v, kind, i) && states(v, kind)[i]
            == TaskState::Idle,
{
    if has_idle(v.map) {
        lemma_first_idle(v.map);
    }
    if has_idle(v.reduce) {
        lemma_first_idle(v.reduce);
    }
}

/// No event puts a task back to idle: a task that is assigned or done stays
/// so, and the number of tasks of each kind does not change.
pub proof fn lemma_step_keeps_busy(v: TableView, e: Event, kind: TaskKind, i: int)
    requires
        in_range(v, kind, i),
        states(v, kind)[i] != TaskState::Idle,
    ensures
        states(step(v, e), TaskKind::MapTask).len() == v.map.len(),
        states(step(v, e), TaskKind::ReduceTask).len() == v.reduce.len(),
        in_range(step(v, e), kind, i),
        states(step(v, e), kind)[i] != TaskState::Idle,
{
    lemma_assigned_task_was_idle(v);
}

/// The table after the first `c + 1` events is the table after the first `c`
/// with event `c` applied.
pub proof fn lemma_run_take(v: TableView, events: Seq<Event>, c: int)
    requires
        0 <= c < events.len(),
    ensures
        run(v, events.take(c + 1)) == step(run(v, events.take(c)), events[c]),
{
    assert(events.take(c + 1).drop_last() =~= events.take(c));
}

proof fn lemma_stays_busy(v: TableView, events: Seq<Event>, kind: TaskKind, i: int, a: int, b: int)
    requires
        0 <= a <= b <= events.len(),
        in_range(run(v, events.take(a)), kind, i),
        states(run(v, events.take(a)), kind)[i] != TaskState::Idle,
    ensures
        in_range(run(v, events.take(b)), kind, i),
        states(run(v, events.take(b)), kind)[i] != TaskState::Idle,
    decreases b - a,
{
    if a < b {
        lemma_run_take(v, events, a);
        lemma_step_keeps_busy(run(v, events.take(a)), events[a], kind, i);
        lemma_stays_busy(v, events, kind, i, a + 1, b);
    }
}

/// No double assignment: whatever requests and completion reports follow, a
/// task handed out by one request is never handed out by a later one.
pub proof fn lemma_no_double_assignment(v: TableView, events: Seq<Event>, a: int, b: int)
    requires
        0 <= a < b < events.len(),
        events[a] == Event::Request,
        events[b] == Event::Request,
        decide(run(v, events.take(a))) is Assign,
    ensures
        decide(run(v, events.take(b))) != decide(run(v, events.take(a))),
{
    let va = run(v, events.take(a));
    let (kind, i) = match decide(va) {
        Decision::Assign(kind, i) => (kind, i),
        _ => (TaskKind::MapTask, 0),
    };
    lemma_assigned_task_was_idle(va);
    lemma_run_take(v, events, a);
    let va1 = run(v, events.take(a + 1));
    assert(va1 == with_state(va, kind, i, TaskState::Assigned));
    assert(states(va1, kind)[i] == TaskState::Assigned);
    lemma_stays_busy(v, events, kind, i, a + 1, b);
    lemma_assigned_task_was_idle(run(v, events.take(b)));
}

/// Phase ordering: a reduce task is handed out only when every map task is
/// done.
pub proof fn lemma_phase_ordering(v: TableView)
    ensures
        decide(v) matches Decision::Assign(kind, i) && kind == TaskKind::ReduceTask ==> all_done(
            v.map,
        ),
{
}

/// Job completion: once every task is done, the table no longer changes and
/// every request, however many and whatever else is reported, is answered
/// that the job is complete.
pub proof fn lemma_job_complete_stable(v: TableView, events: Seq<Event>)
    requires
        all_done(v.map),
        all_done(v.reduce),
    ensures
        run(v, events) == v,
        forall|c: int| 0 <= c <= events.len() ==> decide(#[trigger] run(v, events.take(c))) == Decision::JobComplete,
    decreases events.len(),
{
    assert(!has_idle(v.map));
    assert(!has_idle(v.reduce));
    assert(decide(v) == Decision::JobComplete);
    if events.len() > 0 {
        lemma_job_complete_stable(v, events.drop_last());
        assert forall|c: int| 0 <= c <= events.len() implies decide(#[trigger] run(v, events.take(c)))
            == Decision::JobComplete by {
            if c < events.len() {
                assert(events.take(c) =~= events.drop_last().take(c));
            } else {
                assert(events.take(c) =~= events);
            }
        }
    } else {
        assert(events.take(0) =~= events);
    }
}

/// No event changes the map tasks' names or the number of tasks of a kind.
pub proof fn lemma_run_keeps_shape(v: TableView, events: Seq<Event>)
    ensures
        run(v, events).map_ids == v.map_ids,
        run(v, events).map.len() == v.map.len(),
        run(v, events).reduce.len() == v.reduce.len(),
    decreases events.len(),
{
    if events.len() > 0 {
        lemma_run_keeps_shape(v, events.drop_last());
        lemma_assigned_task_was_idle(run(v, events.drop_last()));
    }
}

impl TaskService {
    /// A well-formed table names each map task once.
    pub proof fn lemma_wf_view(&self)
        requires
            self.wf(),
        ensures
            self@.map_ids.len() == self@.map.len(),
            distinct_ids(self@.map_ids),
    {
    }
}

/// No double assignment, by name: whatever requests and completion reports
/// follow, a later request never hands out a task of the same kind and name
/// as an earlier one, where the map tasks' names are distinct (as
/// `TaskService::init` makes them).
pub proof fn lemma_no_double_assignment_by_name(v: TableView, events: Seq<Event>, a: int, b: int)
    requires
        v.map_ids.len() == v.map.len(),
        distinct_ids(v.map_ids),
        0 <= a < b < events.len(),
        events[a] == Event::Request,
        events[b] == Event::Request,
        decide(run(v, events.take(a))) is Assign,
        decide(run(v, events.take(b))) is Assign,
    ensures
        ({
            let va = run(v, events.take(a));
            let vb = run(v, events.take(b));
            match (decide(va), decide(vb)) {
                (Decision::Assign(k1, i1), Decision::Assign(k2, i2)) => !(k1 == k2
                    && task_name_of(va, k1, i1) == task_name_of(vb, k2, i2)),
                _ => true,
            }
        }),
{
    let va = run(v, events.take(a));
    let vb = run(v, events.take(b));
    lemma_no_double_assignment(v, events, a, b);
    lemma_assigned_task_was_idle(va);
    lemma_assigned_task_was_idle(vb);
    lemma_run_keeps_shape(v, events.take(a));
    lemma_run_keeps_shape(v, events.take(b));
    match (decide(va), decide(vb)) {
        (Decision::Assign(k1, i1), Decision::Assign(k2, i2)) => {
            if k1 == k2 && task_name_of(va, k1, i1) == task_name_of(vb, k2, i2) {
                match k1 {
                    TaskKind::MapTask => {
                        if i1 < i2 {
                            assert(v.map_ids[i1] != v.map_ids[i2]);
                        } else if i2 < i1 {
                            assert(v.map_ids[i2] != v.map_ids[i1]);
                        }
                    },
                    TaskKind::ReduceTask => {
                        lemma_decimal_injective(i1 as nat, i2 as nat);
                    },
                }
            }
        },
        _ => {},
    }
}

/// The coordinator process, known by its name.
#[derive(Debug)]
pub struct Master<'a> {
    name: &'a str,
}

impl<'a> View for Master<'a> {
    type V = Seq<char>;

    closed spec fn view(&self) -> Seq<char> {
        self.name@
    }
}

impl<'a> Master<'a> {
    pub fn new(name: &'a str) -> (m: Master<'a>)
        ensures
            m@ == name@,
    {
        Master { name }
    }

    pub fn get_name(&self) -> (r: &'a str)
        ensures
            r@ == self@,
    {
        self.name
    }
}

} // verus!
