//! Tasks handed from the controller to workers.
//!
//! A task is immutable once created: the controller builds it, workers
//! only read it. Identity is the numeric id; a retried task is a new
//! task with a fresh id and the same payload.
use vstd::prelude::*;

verus! {

/// Payload of a map task: one input partition to map, and the number of
/// reduce partitions its output must be split into.
pub struct MapPayload {
    pub index: u64,
    pub files: Vec<String>,
    pub n_reduce: u64,
}

/// Payload of a reduce task: one reduce partition and the intermediate
/// files that feed it.
pub struct ReducePayload {
    pub index: u64,
    pub files: Vec<String>,
}

/// What a task asks a worker to do.
pub enum Payload {
    MapTask(MapPayload),
    ReduceTask(ReducePayload),
}

/// A schedulable unit of work.
pub struct Task {
    pub id: u64,
    pub payload: Payload,
}

/// Mathematical image of a payload: file names as sequences of
/// characters.
#[verifier::ext_equal]
pub enum PayloadView {
    MapTask { index: u64, files: Seq<Seq<char>>, n_reduce: u64 },
    ReduceTask { index: u64, files: Seq<Seq<char>> },
}

/// Mathematical image of a task.
#[verifier::ext_equal]
pub struct TaskView {
    pub id: u64,
    pub payload: PayloadView,
}

impl View for Payload {
    type V = PayloadView;

    open spec fn view(&self) -> PayloadView {
        match self {
            Payload::MapTask(m) => PayloadView::MapTask {
                index: m.index,
                files: m.files.deep_view(),
                n_reduce: m.n_reduce,
            },
            Payload::ReduceTask(r) => PayloadView::ReduceTask {
                index: r.index,
                files: r.files.deep_view(),
            },
        }
    }
}

impl View for Task {
    type V = TaskView;

    open spec fn view(&self) -> TaskView {
        TaskView { id: self.id, payload: self.payload@ }
    }
}

impl PayloadView {
    /// Whether this payload is map work (as opposed to reduce work).
    pub open spec fn is_map(self) -> bool {
        self is MapTask
    }
}

/// The views of a sequence of tasks.
pub open spec fn task_views(s: Seq<Task>) -> Seq<TaskView> {
    s.map_values(|t: Task| t@)
}

/// A copy of a vector of strings; the copy reads the same.
pub fn clone_strings(v: &Vec<String>) -> (r: Vec<String>)
    ensures
        r.deep_view() == v.deep_view(),
{
    let mut r: Vec<String> = Vec::new();
    let mut i: usize = 0;
    while i < v.len()
        invariant
            i <= v.len(),
            r.len() == i,
            forall|j: int| 0 <= j < i ==> r.deep_view()[j] == v.deep_view()[j],
        decreases v.len() - i,
    {
        r.push(v[i].clone());
        i += 1;
    }
    proof {
        assert(r.deep_view() =~~= v.deep_view());
    }
    r
}

/// A copy of a payload; the copy reads the same.
pub fn clone_payload(p: &Payload) -> (r: Payload)
    ensures
        r@ == p@,
{
    let r = match p {
        Payload::MapTask(m) => Payload::MapTask(MapPayload {
            index: m.index,
            files: clone_strings(&m.files),
            n_reduce: m.n_reduce,
        }),
        Payload::ReduceTask(t) => Payload::ReduceTask(ReducePayload {
            index: t.index,
            files: clone_strings(&t.files),
        }),
    };
    proof {
        assert(r@ =~~= p@);
    }
    r
}

/// A copy of a task; the copy reads the same.
pub fn clone_task(t: &Task) -> (r: Task)
    ensures
        r@ == t@,
{
    Task { id: t.id, payload: clone_payload(&t.payload) }
}

} // verus!
