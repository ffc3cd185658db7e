//! The controller's scheduling state machine.
//!
//! The coordinator owns the work queue, the registry of in-flight
//! tasks, the per-partition manifest and the phase flag. Workers drive
//! it through two operations: `poll_task` hands out the oldest pending
//! task, and `complete_task` records a completion, merges the reported
//! manifest entries and, at the drain boundary, advances the phase —
//! map tasks first, then reduce tasks built from the manifest, then
//! shutdown. A retry timer that fires calls `retry_task`, which
//! reassigns the work of a straggler under a fresh id.
//!
//! Every operation here is a single atomic step of the state machine;
//! a caller that serves concurrent workers serializes calls onto it.
use vstd::prelude::*;
use crate::manifest::Manifest;
use crate::queue::Queue;
use crate::registry::{Registry, contains_id, index_of_id, remove_id, unique_ids};
use crate::task::{MapPayload, Payload, PayloadView, ReducePayload, Task, TaskView, clone_strings, clone_task, task_views};

verus! {

/// Job configuration: the number of reduce partitions and the input
/// files, one map task per file.
pub struct Opt {
    pub n_reduce: u64,
    pub input_files: Vec<String>,
}

/// The phase of the job. It only ever moves forward: mapping, then
/// reducing, then done.
#[derive(Clone, Copy, PartialEq, Eq, Structural)]
pub enum Phase {
    Mapping,
    Reducing,
    Done,
}

/// The rank of a phase in the forward order.
pub open spec fn phase_rank(p: Phase) -> int {
    match p {
        Phase::Mapping => 0,
        Phase::Reducing => 1,
        Phase::Done => 2,
    }
}

/// What `poll_task` answers a worker: a task to run, or none together
/// with whether the worker should shut down.
pub struct PollTaskReply {
    pub task: Option<Task>,
    pub shutdown: bool,
}

/// The reduce tasks seeded from buckets `from..` of manifest `m`, one
/// per nonempty bucket in increasing partition order, with consecutive
/// ids starting at `base`.
pub open spec fn reduce_seed(m: Seq<Seq<Seq<char>>>, from: int, base: u64) -> Seq<TaskView>
    decreases m.len() - from,
{
    if from < 0 || from >= m.len() {
        Seq::empty()
    } else if m[from].len() > 0 {
        seq![
            TaskView {
                id: base,
                payload: PayloadView::ReduceTask { index: from as u64, files: m[from] },
            },
        ] + reduce_seed(m, from + 1, (base + 1) as u64)
    } else {
        reduce_seed(m, from + 1, base)
    }
}

/// The manifest after appending the reported `(partition, file)` pairs
/// in order.
pub open spec fn merge_reported(m: Seq<Seq<Seq<char>>>, fs: Seq<(u64, Seq<char>)>) -> Seq<
    Seq<Seq<char>>,
>
    decreases fs.len(),
{
    if fs.len() == 0 {
        m
    } else {
        merge_reported(m.update(fs[0].0 as int, m[fs[0].0 as int].push(fs[0].1)), fs.drop_first())
    }
}

/// The views of reported `(partition, file)` pairs.
pub open spec fn reported_views(s: Seq<(u64, String)>) -> Seq<(u64, Seq<char>)> {
    s.map_values(|p: (u64, String)| (p.0, p.1@))
}

/// The scheduling state machine.
pub struct Coordinator {
    n_reduce: u64,
    phase: Phase,
    next_id: u64,
    pending_tasks: Queue<Task>,
    running_tasks: Registry,
    reduce_files: Manifest,
}

impl Coordinator {
    /// The current phase.
    pub closed spec fn phase_spec(&self) -> Phase {
        self.phase
    }

    /// The number of reduce partitions.
    pub closed spec fn n_reduce_spec(&self) -> u64 {
        self.n_reduce
    }

    /// The next fresh task id.
    pub closed spec fn next_id_spec(&self) -> u64 {
        self.next_id
    }

    /// The pending tasks, oldest first.
    pub closed spec fn pending(&self) -> Seq<TaskView> {
        task_views(self.pending_tasks@)
    }

    /// The in-flight tasks, in hand-out order.
    pub closed spec fn running(&self) -> Seq<TaskView> {
        self.running_tasks@
    }

    /// The manifest: per partition, the reported intermediate files.
    pub closed spec fn manifest(&self) -> Seq<Seq<Seq<char>>> {
        self.reduce_files@
    }

    /// All tasks the coordinator still owes work for: pending, then
    /// in flight.
    pub open spec fn live(&self) -> Seq<TaskView> {
        self.pending() + self.running()
    }

    /// Internal consistency of the state machine:
    /// - ids are unique among live tasks and all below the fresh one;
    /// - a live task's kind matches the phase: map tasks during the map
    ///   phase, reduce tasks after it, none once done;
    /// - the manifest has one bucket per reduce partition;
    /// - pending and in-flight tasks together never exceed the queue's
    ///   capacity, and the reduce seeding fits in it too.
    pub closed spec fn inv(&self) -> bool {
        &&& self.pending_tasks.wf()
        &&& self.running_tasks.wf()
        &&& unique_ids(self.live())
        &&& forall|i: int| 0 <= i < self.live().len() ==> self.live()[i].id < self.next_id
        &&& (forall|i: int|
            0 <= i < self.live().len() ==> (self.live()[i].payload is MapTask <==> self.phase
                is Mapping))
        &&& (self.phase is Done ==> self.live().len() == 0)
        &&& self.n_reduce >= 1
        &&& self.reduce_files@.len() == self.n_reduce
        &&& self.n_reduce <= self.pending_tasks.spec_capacity()
        &&& self.pending().len() + self.running().len() <= self.pending_tasks.spec_capacity()
    }

    /// The number of reduce partitions of this job.
    pub fn n_reduce(&self) -> (r: u64)
        ensures
            r == self.n_reduce_spec(),
    {
        self.n_reduce
    }

    /// The next task id the coordinator would issue.
    pub fn next_id(&self) -> (r: u64)
        ensures
            r == self.next_id_spec(),
    {
        self.next_id
    }

    /// Builds the coordinator for a job: sizes the queue, and seeds it
    /// with one map task per input file, ids `0, 1, ...` in file order.
    pub fn new(opt: Opt) -> (c: Self)
        requires
            opt.input_files@.len() >= 1,
            opt.n_reduce >= 1,
            opt.input_files@.len() * opt.n_reduce + 5 <= usize::MAX,
        ensures
            c.inv(),
            c.phase_spec() == Phase::Mapping,
            c.n_reduce_spec() == opt.n_reduce,
            c.running() =~= Seq::<TaskView>::empty(),
            c.manifest().len() == opt.n_reduce,
            forall|p: int| 0 <= p < opt.n_reduce ==> c.manifest()[p].len() == 0,
            c.pending().len() == opt.input_files@.len(),
            forall|i: int|
                0 <= i < opt.input_files@.len() ==> c.pending()[i] == (TaskView {
                    id: i as u64,
                    payload: PayloadView::MapTask {
                        index: i as u64,
                        files: seq![opt.input_files.deep_view()[i]],
                        n_reduce: opt.n_reduce,
                    },
                }),
            c.next_id_spec() == opt.input_files@.len(),
    {
        let n_files = opt.input_files.len();
        proof {
            assert(opt.n_reduce <= opt.input_files@.len() * opt.n_reduce) by (nonlinear_arith)
                requires
                    opt.input_files@.len() >= 1,
                    opt.n_reduce >= 1,
            ;
            assert(n_files <= n_files * opt.n_reduce) by (nonlinear_arith)
                requires
                    opt.n_reduce >= 1,
                    n_files >= 0,
            ;
        }
        let capacity: usize = n_files * (opt.n_reduce as usize) + 5;
        let mut pending_tasks: Queue<Task> = Queue::new(capacity);
        let mut i: usize = 0;
        while i < n_files
            invariant
                i <= n_files,
                n_files == opt.input_files@.len(),
                n_files <= capacity,
                pending_tasks.wf(),
                pending_tasks.spec_capacity() == capacity,
                pending_tasks@.len() == i,
                forall|j: int|
                    0 <= j < i ==> task_views(pending_tasks@)[j] == (TaskView {
                        id: j as u64,
                        payload: PayloadView::MapTask {
                            index: j as u64,
                            files: seq![opt.input_files.deep_view()[j]],
                            n_reduce: opt.n_reduce,
                        },
                    }),
            decreases n_files - i,
        {
            let mut files: Vec<String> = Vec::new();
            files.push(opt.input_files[i].clone());
            let task = Task {
                id: i as u64,
                payload: Payload::MapTask(MapPayload {
                    index: i as u64,
                    files,
                    n_reduce: opt.n_reduce,
                }),
            };
            let ghost before = pending_tasks@;
            let ok = pending_tasks.push(task);
            proof {
                assert(ok);
                assert forall|j: int|
                    0 <= j < i + 1 implies task_views(pending_tasks@)[j] == (TaskView {
                        id: j as u64,
                        payload: PayloadView::MapTask {
                            index: j as u64,
                            files: seq![opt.input_files.deep_view()[j]],
                            n_reduce: opt.n_reduce,
                        },
                    }) by {
                    if j < i {
                        assert(task_views(pending_tasks@)[j] == task_views(before)[j]);
                    } else {
                        assert(task_views(pending_tasks@)[j] == task@);
                        assert(task@.payload =~= PayloadView::MapTask {
                            index: j as u64,
                            files: seq![opt.input_files.deep_view()[j]],
                            n_reduce: opt.n_reduce,
                        });
                    }
                }
            }
            i += 1;
        }
        let c = Coordinator {
            n_reduce: opt.n_reduce,
            phase: Phase::Mapping,
            next_id: n_files as u64,
            pending_tasks,
            running_tasks: Registry::new(),
            reduce_files: Manifest::new(opt.n_reduce as usize),
        };
        proof {
            assert(c.live() =~= task_views(c.pending_tasks@));
        }
        c
    }

    /// Hands the oldest pending task to a worker and records it as in
    /// flight (the caller arms its retry timer); with nothing pending,
    /// answers `shutdown` exactly when the map phase is over and no
    /// task is in flight any more. A handed-out task's kind always
    /// matches the phase.
    pub fn poll_task(&mut self) -> (r: PollTaskReply)
        requires
            old(self).inv(),
        ensures
            final(self).inv(),
            final(self).phase_spec() == old(self).phase_spec(),
            final(self).n_reduce_spec() == old(self).n_reduce_spec(),
            final(self).next_id_spec() == old(self).next_id_spec(),
            final(self).manifest() =~= old(self).manifest(),
            old(self).pending().len() > 0 ==> {
                &&& r.task matches Some(t) && t@ == old(self).pending()[0]
                &&& !r.shutdown
                &&& final(self).pending() =~= old(self).pending().drop_first()
                &&& final(self).running() =~= old(self).running().push(old(self).pending()[0])
            },
            old(self).pending().len() == 0 ==> {
                &&& r.task is None
                &&& final(self).pending() =~= old(self).pending()
                &&& final(self).running() =~= old(self).running()
                &&& r.shutdown == (old(self).phase_spec() != Phase::Mapping && old(
                    self,
                ).running().len() == 0)
            },
            r.task matches Some(t) ==> ((t@.payload is MapTask) <==> old(self).phase_spec()
                == Phase::Mapping),
    {
        let ghost l = old(self).live();
        match self.pending_tasks.pop() {
            Some(task) => {
                proof {
                    assert(old(self).pending().len() > 0);
                    assert(task@ == old(self).pending()[0]);
                    assert(task@ == l[0]);
                    assert(!contains_id(self.running_tasks@, task.id)) by {
                        if contains_id(old(self).running(), task.id) {
                            let w = index_of_id(old(self).running(), task.id);
                            assert(old(self).running()[w].id == task.id);
                            assert(l[old(self).pending().len() + w].id == task.id);
                            assert(false);
                        }
                    }
                }
                let copy = clone_task(&task);
                self.running_tasks.insert(copy);
                proof {
                    assert(self.pending() =~= old(self).pending().drop_first());
                    assert(self.live() =~= l.drop_first().push(l[0]));
                    assert forall|i: int, j: int|
                        0 <= i < j < self.live().len() implies self.live()[i].id
                        != self.live()[j].id by {
                        if j < l.len() - 1 {
                            assert(l[i + 1].id != l[j + 1].id);
                        } else {
                            assert(self.live()[j] == l[0]);
                            assert(l[0].id != l[i + 1].id);
                        }
                    }
                }
                PollTaskReply { task: Some(task), shutdown: false }
            },
            None => {
                let shutdown = self.phase != Phase::Mapping && self.running_tasks.is_empty();
                proof {
                    assert(self.live() =~= l);
                }
                PollTaskReply { task: None, shutdown }
            },
        }
    }

    /// Seeds the queue with one reduce task per nonempty manifest
    /// bucket, in increasing partition order, under consecutive fresh
    /// ids. Runs once, at the map → reduce transition, on a fully
    /// drained state.
    fn seed_reduce(&mut self)
        requires
            old(self).pending_tasks.wf(),
            old(self).running_tasks.wf(),
            old(self).pending().len() == 0,
            old(self).running().len() == 0,
            old(self).n_reduce_spec() >= 1,
            old(self).manifest().len() == old(self).n_reduce_spec(),
            old(self).n_reduce_spec() <= old(self).pending_tasks.spec_capacity(),
            old(self).next_id_spec() + old(self).n_reduce_spec() <= u64::MAX,
        ensures
            final(self).pending_tasks.wf(),
            final(self).pending_tasks.spec_capacity() == old(self).pending_tasks.spec_capacity(),
            final(self).phase_spec() == old(self).phase_spec(),
            final(self).n_reduce_spec() == old(self).n_reduce_spec(),
            final(self).manifest() =~= old(self).manifest(),
            final(self).running() =~= old(self).running(),
            final(self).running_tasks == old(self).running_tasks,
            final(self).pending() =~= reduce_seed(old(self).manifest(), 0, old(self).next_id_spec()),
            final(self).next_id_spec() == old(self).next_id_spec() + final(self).pending().len(),
            final(self).pending().len() <= old(self).n_reduce_spec(),
    {
        let ghost m = self.reduce_files@;
        let ghost base = self.next_id;
        let n = self.n_reduce;
        let mut p: u64 = 0;
        while p < n
            invariant
                p <= n,
                n == self.n_reduce,
                m == self.reduce_files@,
                m.len() == n,
                self.phase == old(self).phase,
                self.running_tasks == old(self).running_tasks,
                self.pending_tasks.wf(),
                self.pending_tasks.spec_capacity() == old(self).pending_tasks.spec_capacity(),
                n <= self.pending_tasks.spec_capacity(),
                self.pending().len() <= p,
                self.next_id == base + self.pending().len(),
                base + n <= u64::MAX,
                self.pending() + reduce_seed(m, p as int, self.next_id) =~= reduce_seed(m, 0, base),
            decreases n - p,
        {
            if !self.reduce_files.is_bucket_empty(p as usize) {
                let files = clone_strings(self.reduce_files.bucket(p as usize));
                let task = Task {
                    id: self.next_id,
                    payload: Payload::ReduceTask(ReducePayload { index: p, files }),
                };
                proof {
                    assert(task@ =~= TaskView {
                        id: self.next_id,
                        payload: PayloadView::ReduceTask { index: p, files: m[p as int] },
                    });
                }
                let ghost before = self.pending();
                let ghost id_before = self.next_id;
                let ok = self.pending_tasks.push(task);
                proof {
                    assert(ok);
                    assert(reduce_seed(m, p as int, id_before) =~= seq![task@] + reduce_seed(
                        m,
                        p as int + 1,
                        (id_before + 1) as u64,
                    ));
                    assert(self.pending() + reduce_seed(m, p as int + 1, (id_before + 1) as u64)
                        =~= before + reduce_seed(m, p as int, id_before));
                }
                self.next_id = self.next_id + 1;
            } else {
                proof {
                    assert(reduce_seed(m, p as int, self.next_id) == reduce_seed(
                        m,
                        p as int + 1,
                        self.next_id,
                    ));
                }
            }
            p += 1;
        }
        proof {
            assert(reduce_seed(m, n as int, self.next_id) =~= Seq::<TaskView>::empty());
            assert(self.pending() =~= reduce_seed(m, 0, base));
        }
    }

    /// Records a completion reported by a worker. Eviction from the
    /// registry deduplicates late or repeated reports: a task already
    /// completed or already reclaimed triggers no state transition, its
    /// manifest contribution is still recorded. When the report drains
    /// the system — nothing pending, nothing in flight — the phase
    /// advances: the map phase ends by seeding the reduce tasks from
    /// the manifest; the reduce phase ends the job. The result is true
    /// exactly when this call made the reduce → done transition, so
    /// the caller fires the shutdown signal exactly once.
    pub fn complete_task(&mut self, task: &Task, reduce_files: Vec<(u64, String)>) -> (done_now:
        bool)
        requires
            old(self).inv(),
            forall|i: int|
                0 <= i < reduce_files@.len() ==> reduce_files@[i].0 < old(self).n_reduce_spec(),
            old(self).next_id_spec() + old(self).n_reduce_spec() <= u64::MAX,
        ensures
            final(self).inv(),
            final(self).n_reduce_spec() == old(self).n_reduce_spec(),
            phase_rank(old(self).phase_spec()) <= phase_rank(final(self).phase_spec()),
            final(self).running() =~= remove_id(old(self).running(), task@.id),
            final(self).manifest() =~= merge_reported(
                old(self).manifest(),
                reported_views(reduce_files@),
            ),
            ({
                let drained = old(self).pending().len() == 0 && remove_id(
                    old(self).running(),
                    task@.id,
                ).len() == 0;
                &&& done_now == (drained && old(self).phase_spec() == Phase::Reducing)
                &&& (!drained ==> {
                    &&& final(self).phase_spec() == old(self).phase_spec()
                    &&& final(self).pending() =~= old(self).pending()
                    &&& final(self).next_id_spec() == old(self).next_id_spec()
                })
                &&& ((drained && old(self).phase_spec() == Phase::Mapping) ==> {
                    &&& final(self).phase_spec() == Phase::Reducing
                    &&& final(self).pending() =~= reduce_seed(
                        merge_reported(old(self).manifest(), reported_views(reduce_files@)),
                        0,
                        old(self).next_id_spec(),
                    )
                    &&& final(self).next_id_spec() == old(self).next_id_spec()
                        + final(self).pending().len()
                })
                &&& ((drained && old(self).phase_spec() != Phase::Mapping) ==> {
                    &&& final(self).phase_spec() == Phase::Done
                    &&& final(self).pending() =~= Seq::<TaskView>::empty()
                    &&& final(self).next_id_spec() == old(self).next_id_spec()
                })
            }),
    {
        let _removed = self.running_tasks.remove(task.id);
        proof {
            lemma_unique_ids_sub(old(self).pending(), old(self).running(), task@.id);
            assert(self.live() =~= old(self).pending() + remove_id(old(self).running(), task@.id));
        }
        let ghost reg_after = self.running_tasks;
        let mut i: usize = 0;
        let ghost reported = reported_views(reduce_files@);
        let ghost merged = merge_reported(old(self).manifest(), reported);
        proof {
            assert(reported.skip(0) =~= reported);
            assert(reported.skip(0) == reported);
        }
        while i < reduce_files.len()
            invariant
                i <= reduce_files@.len(),
                forall|k: int|
                    0 <= k < reduce_files@.len() ==> reduce_files@[k].0 < self.n_reduce,
                reported == reported_views(reduce_files@),
                merged == merge_reported(old(self).manifest(), reported),
                self.reduce_files@.len() == self.n_reduce,
                self.n_reduce >= 1,
                merge_reported(self.reduce_files@, reported.skip(i as int)) == merged,
                self.pending_tasks == old(self).pending_tasks,
                self.running_tasks == reg_after,
                self.running_tasks.wf(),
                self.running() =~= remove_id(old(self).running(), task@.id),
                self.phase == old(self).phase,
                self.next_id == old(self).next_id,
                self.n_reduce == old(self).n_reduce,
            decreases reduce_files@.len() - i,
        {
            let partition = reduce_files[i].0;
            let file = reduce_files[i].1.clone();
            let ghost before = self.reduce_files@;
            let n_buckets = self.reduce_files.len();
            proof {
                assert(partition < self.n_reduce);
                assert(n_buckets == self.reduce_files@.len());
            }
            self.reduce_files.add(partition as usize, file);
            proof {
                assert(reported.skip(i as int)[0] == (reduce_files@[i as int].0,
                reduce_files@[i as int].1@));
                assert(reported.skip(i as int).drop_first() =~= reported.skip(i as int + 1));
                assert(self.reduce_files@ =~= before.update(
                    partition as int,
                    before[partition as int].push(file@),
                ));
                assert(merge_reported(self.reduce_files@, reported.skip(i as int + 1)) == merged);
            }
            i += 1;
        }
        proof {
            assert(reported.skip(reduce_files@.len() as int) =~= Seq::<(u64, Seq<char>)>::empty());
            assert(self.reduce_files@ =~= merged);
            assert(self.reduce_files@ == merged);
            lemma_inv_after_evict(
                old(self).pending(),
                old(self).running(),
                task@.id,
                old(self).next_id_spec(),
                old(self).phase_spec() is Mapping,
            );
            assert(self.live() =~= old(self).pending() + remove_id(old(self).running(), task@.id));
            assert(self.live() == old(self).pending() + remove_id(old(self).running(), task@.id));
        }
        if self.pending_tasks.is_empty() && self.running_tasks.is_empty() {
            match self.phase {
                Phase::Mapping => {
                    self.phase = Phase::Reducing;
                    self.seed_reduce();
                    proof {
                        let ghost base = old(self).next_id_spec();
                        let ghost seeded = reduce_seed(merged, 0, base);
                        lemma_reduce_seed_elems(merged, 0, base);
                        assert(self.running().len() == 0);
                        assert(self.pending() =~= seeded);
                        assert(self.pending() == seeded);
                        assert(self.live() =~= seeded);
                        assert(self.live() == seeded);
                        assert forall|i: int, j: int|
                            0 <= i < j < self.live().len() implies self.live()[i].id
                            != self.live()[j].id by {
                            assert(seeded[i].id == base + i);
                            assert(seeded[j].id == base + j);
                        }
                        assert forall|i: int|
                            0 <= i < self.live().len() implies ((#[trigger] self.live()[i]).id
                            < self.next_id && !(self.live()[i].payload is MapTask)) by {
                            assert(seeded[i].id == base + i);
                            assert(seeded[i].payload matches PayloadView::ReduceTask { .. });
                        }
                    }
                    false
                },
                Phase::Reducing => {
                    self.phase = Phase::Done;
                    proof {
                        assert(self.live().len() == 0);
                    }
                    true
                },
                Phase::Done => false,
            }
        } else {
            false
        }
    }

    /// The decision a fired retry timer takes: a task still registered
    /// when its grace period elapses is reclaimed from the registry and
    /// re-enqueued as a new task — a fresh id, the identical payload —
    /// exactly once per expiry; a task no longer registered (it
    /// completed, or an earlier expiry already reclaimed it) is left
    /// alone. The fresh id never collides with any live task's id.
    pub fn retry_task(&mut self, task_id: u64) -> (requeued: bool)
        requires
            old(self).inv(),
            old(self).next_id_spec() < u64::MAX,
        ensures
            final(self).inv(),
            final(self).phase_spec() == old(self).phase_spec(),
            final(self).n_reduce_spec() == old(self).n_reduce_spec(),
            final(self).manifest() =~= old(self).manifest(),
            requeued == contains_id(old(self).running(), task_id),
            !requeued ==> final(self).pending() =~= old(self).pending() && final(self).running()
                =~= old(self).running() && final(self).next_id_spec() == old(self).next_id_spec(),
            requeued ==> {
                &&& final(self).running() =~= remove_id(old(self).running(), task_id)
                &&& final(self).pending() =~= old(self).pending().push(
                    TaskView {
                        id: old(self).next_id_spec(),
                        payload: old(self).running()[index_of_id(old(self).running(), task_id)].payload,
                    },
                )
                &&& final(self).next_id_spec() == old(self).next_id_spec() + 1
                &&& !contains_id(old(self).live(), old(self).next_id_spec())
            },
    {
        match self.running_tasks.remove(task_id) {
            Some(t) => {
                proof {
                    lemma_unique_ids_sub(old(self).pending(), old(self).running(), task_id);
                    assert(!contains_id(old(self).live(), self.next_id)) by {
                        if contains_id(old(self).live(), self.next_id) {
                            let w = index_of_id(old(self).live(), self.next_id);
                            assert(old(self).live()[w].id < old(self).next_id_spec());
                        }
                    }
                }
                let fresh = Task { id: self.next_id, payload: t.payload };
                let ghost w = index_of_id(old(self).running(), task_id);
                let ok = self.pending_tasks.push(fresh);
                proof {
                    assert(ok);
                }
                self.next_id = self.next_id + 1;
                proof {
                    assert(fresh@.payload == old(self).running()[w].payload);
                    assert(self.pending() =~= old(self).pending().push(fresh@));
                    let ghost s = old(self).pending().push(fresh@) + remove_id(
                        old(self).running(),
                        task_id,
                    );
                    assert(self.live() =~= s);
                    assert(self.live() == s);
                    lemma_live_retry_inv(
                        old(self).pending(),
                        old(self).running(),
                        task_id,
                        fresh@,
                        old(self).phase_spec() is Mapping,
                    );
                }
                true
            },
            None => {
                proof {
                    assert(self.live() =~= old(self).live());
                }
                false
            },
        }
    }
}

/// Whether the run `ps` moves from phase `a` to phase `b` at step `i`.
pub open spec fn transition_at(ps: Seq<Phase>, i: int, a: Phase, b: Phase) -> bool {
    ps[i] == a && ps[i + 1] == b
}

/// Each phase transition fires at most once. Along any run of the
/// state machine — any sequence of observed phases, which by the
/// operations' contracts only ever moves forward in rank — a strict
/// step from `a` to `b` happens at no two places, no matter how many
/// completions race at the drain boundary: in particular the map →
/// reduce and the reduce → done transitions each occur at most once.
pub proof fn lemma_phase_transition_at_most_once(ps: Seq<Phase>, a: Phase, b: Phase)
    requires
        phase_rank(a) < phase_rank(b),
        forall|i: int, j: int|
            0 <= i <= j < ps.len() ==> phase_rank(ps[i]) <= phase_rank(ps[j]),
    ensures
        forall|i: int, j: int|
            0 <= i < j < ps.len() - 1 ==> !(transition_at(ps, i, a, b) && transition_at(
                ps,
                j,
                a,
                b,
            )),
{
    assert forall|i: int, j: int|
        0 <= i < j < ps.len() - 1 implies !(transition_at(ps, i, a, b) && transition_at(
        ps,
        j,
        a,
        b,
    )) by {
        if transition_at(ps, i, a, b) && transition_at(ps, j, a, b) {
            assert(phase_rank(ps[i + 1]) <= phase_rank(ps[j]));
        }
    }
}

/// Whether `x` occurs in `s`.
pub open spec fn elem_of(x: TaskView, s: Seq<TaskView>) -> bool {
    exists|j: int| 0 <= j < s.len() && s[j] == x
}

/// The reduce partitions named by a sequence of tasks.
pub open spec fn task_partitions(ts: Seq<TaskView>) -> Set<u64> {
    Set::new(
        |p: u64|
            exists|k: int|
                0 <= k < ts.len() && ((#[trigger] ts[k]).payload matches PayloadView::ReduceTask {
                    index,
                    ..
                } && index == p),
    )
}

/// The partitions with at least one recorded intermediate file.
pub open spec fn nonempty_partitions(m: Seq<Seq<Seq<char>>>) -> Set<u64> {
    Set::new(|p: u64| p < m.len() && m[p as int].len() > 0)
}

/// The reduce tasks created at the map → reduce transition address
/// exactly the partition indices present in the manifest at that
/// moment — no more and no fewer.
pub proof fn lemma_reduce_tasks_exactly_manifest_partitions(m: Seq<Seq<Seq<char>>>, base: u64)
    requires
        m.len() <= u64::MAX,
        base + m.len() <= u64::MAX,
    ensures
        task_partitions(reduce_seed(m, 0, base)) == nonempty_partitions(m),
{
    lemma_reduce_seed_elems(m, 0, base);
    let ts = reduce_seed(m, 0, base);
    assert forall|p: u64| task_partitions(ts).contains(p) implies nonempty_partitions(m).contains(
        p,
    ) by {
        let k = choose|k: int|
            0 <= k < ts.len() && ((#[trigger] ts[k]).payload matches PayloadView::ReduceTask {
                index,
                ..
            } && index == p);
        assert(0 <= k < ts.len());
    }
    assert forall|p: u64| nonempty_partitions(m).contains(p) implies task_partitions(ts).contains(
        p,
    ) by {
        let k = choose|k: int|
            0 <= k < ts.len() && ts[k].payload == (PayloadView::ReduceTask {
                index: p,
                files: m[p as int],
            });
        assert(ts[k].payload matches PayloadView::ReduceTask { index, .. } && index == p);
    }
    assert(task_partitions(ts) =~= nonempty_partitions(m));
}

/// Uniqueness and element facts survive evicting one id from the
/// in-flight part of the live sequence.
proof fn lemma_unique_ids_sub(p: Seq<TaskView>, r: Seq<TaskView>, id: u64)
    requires
        unique_ids(p + r),
    ensures
        unique_ids(p + remove_id(r, id)),
        forall|i: int|
            0 <= i < (p + remove_id(r, id)).len() ==> elem_of(
                #[trigger] (p + remove_id(r, id))[i],
                p + r,
            ),
{
    if contains_id(r, id) {
        let w = index_of_id(r, id);
        let s = p + r.remove(w);
        assert forall|i: int| 0 <= i < s.len() implies elem_of(#[trigger] s[i], p + r) by {
            if i < p.len() + w {
                assert(s[i] == (p + r)[i]);
            } else {
                assert(s[i] == (p + r)[i + 1]);
            }
        }
        assert forall|i: int, j: int| 0 <= i < j < s.len() implies s[i].id != s[j].id by {
            let i2: int = if i < p.len() + w { i } else { i + 1 };
            let j2: int = if j < p.len() + w { j } else { j + 1 };
            assert(s[i] == (p + r)[i2]);
            assert(s[j] == (p + r)[j2]);
            assert((p + r)[i2].id != (p + r)[j2].id);
        }
    }
}

/// The inductive facts of the coordinator's invariant — unique ids,
/// the id bound, the kind/phase agreement — survive evicting one id.
proof fn lemma_inv_after_evict(p: Seq<TaskView>, r: Seq<TaskView>, id: u64, bound: u64, m: bool)
    requires
        unique_ids(p + r),
        forall|i: int| 0 <= i < (p + r).len() ==> (p + r)[i].id < bound,
        forall|i: int| 0 <= i < (p + r).len() ==> ((p + r)[i].payload is MapTask <==> m),
    ensures
        unique_ids(p + remove_id(r, id)),
        forall|i: int|
            0 <= i < (p + remove_id(r, id)).len() ==> (#[trigger] (p + remove_id(r, id))[i]).id
                < bound,
        forall|i: int|
            0 <= i < (p + remove_id(r, id)).len() ==> ((#[trigger] (p + remove_id(
                r,
                id,
            ))[i]).payload is MapTask <==> m),
{
    lemma_unique_ids_sub(p, r, id);
    let s = p + remove_id(r, id);
    assert forall|i: int| 0 <= i < s.len() implies ((#[trigger] s[i]).id < bound && (s[i].payload
        is MapTask <==> m)) by {
        assert(elem_of(s[i], p + r));
        let j = choose|j: int| 0 <= j < (p + r).len() && (p + r)[j] == s[i];
        assert((p + r)[j].id < bound);
    }
}

/// After a retry re-enqueues a reclaimed task under a fresh id, ids
/// are still unique and every element is the fresh task or one of the
/// survivors.
proof fn lemma_live_retry_inv(p: Seq<TaskView>, r: Seq<TaskView>, id: u64, fresh: TaskView, m: bool)
    requires
        unique_ids(p + r),
        contains_id(r, id),
        forall|i: int| 0 <= i < (p + r).len() ==> (p + r)[i].id < fresh.id,
        forall|i: int| 0 <= i < (p + r).len() ==> ((p + r)[i].payload is MapTask <==> m),
        fresh.payload == r[index_of_id(r, id)].payload,
    ensures
        unique_ids(p.push(fresh) + remove_id(r, id)),
        forall|i: int|
            0 <= i < (p.push(fresh) + remove_id(r, id)).len() ==> (#[trigger] (p.push(fresh)
                + remove_id(r, id))[i]).id < fresh.id + 1,
        forall|i: int|
            0 <= i < (p.push(fresh) + remove_id(r, id)).len() ==> ((#[trigger] (p.push(fresh)
                + remove_id(r, id))[i]).payload is MapTask <==> m),
{
    let w = index_of_id(r, id);
    let s = p.push(fresh) + r.remove(w);
    assert(0 <= w < r.len() && r[w].id == id);
    assert((p + r)[p.len() + w] == r[w]);
    assert(fresh.payload is MapTask <==> m);
    assert forall|i: int| 0 <= i < s.len() implies ((#[trigger] s[i]).id < fresh.id + 1 && (s[i].payload
        is MapTask <==> m)) by {
        if i < p.len() {
            assert(s[i] == (p + r)[i]);
        } else if i == p.len() {
            assert(s[i] == fresh);
        } else if i < p.len() + 1 + w {
            assert(s[i] == (p + r)[i - 1]);
        } else {
            assert(s[i] == (p + r)[i]);
        }
    }
    assert forall|i: int, j: int| 0 <= i < j < s.len() implies s[i].id != s[j].id by {
        let i2: int = if i < p.len() { i } else if i < p.len() + 1 + w { i - 1 } else { i };
        let j2: int = if j < p.len() { j } else if j < p.len() + 1 + w { j - 1 } else { j };
        if i == p.len() {
            assert(s[j] == (p + r)[j2]);
            assert((p + r)[j2].id < fresh.id);
        } else if j == p.len() {
            assert(s[i] == (p + r)[i2]);
            assert((p + r)[i2].id < fresh.id);
        } else {
            assert(s[i] == (p + r)[i2]);
            assert(s[j] == (p + r)[j2]);
            assert((p + r)[i2].id != (p + r)[j2].id);
        }
    }
}

/// The reduce seeding's elements, exactly: consecutive fresh ids, one
/// reduce task per nonempty bucket — no other partition appears, and
/// every nonempty partition appears.
pub proof fn lemma_reduce_seed_elems(m: Seq<Seq<Seq<char>>>, from: int, base: u64)
    requires
        0 <= from,
        m.len() <= u64::MAX,
        base + m.len() - from <= u64::MAX,
    ensures
        reduce_seed(m, from, base).len() <= (if from <= m.len() {
            m.len() - from
        } else {
            0
        }),
        forall|k: int|
            0 <= k < reduce_seed(m, from, base).len() ==> {
                let t = #[trigger] reduce_seed(m, from, base)[k];
                &&& t.id == base + k
                &&& t.payload matches PayloadView::ReduceTask { index, files } && from <= index
                    < m.len() && m[index as int].len() > 0 && files == m[index as int]
            },
        forall|q: int|
            from <= q < m.len() && m[q].len() > 0 ==> exists|k: int|
                0 <= k < reduce_seed(m, from, base).len() && reduce_seed(m, from, base)[k].payload
                    == (PayloadView::ReduceTask { index: q as u64, files: m[q] }),
    decreases m.len() - from,
{
    if from < m.len() {
        if m[from].len() > 0 {
            lemma_reduce_seed_elems(m, from + 1, (base + 1) as u64);
            let rest = reduce_seed(m, from + 1, (base + 1) as u64);
            let whole = reduce_seed(m, from, base);
            assert forall|k: int|
                0 <= k < whole.len() implies {
                let t = #[trigger] whole[k];
                &&& t.id == base + k
                &&& t.payload matches PayloadView::ReduceTask { index, files } && from <= index
                    < m.len() && m[index as int].len() > 0 && files == m[index as int]
            } by {
                if k == 0 {
                    assert(whole[k].payload == (PayloadView::ReduceTask {
                        index: from as u64,
                        files: m[from],
                    }));
                } else {
                    assert(whole[k] == rest[k - 1]);
                    assert(rest[k - 1].id == base + 1 + (k - 1));
                }
            }
            assert forall|q: int| from <= q < m.len() && m[q].len() > 0 implies exists|k: int|
                0 <= k < whole.len() && whole[k].payload == (PayloadView::ReduceTask {
                    index: q as u64,
                    files: m[q],
                }) by {
                if q == from {
                    assert(whole[0].payload == (PayloadView::ReduceTask {
                        index: q as u64,
                        files: m[q],
                    }));
                } else {
                    let k = choose|k: int|
                        0 <= k < rest.len() && rest[k].payload == (PayloadView::ReduceTask {
                            index: q as u64,
                            files: m[q],
                        });
                    assert(whole[k + 1].payload == (PayloadView::ReduceTask {
                        index: q as u64,
                        files: m[q],
                    }));
                }
            }
        } else {
            lemma_reduce_seed_elems(m, from + 1, base);
        }
    }
}

} // verus!
