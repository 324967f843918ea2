//! The decisions of the map-reduce coordinator: which worker gets a task,
//! when a task is retried and when the job fails, and which results are
//! folded into the accumulator. Sending, receiving and the fold itself are
//! done by the caller, which reports each outcome back.
use vstd::prelude::*;
use vstd::set_lib::set_int_range;

verus! {

/// Why a map-reduce job failed.
#[derive(Debug, Clone, PartialEq, Eq)]
pub enum Error {
    /// Filesystem or network failure.
    IO,
    /// A malformed frame or value.
    Serialization,
    /// Every worker failed a single task.
    NoAvailableWorker,
    /// The connection closed before a reply.
    NoResponse,
}

/// Work that a worker performs on one input.
pub trait Mapper<W, T> {
    fn map(self, worker: &W) -> T;
}

/// Folding one more value into an accumulator.
pub trait Reduce<T> {
    fn reduce(self, element: T) -> Self;
}

/// What the coordinator asks its caller to do next.
#[derive(Debug, Clone, PartialEq, Eq)]
pub enum Action {
    /// Send task `task` to worker `worker`.
    Send { task: usize, worker: usize },
    /// Stop: the job failed.
    Abort(Error),
}

/// Progress of one task.
pub struct TaskState {
    /// For each worker, whether it gave no result for the task.
    pub rejected_by: Vec<bool>,
    pub done: bool,
}

/// The coordinator's state over a fixed roster of workers and a fixed list
/// of tasks.
pub struct Coordinator {
    pub workers: usize,
    pub tasks: Vec<TaskState>,
    pub aborted: bool,
    /// The tasks whose results were folded, in the order they were folded.
    pub folded_log: Ghost<Seq<int>>,
}

/// Every worker of the roster has failed the task.
pub open spec fn all_failed(t: TaskState) -> bool {
    forall|w: int| 0 <= w < t.rejected_by@.len() ==> #[trigger] t.rejected_by@[w]
}

impl Coordinator {
    pub open spec fn wf(&self) -> bool {
        &&& forall|i: int|
            0 <= i < self.tasks@.len() ==> (#[trigger] self.tasks@[i]).rejected_by@.len() == self.workers
        &&& self.folded_log@.no_duplicates()
        &&& self.folded_log@.to_set() == self.folded()
    }

    /// Tasks whose results have been folded.
    pub open spec fn folded(&self) -> Set<int> {
        Set::new(|i: int| 0 <= i < self.tasks@.len() && self.tasks@[i].done)
    }

    fn fresh_task(workers: usize) -> (r: TaskState)
        ensures
            r.rejected_by@.len() == workers,
            !r.done,
            forall|w: int| 0 <= w < workers ==> !(#[trigger] r.rejected_by@[w]),
    {
        let mut rejected_by: Vec<bool> = Vec::new();
        let mut w: usize = 0;
        while w < workers
            invariant
                w <= workers,
                rejected_by@.len() == w,
                forall|x: int| 0 <= x < w ==> !(#[trigger] rejected_by@[x]),
            decreases workers - w,
        {
            rejected_by.push(false);
            w += 1;
        }
        TaskState { rejected_by, done: false }
    }

    /// A coordinator for `tasks` tasks over `workers` workers, none of them
    /// tried and none done.
    pub fn new(workers: usize, tasks: usize) -> (r: Coordinator)
        ensures
            r.wf(),
            r.workers == workers,
            r.tasks@.len() == tasks,
            !r.aborted,
            forall|i: int| 0 <= i < tasks ==> !(#[trigger] r.tasks@[i]).done && forall|w: int|
                0 <= w < workers ==> !r.tasks@[i].rejected_by@[w],
    {
        let mut all: Vec<TaskState> = Vec::new();
        let mut i: usize = 0;
        while i < tasks
            invariant
                i <= tasks,
                all@.len() == i,
                forall|j: int| 0 <= j < i ==> (#[trigger] all@[j]).rejected_by@.len() == workers && !all@[j].done
                    && forall|w: int| 0 <= w < workers ==> !all@[j].rejected_by@[w],
            decreases tasks - i,
        {
            all.push(Coordinator::fresh_task(workers));
            i += 1;
        }
        let r = Coordinator { workers, tasks: all, aborted: false, folded_log: Ghost(Seq::empty()) };
        assert(r.folded_log@.to_set() =~= r.folded());
        r
    }

    /// The first worker that has not failed task `task`, if any.
    pub fn first_untried(&self, task: usize) -> (r: Option<usize>)
        requires
            self.wf(),
            task < self.tasks@.len(),
        ensures
            match r {
                Some(w) => w < self.workers && !self.tasks@[task as int].rejected_by@[w as int]
                    && forall|x: int| 0 <= x < w ==> #[trigger] self.tasks@[task as int].rejected_by@[x],
                None => all_failed(self.tasks@[task as int]),
            },
    {
        let t = &self.tasks[task];
        assert(t.rejected_by@.len() == self.workers);
        let mut w: usize = 0;
        while w < self.workers
            invariant
                w <= self.workers,
                task < self.tasks@.len(),
                *t == self.tasks@[task as int],
                t.rejected_by@.len() == self.workers,
                forall|x: int| 0 <= x < w ==> #[trigger] t.rejected_by@[x],
            decreases self.workers - w,
        {
            if !t.rejected_by[w] {
                return Some(w);
            }
            w += 1;
        }
        None
    }

    /// Records that `worker` failed `task`. The task goes to the first
    /// worker that has not failed it; when there is none the job aborts
    /// with `NoAvailableWorker`.
    pub fn on_failure(&mut self, task: usize, worker: usize) -> (r: Action)
        requires
            old(self).wf(),
            task < old(self).tasks@.len(),
            worker < old(self).workers,
        ensures
            final(self).wf(),
            final(self).workers == old(self).workers,
            final(self).tasks@.len() == old(self).tasks@.len(),
            final(self).folded() == old(self).folded(),
            final(self).tasks@[task as int].rejected_by@ == old(self).tasks@[task as int].rejected_by@.update(
                worker as int,
                true,
            ),
            forall|i: int| 0 <= i < final(self).tasks@.len() && i != task ==> #[trigger] final(self).tasks@[i] == old(self).tasks@[i],
            all_failed(final(self).tasks@[task as int]) ==> r == Action::Abort(Error::NoAvailableWorker)
                && final(self).aborted,
            !all_failed(final(self).tasks@[task as int]) ==> final(self).aborted == old(self).aborted
                && exists|w: int|
                0 <= w < final(self).workers && r == (Action::Send { task, worker: w as usize })
                    && !final(self).tasks@[task as int].rejected_by@[w],
    {
        let ghost before = self.tasks@;
        self.tasks[task].rejected_by.set(worker, true);
        assert(self.folded_log@.to_set() == old(self).folded());
        assert(self.folded() =~= old(self).folded()) by {
            assert forall|i: int| 0 <= i < self.tasks@.len() implies self.tasks@[i].done == before[i].done by {}
        }
        assert forall|i: int| 0 <= i < self.tasks@.len() implies (#[trigger] self.tasks@[i]).rejected_by@.len()
            == self.workers by {
            if i != task {
                assert(self.tasks@[i] == before[i]);
            }
        }
        match self.first_untried(task) {
            Some(w) => Action::Send { task, worker: w },
            None => {
                self.aborted = true;
                Action::Abort(Error::NoAvailableWorker)
            },
        }
    }

    /// Records that `task` returned a result, and says whether that result
    /// is to be folded: only the first result of a task is.
    pub fn on_success(&mut self, task: usize) -> (fold: bool)
        requires
            old(self).wf(),
            task < old(self).tasks@.len(),
        ensures
            final(self).wf(),
            fold == !old(self).tasks@[task as int].done,
            final(self).folded() == old(self).folded().insert(task as int),
            final(self).workers == old(self).workers,
            final(self).aborted == old(self).aborted,
            final(self).tasks@.len() == old(self).tasks@.len(),
            final(self).tasks@[task as int].done,
            final(self).tasks@[task as int].rejected_by == old(self).tasks@[task as int].rejected_by,
            final(self).folded_log@ == if fold {
                old(self).folded_log@.push(task as int)
            } else {
                old(self).folded_log@
            },
            forall|i: int| 0 <= i < final(self).tasks@.len() && i != task ==> #[trigger] final(self).tasks@[i] == old(self).tasks@[i],
    {
        let ghost before = self.tasks@;
        let fold = !self.tasks[task].done;
        self.tasks[task].done = true;
        assert(self.folded() =~= old(self).folded().insert(task as int));
        if fold {
            proof {
                let l0 = self.folded_log@;
                assert(!l0.contains(task as int)) by {
                    assert(!old(self).folded().contains(task as int));
                    if l0.contains(task as int) {
                        assert(l0.to_set().contains(task as int));
                    }
                }
                self.folded_log@ = l0.push(task as int);
                assert forall|y: int| #[trigger] self.folded_log@.to_set().contains(y) <==> l0.to_set().insert(
                    task as int,
                ).contains(y) by {
                    if l0.contains(y) {
                        let j = choose|j: int| 0 <= j < l0.len() && l0[j] == y;
                        assert(self.folded_log@[j] == y);
                    }
                    if y == task as int {
                        assert(self.folded_log@[l0.len() as int] == y);
                    }
                    if self.folded_log@.contains(y) {
                        let j = choose|j: int| 0 <= j < self.folded_log@.len() && self.folded_log@[j] == y;
                        if j < l0.len() {
                            assert(l0[j] == y);
                        }
                    }
                }
                assert(self.folded_log@.to_set() =~= l0.to_set().insert(task as int));
                assert forall|a: int, b: int|
                    0 <= a < self.folded_log@.len() && 0 <= b < self.folded_log@.len() && a != b
                        implies self.folded_log@[a] != self.folded_log@[b] by {
                    if a < l0.len() && b < l0.len() {
                    } else if a == l0.len() {
                        assert(l0.contains(self.folded_log@[b]));
                    } else {
                        assert(l0.contains(self.folded_log@[a]));
                    }
                }
            }
        } else {
            assert(self.folded() =~= old(self).folded());
        }
        assert forall|i: int| 0 <= i < self.tasks@.len() implies (#[trigger] self.tasks@[i]).rejected_by@.len()
            == self.workers by {
            if i != task {
                assert(self.tasks@[i] == before[i]);
            }
        }
        fold
    }

    /// Whether every task has been folded and the job can end.
    pub fn is_finished(&self) -> (r: bool)
        ensures
            r == (!self.aborted && forall|i: int| 0 <= i < self.tasks@.len() ==> (#[trigger] self.tasks@[i]).done),
    {
        if self.aborted {
            return false;
        }
        let mut i: usize = 0;
        while i < self.tasks.len()
            invariant
                i <= self.tasks@.len(),
                forall|j: int| 0 <= j < i ==> (#[trigger] self.tasks@[j]).done,
            decreases self.tasks@.len() - i,
        {
            if !self.tasks[i].done {
                return false;
            }
            i += 1;
        }
        true
    }

    /// The job's result: the accumulator when the job did not abort,
    /// nothing when it did.
    pub fn finish<O>(&self, acc: Option<O>) -> (r: Option<O>)
        ensures
            self.aborted ==> r.is_none(),
            !self.aborted ==> r == acc,
    {
        if self.aborted {
            None
        } else {
            acc
        }
    }
}

/// When every worker of the roster has failed one task, the job fails with
/// `NoAvailableWorker` and yields no accumulator.
pub proof fn lemma_all_workers_failed(
    c0: Coordinator,
    c1: Coordinator,
    task: usize,
    worker: usize,
    r: Action,
)
    requires
        c0.wf(),
        task < c0.tasks@.len(),
        worker < c0.workers,
        forall|w: int| 0 <= w < c0.workers && w != worker ==> #[trigger] c0.tasks@[task as int].rejected_by@[w],
        c1.tasks@[task as int].rejected_by@ == c0.tasks@[task as int].rejected_by@.update(worker as int, true),
        all_failed(c1.tasks@[task as int]) ==> r == Action::Abort(Error::NoAvailableWorker) && c1.aborted,
    ensures
        r == Action::Abort(Error::NoAvailableWorker),
        c1.aborted,
{
    assert(c0.tasks@[task as int].rejected_by@.len() == c0.workers);
}

/// However failures and retries interleave, a task's result is folded at
/// most once: a result is folded exactly when its task was not yet done,
/// and the set of folded tasks only grows by that task.
pub proof fn lemma_fold_once(c0: Coordinator, c1: Coordinator, task: usize, fold: bool)
    requires
        task < c0.tasks@.len(),
        fold == !c0.tasks@[task as int].done,
        c1.folded() == c0.folded().insert(task as int),
    ensures
        fold <==> !c0.folded().contains(task as int),
        c1.folded().contains(task as int),
        !fold ==> c1.folded() == c0.folded(),
{
    if !fold {
        assert(c0.folded().contains(task as int));
        assert(c1.folded() =~= c0.folded());
    }
}

/// Once the job has finished, every task's result was folded exactly once:
/// the folded tasks, in the order they were folded, are a permutation of
/// all tasks. Whatever failures and retries came in between, a commutative
/// and associative fold over them equals the fold in input order.
pub proof fn lemma_finished_folds_each_once(c: Coordinator)
    requires
        c.wf(),
        !c.aborted,
        forall|i: int| 0 <= i < c.tasks@.len() ==> (#[trigger] c.tasks@[i]).done,
    ensures
        c.folded_log@.no_duplicates(),
        c.folded_log@.len() == c.tasks@.len(),
        forall|i: int| 0 <= i < c.tasks@.len() <==> #[trigger] c.folded_log@.contains(i),
{
    let n = c.tasks@.len() as int;
    assert(c.folded() =~= set_int_range(0, n));
    vstd::set_lib::lemma_int_range(0, n);
    c.folded_log@.unique_seq_to_set();
    assert forall|i: int| 0 <= i < n <==> #[trigger] c.folded_log@.contains(i) by {
        assert(c.folded_log@.contains(i) <==> c.folded_log@.to_set().contains(i));
    }
}

/// Folds `outs` in order: the first value seeds the accumulator and each
/// later one is reduced into it.
pub open spec fn fold_in_order<A, B>(seed: spec_fn(B) -> A, red: spec_fn(A, B) -> A, outs: Seq<B>) -> A
    decreases outs.len(),
{
    if outs.len() <= 1 {
        seed(outs[0])
    } else {
        red(fold_in_order(seed, red, outs.drop_last()), outs.last())
    }
}

/// What commutativity and associativity of the fold give: the order in
/// which two values are reduced in does not matter, from the seed on.
pub open spec fn order_free<A, B>(seed: spec_fn(B) -> A, red: spec_fn(A, B) -> A) -> bool {
    &&& forall|a: A, x: B, y: B| #[trigger] red(red(a, x), y) == red(red(a, y), x)
    &&& forall|x: B, y: B| #[trigger] red(seed(x), y) == red(seed(y), x)
}

/// Any one value can be reduced last.
pub proof fn lemma_fold_moves_to_end<A, B>(
    seed: spec_fn(B) -> A,
    red: spec_fn(A, B) -> A,
    s: Seq<B>,
    j: int,
)
    requires
        order_free(seed, red),
        s.len() >= 2,
        0 <= j < s.len(),
    ensures
        fold_in_order(seed, red, s) == red(fold_in_order(seed, red, s.remove(j)), s[j]),
    decreases s.len(),
{
    if j == s.len() - 1 {
        assert(s.remove(j) =~= s.drop_last());
    } else if s.len() == 2 {
        assert(s.remove(0) =~= seq![s[1]]);
        assert(s.drop_last() =~= seq![s[0]]);
        assert(fold_in_order(seed, red, s.drop_last()) == seed(s[0]));
        assert(fold_in_order(seed, red, s.remove(0)) == seed(s[1]));
        assert(fold_in_order(seed, red, s) == red(seed(s[0]), s[1]));
        assert(red(seed(s[0]), s[1]) == red(seed(s[1]), s[0]));
    } else {
        let d = s.drop_last();
        lemma_fold_moves_to_end(seed, red, d, j);
        let e = d.remove(j);
        assert(e.len() >= 1);
        assert(s.remove(j) =~= e.push(s.last()));
        assert(e.push(s.last()).drop_last() =~= e);
        assert(d[j] == s[j]);
        assert(fold_in_order(seed, red, s) == red(fold_in_order(seed, red, d), s.last()));
        assert(fold_in_order(seed, red, e.push(s.last())) == red(fold_in_order(seed, red, e), s.last()));
        assert(red(red(fold_in_order(seed, red, e), s[j]), s.last()) == red(
            red(fold_in_order(seed, red, e), s.last()),
            s[j],
        ));
    }
}

/// Folding the outputs picked by `p` equals folding those picked by `q`
/// when `p` and `q` list the same indices in different orders.
pub proof fn lemma_fold_permuted<A, B>(
    seed: spec_fn(B) -> A,
    red: spec_fn(A, B) -> A,
    outs: Seq<B>,
    p: Seq<int>,
    q: Seq<int>,
)
    requires
        order_free(seed, red),
        p.len() >= 1,
        p.len() == q.len(),
        p.no_duplicates(),
        q.no_duplicates(),
        forall|y: int| p.contains(y) <==> q.contains(y),
    ensures
        fold_in_order(seed, red, p.map_values(|i: int| outs[i])) == fold_in_order(
            seed,
            red,
            q.map_values(|i: int| outs[i]),
        ),
    decreases p.len(),
{
    let x = p.last();
    assert(p.contains(x)) by {
        assert(p[p.len() - 1] == x);
    }
    let j = choose|j: int| 0 <= j < q.len() && q[j] == x;
    if p.len() == 1 {
        assert(q.len() == 1);
        assert(p =~= q);
    } else {
        let p1 = p.drop_last();
        let q1 = q.remove(j);
        assert forall|y: int| p1.contains(y) <==> q1.contains(y) by {
            if p1.contains(y) {
                let a = choose|a: int| 0 <= a < p1.len() && p1[a] == y;
                assert(p[a] == y);
                assert(y != x);
                assert(q.contains(y));
                let b = choose|b: int| 0 <= b < q.len() && q[b] == y;
                assert(b != j);
                if b < j {
                    assert(q1[b] == y);
                } else {
                    assert(q1[b - 1] == y);
                }
            }
            if q1.contains(y) {
                let b = choose|b: int| 0 <= b < q1.len() && q1[b] == y;
                if b < j {
                    assert(q[b] == y);
                    assert(b != j);
                } else {
                    assert(q[b + 1] == y);
                }
                assert(y != x);
                assert(p.contains(y));
                let a = choose|a: int| 0 <= a < p.len() && p[a] == y;
                assert(a != p.len() - 1);
                assert(p1[a] == y);
            }
        }
        assert(p1.no_duplicates());
        assert forall|a: int, b: int| 0 <= a < q1.len() && 0 <= b < q1.len() && a != b implies q1[a]
            != q1[b] by {
            let a2 = if a < j { a } else { a + 1 };
            let b2 = if b < j { b } else { b + 1 };
            assert(q1[a] == q[a2]);
            assert(q1[b] == q[b2]);
        }
        lemma_fold_permuted(seed, red, outs, p1, q1);
        let pm = p.map_values(|i: int| outs[i]);
        let qm = q.map_values(|i: int| outs[i]);
        assert(pm.drop_last() =~= p1.map_values(|i: int| outs[i]));
        lemma_fold_moves_to_end(seed, red, qm, j);
        assert(qm.remove(j) =~= q1.map_values(|i: int| outs[i]));
    }
}

/// With an order-free fold, the result of a finished job does not depend on
/// the order in which results came back: folding in the logged order
/// equals folding the outputs in input order.
pub proof fn lemma_fold_order_irrelevant<A, B>(
    seed: spec_fn(B) -> A,
    red: spec_fn(A, B) -> A,
    outs: Seq<B>,
    log: Seq<int>,
)
    requires
        order_free(seed, red),
        outs.len() >= 1,
        log.len() == outs.len(),
        log.no_duplicates(),
        forall|i: int| 0 <= i < outs.len() <==> #[trigger] log.contains(i),
    ensures
        fold_in_order(seed, red, log.map_values(|i: int| outs[i])) == fold_in_order(seed, red, outs),
{
    let ids = Seq::new(outs.len(), |i: int| i);
    assert forall|y: int| log.contains(y) <==> ids.contains(y) by {
        if 0 <= y < outs.len() {
            assert(ids[y] == y);
        }
    }
    lemma_fold_permuted(seed, red, outs, log, ids);
    assert(ids.map_values(|i: int| outs[i]) =~= outs);
}

/// For any interleaving of failures and retries, a finished job whose
/// fold is order-free ends with the value that folding every task's output
/// on one machine, in input order, gives.
pub proof fn lemma_job_matches_single_machine<A, B>(
    c: Coordinator,
    seed: spec_fn(B) -> A,
    red: spec_fn(A, B) -> A,
    outs: Seq<B>,
)
    requires
        c.wf(),
        !c.aborted,
        forall|i: int| 0 <= i < c.tasks@.len() ==> (#[trigger] c.tasks@[i]).done,
        order_free(seed, red),
        outs.len() == c.tasks@.len(),
        outs.len() >= 1,
    ensures
        fold_in_order(seed, red, c.folded_log@.map_values(|i: int| outs[i])) == fold_in_order(
            seed,
            red,
            outs,
        ),
{
    lemma_finished_folds_each_once(c);
    lemma_fold_order_irrelevant(seed, red, outs, c.folded_log@);
}

} // verus!
