//! The pool of workers: which are free, and who is next.
use std::collections::VecDeque;
use vstd::prelude::*;

verus! {

/// What is told of a worker.
#[derive(Debug)]
pub struct WorkerSummary {
    pub worker_id: usize,
    pub device: String,
}

/// How many workers there are, and how many of them are free.
#[derive(Clone, Copy, Debug, PartialEq, Eq, Structural)]
pub struct WorkerPoolSnapshot {
    pub total_workers: usize,
    pub available_workers: usize,
}

/// The workers, and a queue of those that are free, by their places in the list.
pub struct WorkerPool {
    workers: Vec<WorkerSummary>,
    queue: VecDeque<usize>,
}

/// Whether a request would be served at once, and how many workers are busy.
pub open spec fn state_of(total: usize, available: usize) -> (bool, int) {
    (
        total > 0 && available > 0,
        if total >= available {
            total - available
        } else {
            0
        },
    )
}

/// A request is served at once exactly if there is a free worker among some, and the busy
/// and the free ones are all of them.
pub proof fn law_state_of_the_pool(total: usize, available: usize)
    requires
        available <= total,
    ensures
        state_of(total, available).0 <==> available > 0,
        state_of(total, available).1 + available == total,
        state_of(total, 0) == (false, total as int),
{
}

impl WorkerPoolSnapshot {
    /// Whether a request would be served at once.
    pub fn ready(&self) -> (r: bool)
        ensures
            r == (self.total_workers > 0 && self.available_workers > 0),
            r == state_of(self.total_workers, self.available_workers).0,
    {
        self.total_workers > 0 && self.available_workers > 0
    }

    /// How many workers are busy.
    pub fn busy_workers(&self) -> (n: usize)
        ensures
            n == (if self.total_workers >= self.available_workers {
                self.total_workers - self.available_workers
            } else {
                0
            }),
            n == state_of(self.total_workers, self.available_workers).1,
    {
        self.total_workers.saturating_sub(self.available_workers)
    }
}

impl WorkerPool {
    /// The places of the free workers, the next one first.
    pub closed spec fn free(&self) -> Seq<usize> {
        self.queue@
    }

    /// All workers.
    pub closed spec fn all(&self) -> Seq<WorkerSummary> {
        self.workers@
    }

    /// The queue holds places in the list.
    pub open spec fn wf(&self) -> bool {
        forall|i: int| 0 <= i < self.free().len() ==> #[trigger] self.free()[i] < self.all().len()
    }

    /// The places of all workers, in their order.
    pub open spec fn places(n: nat) -> Seq<usize> {
        Seq::new(n, |i: int| i as usize)
    }

    /// The worker that is next, where one is free, and the free ones without it.
    pub open spec fn next_free(free: Seq<usize>) -> (Option<usize>, Seq<usize>) {
        if free.len() == 0 {
            (None, free)
        } else {
            (Some(free[0]), free.skip(1))
        }
    }

    /// The free workers, with one that has become free.
    pub open spec fn with_free(free: Seq<usize>, worker: usize) -> Seq<usize> {
        free.push(worker)
    }

    /// No worker is free twice.
    pub open spec fn orderly(&self) -> bool {
        self.wf() && self.free().no_duplicates()
    }

    /// A pool in which all workers are free, in their order.
    pub fn new(workers: Vec<WorkerSummary>) -> (r: Self)
        ensures
            r.orderly(),
            r.all() == workers@,
            r.free() == Seq::new(workers@.len(), |i: int| i as usize),
            r.free() == Self::places(workers@.len()),
    {
        let mut queue: VecDeque<usize> = VecDeque::new();
        for i in 0..workers.len()
            invariant
                queue@ == Seq::new(i as nat, |k: int| k as usize),
        {
            queue.push_back(i);
            assert(queue@ =~= Seq::new((i + 1) as nat, |k: int| k as usize));
        }
        WorkerPool { workers, queue }
    }

    /// The worker that has been free longest, which is then busy; nothing where all are.
    pub fn acquire(&mut self) -> (r: Option<usize>)
        requires
            old(self).wf(),
        ensures
            final(self).wf(),
            old(self).orderly() ==> final(self).orderly(),
            final(self).all() == old(self).all(),
            match r {
                Some(worker) => {
                    &&& old(self).free().len() > 0
                    &&& worker == old(self).free()[0]
                    &&& final(self).free() == old(self).free().skip(1)
                    &&& worker < old(self).all().len()
                },
                None => old(self).free().len() == 0 && final(self).free() == old(self).free(),
            },
            old(self).orderly() && r is Some ==> !final(self).free().contains(r->0),
            (r, final(self).free()) == Self::next_free(old(self).free()),
    {
        let ghost before = self.queue@;
        let r = self.queue.pop_front();
        proof {
            if before.len() > 0 {
                let after = self.queue@;
                assert(after =~= before.skip(1));
                assert forall|i: int| 0 <= i < after.len() implies #[trigger] after[i]
                    < self.workers@.len() by {
                    assert(after[i] == before[i + 1]);
                    assert(old(self).free()[i + 1] < old(self).all().len());
                }
                assert(old(self).free()[0] < old(self).all().len());
            }
        }
        r
    }

    /// Puts a worker at the end of the queue of free ones.
    pub fn release(&mut self, worker: usize)
        requires
            old(self).wf(),
            worker < old(self).all().len(),
        ensures
            final(self).wf(),
            final(self).all() == old(self).all(),
            final(self).free() == old(self).free().push(worker),
            final(self).free() == Self::with_free(old(self).free(), worker),
            old(self).orderly() && !old(self).free().contains(worker) ==> final(self).orderly(),
    {
        let ghost before = self.queue@;
        self.queue.push_back(worker);
        proof {
            let after = self.queue@;
            assert(after =~= before.push(worker));
            assert forall|i: int| 0 <= i < after.len() implies #[trigger] after[i]
                < self.workers@.len() by {
                if i < before.len() {
                    assert(old(self).free()[i] < old(self).all().len());
                }
            }
            if old(self).orderly() && !before.contains(worker) {
                assert forall|i: int, j: int|
                    0 <= i < after.len() && 0 <= j < after.len() && i != j implies after[i]
                    != after[j] by {
                    if i < before.len() && j < before.len() {
                        assert(before[i] != before[j]);
                    }
                }
            }
        }
    }

    /// How many workers there are, and how many of them are free.
    pub fn snapshot(&self) -> (r: WorkerPoolSnapshot)
        ensures
            r.total_workers == self.all().len(),
            r.available_workers == self.free().len(),
    {
        WorkerPoolSnapshot {
            total_workers: self.workers.len(),
            available_workers: self.queue.len(),
        }
    }

    /// What is told of the workers, in their order.
    pub fn worker_summaries(&self) -> (r: &Vec<WorkerSummary>)
        ensures
            r@ == self.all(),
    {
        &self.workers
    }
}

/// As long as no worker is free twice, no more workers are free than there are, so that
/// the free and the busy ones add up to all.
pub proof fn law_free_and_busy(pool: WorkerPool)
    requires
        pool.orderly(),
    ensures
        pool.free().len() <= pool.all().len(),
{
    let free = pool.free();
    let n = pool.all().len();
    let places = free.map_values(|w: usize| w as int);
    assert(places.no_duplicates()) by {
        assert forall|i: int, j: int|
            0 <= i < places.len() && 0 <= j < places.len() && i != j implies places[i]
            != places[j] by {
            assert(free[i] != free[j]);
        }
    }
    places.unique_seq_to_set();
    let range = vstd::set_lib::set_int_range(0, n as int);
    vstd::set_lib::lemma_int_range(0, n as int);
    assert forall|x: int| places.to_set().contains(x) implies range.contains(x) by {
        let i = choose|i: int| 0 <= i < places.len() && places[i] == x;
        assert(free[i] < pool.all().len());
    }
    vstd::set_lib::lemma_len_subset(places.to_set(), range);
}

/// The workers that are handed out when so many are asked for, one after the other.
pub open spec fn handed_out(free: Seq<usize>, n: nat) -> Seq<Option<usize>>
    decreases n,
{
    if n == 0 {
        seq![]
    } else {
        let (worker, rest) = WorkerPool::next_free(free);
        seq![worker] + handed_out(rest, (n - 1) as nat)
    }
}

/// Workers are handed out in the order in which they became free, each once, and after the
/// last of them there is none.
pub proof fn law_first_free_is_first_served(free: Seq<usize>, n: nat)
    ensures
        handed_out(free, n).len() == n,
        forall|i: int|
            0 <= i < n ==> #[trigger] handed_out(free, n)[i] == if i < free.len() {
                Some(free[i])
            } else {
                None
            },
    decreases n,
{
    if n > 0 {
        let (worker, rest) = WorkerPool::next_free(free);
        let m = (n - 1) as nat;
        law_first_free_is_first_served(rest, m);
        assert forall|i: int| 0 <= i < n implies #[trigger] handed_out(free, n)[i] == if i
            < free.len() {
            Some(free[i])
        } else {
            None
        } by {
            if i > 0 {
                assert(handed_out(free, n)[i] == handed_out(rest, m)[i - 1]);
            }
        }
    }
}

/// A worker that becomes free is handed out after all that were free before it, and makes
/// none of them wait.
pub proof fn law_last_free_is_last_served(free: Seq<usize>, worker: usize, i: int)
    requires
        0 <= i <= free.len(),
    ensures
        handed_out(WorkerPool::with_free(free, worker), free.len() + 1)[i] == if i < free.len() {
            Some(free[i])
        } else {
            Some(worker)
        },
{
    law_first_free_is_first_served(WorkerPool::with_free(free, worker), free.len() + 1);
}

/// In the beginning every worker is free, and they are handed out in their order.
pub proof fn law_all_workers_are_free_at_first(n: nat, i: int)
    requires
        0 <= i < n <= usize::MAX,
    ensures
        WorkerPool::places(n).len() == n,
        handed_out(WorkerPool::places(n), n)[i] == Some(i as usize),
{
    law_first_free_is_first_served(WorkerPool::places(n), n);
}

} // verus!
