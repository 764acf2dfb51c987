//! The bookkeeping of a coordinator that hands jobs to a fixed set of workers in turn and
//! then waits for one result per job.
//!
//! The coordinator decides which worker gets the next job and when every result is in;
//! sending and receiving are left to its caller.

use vstd::prelude::*;

verus! {

/// Number of workers where nothing else is asked for.
pub const DEFAULT_WORKERS: usize = 10;

/// The worker that job number `job` goes to, of `workers` workers taken in turn.
pub open spec fn worker_of(job: int, workers: int) -> int {
    job % workers
}

/// Number of the first `jobs` jobs that go to worker `w`.
pub open spec fn load(jobs: int, workers: int, w: int) -> int
    decreases jobs,
{
    if jobs <= 0 {
        0
    } else {
        load(jobs - 1, workers, w) + if worker_of(jobs - 1, workers) == w {
            1int
        } else {
            0int
        }
    }
}

/// Number of the first `jobs` jobs that go to one of the workers below `n`.
pub open spec fn load_below(jobs: int, workers: int, n: int) -> int
    decreases n,
{
    if n <= 0 {
        0
    } else {
        load_below(jobs, workers, n - 1) + load(jobs, workers, n - 1)
    }
}

/// One more job adds one to the load of the workers below `n` where its worker is among
/// them, and nothing where it is not.
proof fn lemma_load_step(jobs: int, workers: int, n: int)
    requires
        jobs > 0,
        workers > 0,
        0 <= n <= workers,
    ensures
        load_below(jobs, workers, n) == load_below(jobs - 1, workers, n) + if worker_of(
            jobs - 1,
            workers,
        ) < n {
            1int
        } else {
            0int
        },
    decreases n,
{
    if n > 0 {
        lemma_load_step(jobs, workers, n - 1);
    }
}

/// Every job goes to exactly one worker: the loads of all workers add up to the number of
/// jobs, so as many results are owed as jobs were handed out.
pub proof fn lemma_loads_add_up(jobs: int, workers: int)
    requires
        jobs >= 0,
        workers > 0,
    ensures
        load_below(jobs, workers, workers) == jobs,
    decreases jobs,
{
    if jobs > 0 {
        lemma_loads_add_up(jobs - 1, workers);
        lemma_load_step(jobs, workers, workers);
    } else {
        lemma_no_jobs(workers, workers);
    }
}

/// Without jobs no worker has a load.
proof fn lemma_no_jobs(workers: int, n: int)
    requires
        0 <= n,
    ensures
        load_below(0, workers, n) == 0,
    decreases n,
{
    if n > 0 {
        lemma_no_jobs(workers, n - 1);
    }
}

/// What a coordinator keeps track of.
pub struct Coordinator {
    workers: usize,
    next: usize,
    dispatched: usize,
    collected: usize,
}

impl Coordinator {
    #[verifier::type_invariant]
    spec fn consistent(self) -> bool {
        &&& self.workers > 0
        &&& self.next == self.dispatched % self.workers
        &&& self.collected <= self.dispatched
    }

    /// Number of workers.
    pub closed spec fn workers(self) -> int {
        self.workers as int
    }

    /// Number of jobs handed out so far.
    pub closed spec fn dispatched(self) -> int {
        self.dispatched as int
    }

    /// Number of results taken in so far.
    pub closed spec fn collected(self) -> int {
        self.collected as int
    }

    /// Number of results that are still owed.
    pub open spec fn outstanding(self) -> int {
        self.dispatched() - self.collected()
    }

    /// A coordinator of `workers` workers that has handed out nothing; none where there is
    /// no worker.
    pub fn new(workers: usize) -> (r: Option<Coordinator>)
        ensures
            workers == 0 <==> r is None,
            r matches Some(c) ==> c.workers() == workers && c.dispatched() == 0
                && c.collected() == 0,
    {
        if workers == 0 {
            None
        } else {
            proof {
                vstd::arithmetic::div_mod::lemma_small_mod(0, workers as nat);
            }
            Some(Coordinator { workers, next: 0, dispatched: 0, collected: 0 })
        }
    }

    /// Hands out one more job and says which worker it goes to: the workers take turns.
    pub fn dispatch(&mut self) -> (worker: usize)
        requires
            old(self).dispatched() < usize::MAX,
        ensures
            worker == worker_of(old(self).dispatched(), old(self).workers()),
            worker < final(self).workers(),
            final(self).workers() == old(self).workers(),
            final(self).dispatched() == old(self).dispatched() + 1,
            final(self).collected() == old(self).collected(),
    {
        proof {
            use_type_invariant(&*self);
        }
        let worker = self.next;
        let following = if worker + 1 == self.workers {
            0
        } else {
            worker + 1
        };
        proof {
            lemma_next_turn(self.dispatched as int, self.workers as int);
        }
        *self = Coordinator {
            workers: self.workers,
            next: following,
            dispatched: self.dispatched + 1,
            collected: self.collected,
        };
        worker
    }

    /// Whether every result is in: as many have been taken in as jobs were handed out.
    pub fn is_done(&self) -> (r: bool)
        ensures
            r == (self.outstanding() == 0),
            self.outstanding() >= 0,
    {
        proof {
            use_type_invariant(self);
        }
        self.collected == self.dispatched
    }

    /// Takes in one result and says whether it was the last one owed.
    pub fn collect(&mut self) -> (done: bool)
        requires
            old(self).outstanding() > 0,
        ensures
            final(self).workers() == old(self).workers(),
            final(self).dispatched() == old(self).dispatched(),
            final(self).collected() == old(self).collected() + 1,
            done == (final(self).outstanding() == 0),
    {
        proof {
            use_type_invariant(&*self);
        }
        self.collected = self.collected + 1;
        self.collected == self.dispatched
    }
}

/// The worker after the one of job `job` is the one of job `job + 1`.
proof fn lemma_next_turn(job: int, workers: int)
    requires
        job >= 0,
        workers > 0,
    ensures
        (job + 1) % workers == if job % workers + 1 == workers {
            0
        } else {
            job % workers + 1
        },
{
    let q = job / workers;
    let r = job % workers;
    vstd::arithmetic::div_mod::lemma_fundamental_div_mod(job, workers);
    vstd::arithmetic::div_mod::lemma_mod_bound(job, workers);
    if r + 1 == workers {
        assert(job + 1 == (q + 1) * workers + 0) by (nonlinear_arith)
            requires
                job == workers * q + r,
                r + 1 == workers,
        ;
        vstd::arithmetic::div_mod::lemma_fundamental_div_mod_converse(job + 1, workers, q + 1, 0);
    } else {
        assert(job + 1 == q * workers + (r + 1)) by (nonlinear_arith)
            requires
                job == workers * q + r,
        ;
        vstd::arithmetic::div_mod::lemma_fundamental_div_mod_converse(job + 1, workers, q, r + 1);
    }
}

} // verus!
