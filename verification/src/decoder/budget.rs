//! Admission control over the heap bytes concurrent decodes and encodes may hold.
//!
//! [`super::limits::Limits`] bounds *one* job by its estimate; [`MemoryBudget`] bounds the *sum*
//! over every job that shares it. A job queues with its estimate before any picture-sized
//! allocation and holds the grant until it is over. When the estimate does not fit, the job waits
//! for room (`BudgetPolicy::Wait`, the default) or fails fast (`BudgetPolicy::FailFast`,
//! [`Error::ResourceBusy`]).
//!
//! Grants are strictly first-come-first-served: a job never overtakes one that queued before
//! it, so a stream of small jobs cannot starve a big one, but a queued big job does
//! head-of-line block smaller ones behind it. A job whose estimate exceeds the whole budget
//! is refused outright ([`Error::LimitExceeded`]) unless `allow_oversize` is set, in which case
//! it waits for a completely idle budget and then runs alone.

use vstd::prelude::*;

use crate::error::{Error, Result};

verus! {

/// What a job does when its estimate does not currently fit the budget.
#[derive(Clone, Copy, Debug, PartialEq, Eq, Structural)]
#[non_exhaustive]
pub enum BudgetPolicy {
    /// Wait until earlier jobs release enough bytes, or the job is stopped. Strict FIFO.
    Wait,
    /// Refuse immediately with [`Error::ResourceBusy`].
    FailFast,
}

impl Default for BudgetPolicy {
    fn default() -> (p: Self)
        ensures
            p == BudgetPolicy::Wait,
    {
        BudgetPolicy::Wait
    }
}

/// A budget of heap bytes for concurrent decodes and encodes.
pub struct MemoryBudget {
    /// Total bytes the budget may have granted at once.
    bytes: u64,
    /// Most jobs granted at once (`usize::MAX` = unlimited).
    max_jobs: usize,
    policy: BudgetPolicy,
    /// A job bigger than `bytes` still runs, alone, when set.
    allow_oversize: bool,
    /// Bytes currently granted.
    used: u64,
    /// Jobs currently granted.
    jobs: usize,
    /// Next ticket number.
    next: u64,
    /// Waiting tickets, oldest first.
    queue: Vec<u64>,
    /// The grants that are out.
    grants: Ghost<Seq<u64>>,
}

/// A grant of `bytes` from a [`MemoryBudget`], to be given back with [`MemoryBudget::release`].
#[derive(Debug)]
pub struct BudgetGuard {
    bytes: u64,
}

impl BudgetGuard {
    /// Bytes this grant holds.
    pub closed spec fn granted(&self) -> u64 {
        self.bytes
    }

    /// Bytes this grant holds.
    pub fn bytes(&self) -> (n: u64)
        ensures
            n == self.granted(),
    {
        self.bytes
    }
}

/// A budget as a value.
pub struct BudgetView {
    pub bytes: u64,
    pub max_jobs: usize,
    pub policy: BudgetPolicy,
    pub allow_oversize: bool,
    /// The number of the next ticket.
    pub next: u64,
    /// Waiting tickets, oldest first.
    pub queue: Seq<u64>,
    /// Bytes of each grant that is out.
    pub grants: Seq<u64>,
}

/// The sum of grants.
pub open spec fn total(grants: Seq<u64>) -> int
    decreases grants.len(),
{
    if grants.len() == 0 {
        0
    } else {
        grants[0] + total(grants.skip(1))
    }
}

/// A queue without a ticket.
pub open spec fn drop_ticket(queue: Seq<u64>, ticket: u64) -> Seq<u64> {
    queue.filter(|t: u64| t != ticket)
}

impl BudgetView {
    /// Bytes granted.
    pub open spec fn used(self) -> int {
        total(self.grants)
    }

    /// A ticket is at the front of the queue and its job fits: a job larger than the budget runs
    /// alone, any other needs its bytes and a free place.
    pub open spec fn fits(self, ticket: u64, estimate: u64) -> bool {
        &&& self.queue.len() > 0 && self.queue[0] == ticket
        &&& if estimate > self.bytes {
            self.used() == 0 && self.grants.len() == 0
        } else {
            self.used() + estimate <= self.bytes && self.grants.len() < self.max_jobs
        }
    }

    /// The only grant that is out is for a job larger than the budget.
    pub open spec fn runs_oversize(self) -> bool {
        self.grants.len() == 1 && self.grants[0] > self.bytes
    }

    /// The granted bytes stay within the budget and the granted jobs within their number, except
    /// for a job that runs alone; tickets wait in the order in which they were drawn.
    pub open spec fn sound(self) -> bool {
        &&& self.used() <= self.bytes || self.runs_oversize()
        &&& self.grants.len() <= self.max_jobs || self.runs_oversize()
        &&& forall|i: int, j: int|
            0 <= i < j < self.queue.len() ==> #[trigger] self.queue[i] < #[trigger] self.queue[j]
        &&& forall|i: int| 0 <= i < self.queue.len() ==> #[trigger] self.queue[i] < self.next
    }

    /// The queue without a ticket.
    pub open spec fn without(self, ticket: u64) -> BudgetView {
        BudgetView { queue: drop_ticket(self.queue, ticket), ..self }
    }

    /// The front ticket's job gets its bytes.
    pub open spec fn granting(self, estimate: u64) -> BudgetView {
        BudgetView { queue: self.queue.skip(1), grants: self.grants.push(estimate), ..self }
    }
}

/// The sum of grants, with one more at the end.
proof fn lemma_total_push(grants: Seq<u64>, g: u64)
    ensures
        total(grants.push(g)) == total(grants) + g,
        total(grants) >= 0,
    decreases grants.len(),
{
    if grants.len() > 0 {
        lemma_total_push(grants.skip(1), g);
        assert(grants.push(g).skip(1) =~= grants.skip(1).push(g));
    } else {
        assert(grants.push(g).skip(1) =~= Seq::empty());
        reveal_with_fuel(total, 2);
    }
}

/// The sum of grants, with one taken out.
proof fn lemma_total_remove(grants: Seq<u64>, i: int)
    requires
        0 <= i < grants.len(),
    ensures
        total(grants.remove(i)) == total(grants) - grants[i],
        total(grants.remove(i)) >= 0,
    decreases grants.len(),
{
    lemma_total_push(grants.remove(i), 0);
    if i == 0 {
        assert(grants.remove(0) =~= grants.skip(1));
    } else {
        lemma_total_remove(grants.skip(1), i - 1);
        assert(grants.remove(i).skip(1) =~= grants.skip(1).remove(i - 1));
    }
}

impl View for MemoryBudget {
    type V = BudgetView;

    closed spec fn view(&self) -> BudgetView {
        BudgetView {
            bytes: self.bytes,
            max_jobs: self.max_jobs,
            policy: self.policy,
            allow_oversize: self.allow_oversize,
            next: self.next,
            queue: self.queue@,
            grants: self.grants@,
        }
    }
}

impl MemoryBudget {
    /// The counters count the grants that are out, and the budget is kept.
    pub closed spec fn wf(&self) -> bool {
        &&& self.used == total(self.grants@)
        &&& self.jobs == self.grants@.len()
        &&& self@.sound()
    }

    /// A budget of `bytes` over all jobs that acquire from it: wait policy, no concurrency
    /// cap, oversize jobs refused.
    pub fn new(bytes: u64) -> (b: Self)
        ensures
            b.wf(),
            b@ == (BudgetView {
                bytes,
                max_jobs: usize::MAX,
                policy: BudgetPolicy::Wait,
                allow_oversize: false,
                next: 0,
                queue: Seq::empty(),
                grants: Seq::empty(),
            }),
    {
        MemoryBudget {
            bytes,
            max_jobs: usize::MAX,
            policy: BudgetPolicy::Wait,
            allow_oversize: false,
            used: 0,
            jobs: 0,
            next: 0,
            queue: Vec::new(),
            grants: Ghost(Seq::empty()),
        }
    }

    /// Cap the number of jobs granted at once, independent of bytes. A budget is configured
    /// before it is shared.
    pub fn with_max_jobs(self, jobs: usize) -> (b: Self)
        requires
            self.wf(),
            self@.grants.len() == 0,
        ensures
            b.wf(),
            b@ == (BudgetView { max_jobs: jobs, ..self@ }),
    {
        let mut b = self;
        b.max_jobs = jobs;
        b
    }

    /// What to do when a job does not fit right now (default [`BudgetPolicy::Wait`]).
    pub fn with_policy(self, policy: BudgetPolicy) -> (b: Self)
        requires
            self.wf(),
        ensures
            b.wf(),
            b@ == (BudgetView { policy, ..self@ }),
    {
        let mut b = self;
        b.policy = policy;
        b
    }

    /// Let a single job larger than the whole budget run, alone. Without this it is refused
    /// with [`Error::LimitExceeded`].
    pub fn with_allow_oversize(self, allow: bool) -> (b: Self)
        requires
            self.wf(),
        ensures
            b.wf(),
            b@ == (BudgetView { allow_oversize: allow, ..self@ }),
    {
        let mut b = self;
        b.allow_oversize = allow;
        b
    }

    /// Total budget in bytes.
    pub fn bytes(&self) -> (n: u64)
        ensures
            n == self@.bytes,
    {
        self.bytes
    }

    /// Bytes currently granted (for diagnostics and tests): within the budget, unless one job
    /// that is larger runs alone.
    pub fn held(&self) -> (n: u64)
        requires
            self.wf(),
        ensures
            n == self@.used(),
            n <= self@.bytes || self@.runs_oversize(),
    {
        proof {
            law_budget_is_kept(self);
        }
        self.used
    }

    /// Jobs currently granted (for diagnostics and tests).
    pub fn jobs(&self) -> (n: usize)
        requires
            self.wf(),
        ensures
            n == self@.grants.len(),
            n <= self@.max_jobs || self@.runs_oversize(),
    {
        proof {
            law_budget_is_kept(self);
        }
        self.jobs
    }

    /// Jobs currently queued waiting for a grant (for diagnostics and tests).
    pub fn waiting(&self) -> (n: usize)
        ensures
            n == self@.queue.len(),
    {
        self.queue.len()
    }

    /// Queue a job of `estimate` bytes and return its ticket. A job that exceeds the whole budget
    /// is refused where oversize jobs are not allowed.
    pub fn enqueue(&mut self, estimate: u64) -> (r: Result<u64>)
        requires
            old(self).wf(),
            old(self)@.next < u64::MAX,
        ensures
            final(self).wf(),
            if estimate > old(self)@.bytes && !old(self)@.allow_oversize {
                &&& r == Err::<u64, Error>(
                    Error::LimitExceeded("job estimate exceeds the memory budget"),
                )
                &&& final(self)@ == old(self)@
            } else {
                &&& r == Ok::<u64, Error>(old(self)@.next)
                &&& final(self)@ == (BudgetView {
                    next: (old(self)@.next + 1) as u64,
                    queue: old(self)@.queue.push(old(self)@.next),
                    ..old(self)@
                })
            },
    {
        if estimate > self.bytes && !self.allow_oversize {
            return Err(Error::LimitExceeded("job estimate exceeds the memory budget"));
        }
        let ticket: u64 = self.next;
        self.next = ticket + 1;
        self.queue.push(ticket);
        Ok(ticket)
    }

    /// One attempt of a queued job to get its bytes: granted (`Some`), to be tried again later
    /// (`None`), or refused, with the ticket out of the queue: at once under
    /// [`BudgetPolicy::FailFast`], and under [`BudgetPolicy::Wait`] when the job was stopped.
    pub fn acquire(&mut self, ticket: u64, estimate: u64, stop: Option<enough::StopReason>) -> (r:
        Result<Option<BudgetGuard>>)
        requires
            old(self).wf(),
        ensures
            final(self).wf(),
            if old(self)@.fits(ticket, estimate) {
                &&& r matches Ok(Some(g)) && g.granted() == estimate
                &&& final(self)@ == old(self)@.granting(estimate)
            } else if old(self)@.policy == BudgetPolicy::FailFast {
                &&& r == Err::<Option<BudgetGuard>, Error>(
                    Error::ResourceBusy("memory budget cannot fit the job right now"),
                )
                &&& final(self)@ == old(self)@.without(ticket)
            } else {
                match stop {
                    Some(reason) => {
                        &&& r == Err::<Option<BudgetGuard>, Error>(Error::Cancelled(reason))
                        &&& final(self)@ == old(self)@.without(ticket)
                    },
                    None => {
                        &&& r matches Ok(None)
                        &&& final(self)@ == old(self)@
                    },
                }
            },
    {
        if self.can_run(ticket, estimate) {
            let ghost before = self@;
            self.queue.remove(0);
            self.used = self.used + estimate;
            self.jobs = self.jobs + 1;
            self.grants = Ghost(self.grants@.push(estimate));
            proof {
                lemma_total_push(before.grants, estimate);
                assert(self@.queue =~= before.queue.skip(1));
                if estimate > before.bytes {
                    assert(before.grants.len() == 0);
                }
            }
            return Ok(Some(BudgetGuard { bytes: estimate }));
        }
        match self.policy {
            BudgetPolicy::FailFast => {
                self.leave(ticket);
                Err(Error::ResourceBusy("memory budget cannot fit the job right now"))
            },
            BudgetPolicy::Wait => match stop {
                Some(reason) => {
                    self.leave(ticket);
                    Err(Error::Cancelled(reason))
                },
                None => Ok(None),
            },
        }
    }

    /// Whether a ticket's turn has come.
    fn can_run(&self, ticket: u64, estimate: u64) -> (b: bool)
        requires
            self.wf(),
        ensures
            b == self@.fits(ticket, estimate),
            b ==> self.used + estimate <= u64::MAX,
            b ==> self.jobs < usize::MAX,
    {
        if self.queue.len() == 0 || self.queue[0] != ticket {
            return false;
        }
        if estimate > self.bytes {
            self.used == 0 && self.jobs == 0
        } else {
            match self.used.checked_add(estimate) {
                Some(sum) => sum <= self.bytes && self.jobs < self.max_jobs,
                None => false,
            }
        }
    }

    /// Drop `ticket` out of the queue (a waiter leaving before its grant).
    fn leave(&mut self, ticket: u64)
        requires
            old(self).wf(),
        ensures
            final(self).wf(),
            final(self)@ == old(self)@.without(ticket),
    {
        let ghost q = self.queue@;
        let mut i: usize = 0;
        while i < self.queue.len() && self.queue[i] != ticket
            invariant
                i <= self.queue@.len(),
                *self == *old(self),
                q == self.queue@,
                forall|j: int| 0 <= j < i ==> q[j] != ticket,
            decreases self.queue@.len() - i,
        {
            i = i + 1;
        }
        if i < self.queue.len() {
            self.queue.remove(i);
            proof {
                lemma_filter_one(q, ticket, i as int);
            }
        } else {
            proof {
                lemma_filter_none(q, ticket);
            }
        }
    }

    /// Give a grant back.
    pub fn release(&mut self, guard: BudgetGuard)
        requires
            old(self).wf(),
            old(self)@.grants.contains(guard.granted()),
        ensures
            final(self).wf(),
            final(self)@ == (BudgetView {
                grants: old(self)@.grants.remove(old(self)@.grants.index_of(guard.granted())),
                ..old(self)@
            }),
    {
        let ghost i = self.grants@.index_of(guard.bytes);
        proof {
            lemma_total_remove(self.grants@, i);
        }
        self.used = self.used - guard.bytes;
        self.jobs = self.jobs - 1;
        self.grants = Ghost(self.grants@.remove(i));
    }
}

/// Filtering out a ticket that does not wait changes nothing.
proof fn lemma_filter_none(q: Seq<u64>, ticket: u64)
    requires
        forall|j: int| 0 <= j < q.len() ==> q[j] != ticket,
    ensures
        drop_ticket(q, ticket) == q,
    decreases q.len(),
{
    reveal(Seq::filter);
    if q.len() > 0 {
        lemma_filter_none(q.drop_last(), ticket);
        assert(q.drop_last().push(q.last()) =~= q);
    }
}

/// Filtering out a ticket that waits once removes it.
proof fn lemma_filter_one(q: Seq<u64>, ticket: u64, i: int)
    requires
        0 <= i < q.len(),
        q[i] == ticket,
        forall|a: int, b: int| 0 <= a < b < q.len() ==> #[trigger] q[a] < #[trigger] q[b],
    ensures
        drop_ticket(q, ticket) == q.remove(i),
    decreases q.len(),
{
    reveal(Seq::filter);
    let front = q.drop_last();
    if i == q.len() - 1 {
        assert forall|j: int| 0 <= j < front.len() implies front[j] != ticket by {
            assert(q[j] < q[i]);
        }
        lemma_filter_none(front, ticket);
        assert(q.remove(i) =~= front);
    } else {
        assert(q[i] < q[q.len() - 1]);
        assert forall|a: int, b: int| 0 <= a < b < front.len() implies #[trigger] front[a]
            < #[trigger] front[b] by {
            assert(q[a] < q[b]);
        }
        lemma_filter_one(front, ticket, i);
        assert(q.remove(i) =~= front.remove(i).push(q.last()));
    }
}

/// Whatever was granted and given back, the budget is kept: no more than `max_jobs` jobs hold a
/// grant, and together they hold no more than the budget, unless one job that is larger than the
/// budget runs alone.
pub proof fn law_budget_is_kept(b: &MemoryBudget)
    requires
        b.wf(),
    ensures
        b@.sound(),
        b@.used() <= b@.bytes || b@.runs_oversize(),
        b@.max_jobs >= 1 ==> b@.grants.len() <= b@.max_jobs,
        b@.grants.len() <= b@.max_jobs || b@.runs_oversize(),
{
}

/// While `max_jobs` jobs hold a grant, no other job fits, although its bytes might; once any of
/// them gives its grant back, a job without bytes fits again.
pub proof fn law_jobs_are_capped(b: BudgetView, ticket: u64, estimate: u64, i: int)
    requires
        b.sound(),
        b.max_jobs >= 1,
        b.grants.len() == b.max_jobs,
        0 <= i < b.grants.len(),
    ensures
        !b.fits(ticket, estimate),
        (BudgetView { grants: b.grants.remove(i), queue: seq![ticket], ..b }).fits(ticket, 0),
{
    lemma_total_remove(b.grants, i);
    if b.grants.len() == 1 {
        assert(b.grants.remove(i) =~= Seq::empty());
    }
}

/// Grants are first-come-first-served: while a ticket waits, no ticket that was drawn later fits.
pub proof fn law_first_come_first_served(b: BudgetView, early: u64, late: u64, estimate: u64)
    requires
        b.sound(),
        b.queue.contains(early),
        early < late,
    ensures
        !b.fits(late, estimate),
{
    let i = b.queue.index_of(early);
    if i > 0 {
        assert(b.queue[0] < b.queue[i]);
    }
}

/// A job larger than the budget runs alone: while it holds its grant, no other job fits.
pub proof fn law_oversize_runs_alone(b: BudgetView, big: u64, ticket: u64, estimate: u64)
    requires
        b.sound(),
        big > b.bytes,
        b.grants.contains(big),
    ensures
        b.grants.len() == 1,
        !b.fits(ticket, estimate),
{
    let i = b.grants.index_of(big);
    lemma_total_remove(b.grants, i);
}

/// Giving a grant back leaves the budget as it was before the grant, whatever else is out.
pub proof fn law_release_undoes_grant(b: BudgetView, estimate: u64)
    ensures
        ({
            let after = b.granting(estimate);
            after.used() == b.used() + estimate && after.grants.remove(b.grants.len() as int)
                == b.grants
        }),
{
    lemma_total_push(b.grants, estimate);
    assert(b.grants.push(estimate).remove(b.grants.len() as int) =~= b.grants);
}

} // verus!
