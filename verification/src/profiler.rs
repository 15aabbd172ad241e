//! The profiler's bookkeeping: the queue of applications waiting to be profiled, and the
//! measured runs grouped by application.

use vstd::prelude::*;

use crate::record::Record;

verus! {

/// Applications to profile together.
#[derive(Debug)]
pub struct ProfilingJob {
    pub applications: Vec<String>,
}

/// What a worker finds when it asks the queue for work.
#[derive(Debug)]
pub enum JobPoll {
    /// The next job, taken off the queue.
    Ready(ProfilingJob),
    /// No job yet; the worker waits for one.
    Pending,
    /// The queue was ended; no job will come.
    Closed,
}

/// The queue after `jobs` are handed in: appended while open, ignored once ended.
pub open spec fn profile_spec(q: Option<Seq<ProfilingJob>>, jobs: Seq<ProfilingJob>) -> Option<Seq<ProfilingJob>> {
    match q {
        Some(s) => Some(s + jobs),
        None => None,
    }
}

/// What a worker asking the queue for work receives, and the queue afterwards: the first
/// waiting job, taken off the queue; `Pending` when none waits; `Closed` once ended.
pub open spec fn poll_spec(q: Option<Seq<ProfilingJob>>) -> (JobPoll, Option<Seq<ProfilingJob>>) {
    match q {
        None => (JobPoll::Closed, None),
        Some(s) => if s.len() > 0 {
            (JobPoll::Ready(s[0]), Some(s.drop_first()))
        } else {
            (JobPoll::Pending, Some(s))
        },
    }
}

/// What `n` successive requests for work receive.
pub open spec fn polls(q: Option<Seq<ProfilingJob>>, n: nat) -> Seq<JobPoll>
    decreases n,
{
    if n == 0 {
        Seq::<JobPoll>::empty()
    } else {
        seq![poll_spec(q).0] + polls(poll_spec(q).1, (n - 1) as nat)
    }
}

/// Jobs waiting to be profiled, first in first out, until the queue is ended.
#[derive(Debug)]
pub struct ProfilingQueue {
    jobs: Option<Vec<ProfilingJob>>,
}

impl ProfilingQueue {
    pub closed spec fn view(&self) -> Option<Seq<ProfilingJob>> {
        match self.jobs {
            Some(v) => Some(v@),
            None => None,
        }
    }

    /// An open queue without jobs.
    pub fn new() -> (res: Self)
        ensures
            res@ == Some(Seq::<ProfilingJob>::empty()),
    {
        ProfilingQueue { jobs: Some(Vec::new()) }
    }

    /// Appends jobs, in order, to an open queue; an ended queue ignores them.
    pub fn profile(&mut self, unprofiled_applications: Vec<ProfilingJob>)
        ensures
            final(self)@ == profile_spec(old(self)@, unprofiled_applications@),
    {
        let mut incoming = unprofiled_applications;
        let ghost all = incoming@;
        let n0 = incoming.len();
        assert(all.len() == n0);
        match self.jobs.take() {
            Some(mut queue) => {
                let ghost start = queue@;
                let mut k: usize = 0;
                while incoming.len() > 0
                    invariant
                        k + incoming@.len() == all.len(),
                        all.len() <= usize::MAX,
                        queue@ == start + all.take(k as int),
                        forall|j: int| 0 <= j < incoming@.len() ==> #[trigger] incoming@[j] == all[k + j],
                    decreases incoming@.len(),
                {
                    let job = incoming.remove(0);
                    queue.push(job);
                    assert(all.take(k + 1) =~= all.take(k as int).push(all[k as int]));
                    assert(queue@ =~= start + all.take(k + 1));
                    k = k + 1;
                }
                assert(all.take(k as int) =~= all);
                self.jobs = Some(queue);
            },
            None => {
                self.jobs = None;
            },
        }
    }

    /// Takes the next job if there is one; says whether to wait or stop otherwise.
    pub fn wait_for_job(&mut self) -> (res: JobPoll)
        ensures
            res == poll_spec(old(self)@).0,
            final(self)@ == poll_spec(old(self)@).1,
    {
        match self.jobs.take() {
            None => {
                self.jobs = None;
                JobPoll::Closed
            },
            Some(mut queue) => {
                if queue.len() > 0 {
                    let job = queue.remove(0);
                    self.jobs = Some(queue);
                    JobPoll::Ready(job)
                } else {
                    self.jobs = Some(queue);
                    JobPoll::Pending
                }
            },
        }
    }

    /// Ends the queue: waiting jobs are dropped and workers are told to stop.
    pub fn end(&mut self)
        ensures
            final(self)@ == None::<Seq<ProfilingJob>>,
    {
        self.jobs = None;
    }
}

/// Requests for work on an open queue receive its waiting jobs in order.
pub proof fn lemma_polls_in_order(s: Seq<ProfilingJob>)
    ensures
        polls(Some(s), s.len()) == s.map_values(|j: ProfilingJob| JobPoll::Ready(j)),
    decreases s.len(),
{
    if s.len() > 0 {
        lemma_polls_in_order(s.drop_first());
        assert(seq![JobPoll::Ready(s[0])] + s.drop_first().map_values(|j: ProfilingJob| JobPoll::Ready(j))
            =~= s.map_values(|j: ProfilingJob| JobPoll::Ready(j)));
    } else {
        assert(s.map_values(|j: ProfilingJob| JobPoll::Ready(j)) =~= Seq::<JobPoll>::empty());
    }
}

/// Jobs come out first in, first out: after `jobs` are handed to an open queue that holds
/// `q`, requests for work receive the jobs of `q` and then those of `jobs`, in order, and
/// then are told to wait.
pub proof fn law_queue_fifo(q: Seq<ProfilingJob>, jobs: Seq<ProfilingJob>)
    ensures
        profile_spec(Some(q), jobs) == Some(q + jobs),
        polls(profile_spec(Some(q), jobs), (q + jobs).len()) == (q + jobs).map_values(
            |j: ProfilingJob| JobPoll::Ready(j),
        ),
        polls(profile_spec(Some(q), jobs), (q + jobs).len() + 1) == (q + jobs).map_values(
            |j: ProfilingJob| JobPoll::Ready(j),
        ).push(JobPoll::Pending),
{
    lemma_polls_in_order(q + jobs);
    lemma_polls_then_pending(q + jobs);
}

/// Once the waiting jobs are taken, the next request is told to wait.
pub proof fn lemma_polls_then_pending(s: Seq<ProfilingJob>)
    ensures
        polls(Some(s), s.len() + 1) == polls(Some(s), s.len()).push(JobPoll::Pending),
    decreases s.len(),
{
    if s.len() > 0 {
        lemma_polls_then_pending(s.drop_first());
        assert(polls(Some(s), s.len() + 1) == seq![JobPoll::Ready(s[0])] + polls(
            Some(s.drop_first()),
            s.drop_first().len() + 1,
        ));
        assert(polls(Some(s), s.len()) == seq![JobPoll::Ready(s[0])] + polls(
            Some(s.drop_first()),
            s.drop_first().len(),
        ));
        assert((seq![JobPoll::Ready(s[0])] + polls(Some(s.drop_first()), s.drop_first().len())).push(
            JobPoll::Pending,
        ) =~= seq![JobPoll::Ready(s[0])] + polls(Some(s.drop_first()), s.drop_first().len()).push(
            JobPoll::Pending,
        ));
    } else {
        assert(poll_spec(Some(s)) == (JobPoll::Pending, Some(s)));
        assert(polls(Some(s), 0) == Seq::<JobPoll>::empty());
        assert(polls(Some(s), 1) =~= seq![JobPoll::Pending]);
    }
}

/// An ended queue stays ended: handing in jobs changes nothing.
pub proof fn law_ended_queue_ignores_jobs(jobs: Seq<ProfilingJob>)
    ensures
        profile_spec(None, jobs) == None::<Seq<ProfilingJob>>,
{
}

/// The names a sequence of records belongs to.
pub open spec fn table_names(es: Seq<(String, Vec<Record>)>) -> Seq<Seq<char>> {
    es.map_values(|e: (String, Vec<Record>)| e.0@)
}

/// Runs grouped by the application they measured.
#[derive(Debug)]
pub struct ProfileTable {
    entries: Vec<(String, Vec<Record>)>,
}

impl ProfileTable {
    /// Every application has one group, and each group's runs are of that application.
    #[verifier::type_invariant]
    spec fn wf(&self) -> bool {
        &&& table_names(self.entries@).no_duplicates()
        &&& forall|i: int, j: int|
            0 <= i < self.entries@.len() && 0 <= j < self.entries@[i].1@.len() ==> (#[trigger] self.entries@[i].1@[j]).app_view()
                == self.entries@[i].0@
    }

    /// The runs of each application, in the order they were ingested.
    pub closed spec fn view(&self) -> Map<Seq<char>, Seq<Record>> {
        crate::registry::assoc(
            table_names(self.entries@),
            self.entries@.map_values(|e: (String, Vec<Record>)| e.1@),
        )
    }

    /// The applications with runs, in the order of their first ingested runs.
    pub closed spec fn order(&self) -> Seq<Seq<char>> {
        table_names(self.entries@)
    }

    /// An empty table.
    pub fn new() -> (res: Self)
        ensures
            res@ == Map::<Seq<char>, Seq<Record>>::empty(),
            res.order() == Seq::<Seq<char>>::empty(),
    {
        let res = ProfileTable { entries: Vec::new() };
        assert(res.order() =~= Seq::<Seq<char>>::empty());
        assert(res@ =~= Map::<Seq<char>, Seq<Record>>::empty());
        res
    }

    /// Adds a run to its application's group, creating the group on the first run.
    pub fn ingest_record(&mut self, record: Record)
        ensures
            final(self)@ == old(self)@.insert(
                record.app_view(),
                if old(self)@.contains_key(record.app_view()) {
                    old(self)@[record.app_view()].push(record)
                } else {
                    seq![record]
                },
            ),
            final(self).order() == if old(self)@.contains_key(record.app_view()) {
                old(self).order()
            } else {
                old(self).order().push(record.app_view())
            },
    {
        proof {
            use_type_invariant(&*self);
        }
        let ghost es = self.entries@;
        let ghost names = table_names(es);
        let ghost runs = es.map_values(|e: (String, Vec<Record>)| e.1@);
        let ghost r = record;
        let name = record.name().clone();
        let mut i: usize = 0;
        while i < self.entries.len() && !(self.entries[i].0 == name)
            invariant
                self.entries@ == es,
                i <= es.len(),
                name@ == record.app_view(),
                forall|j: int| 0 <= j < i ==> es[j].0@ != name@,
            decreases es.len() - i,
        {
            i = i + 1;
        }
        if i < self.entries.len() {
            assert(names[i as int] == name@);
            let mut entries: Vec<(String, Vec<Record>)> = Vec::new();
            std::mem::swap(&mut entries, &mut self.entries);
            let (key, mut group) = entries.remove(i);
            let ghost g0 = group@;
            group.push(record);
            entries.insert(i, (key, group));
            proof {
                let es2 = entries@;
                assert(table_names(es2) =~= names);
                assert(es2.map_values(|e: (String, Vec<Record>)| e.1@) =~= runs.update(i as int, g0.push(r)));
                crate::registry::lemma_assoc_update(names, runs, i as int, g0.push(r));
                crate::registry::lemma_assoc_at(names, runs, i as int);
                assert(g0 == runs[i as int]);
                assert forall|a: int, b: int|
                    0 <= a < es2.len() && 0 <= b < es2[a].1@.len() implies (#[trigger] es2[a].1@[b]).app_view()
                        == es2[a].0@ by {
                    if a != i {
                        assert(es2[a] == es[a]);
                    } else if b < g0.len() {
                        assert(es2[a].1@[b] == es[a].1@[b]);
                    }
                }
            }
            self.entries = entries;
        } else {
            proof {
                assert(!names.contains(name@)) by {
                    if names.contains(name@) {
                        let j = choose|j: int| 0 <= j < names.len() && names[j] == name@;
                        assert(es[j].0@ == name@);
                    }
                }
            }
            let mut group: Vec<Record> = Vec::new();
            group.push(record);
            let mut entries: Vec<(String, Vec<Record>)> = Vec::new();
            std::mem::swap(&mut entries, &mut self.entries);
            entries.push((name, group));
            proof {
                let es2 = entries@;
                assert(table_names(es2) =~= names.push(r.app_view()));
                assert(es2.map_values(|e: (String, Vec<Record>)| e.1@) =~= runs.push(seq![r]));
                crate::registry::lemma_assoc_push(names, runs, r.app_view(), seq![r]);
                assert forall|a: int, b: int|
                    0 <= a < es2.len() && 0 <= b < es2[a].1@.len() implies (#[trigger] es2[a].1@[b]).app_view()
                        == es2[a].0@ by {
                    if a < es.len() {
                        assert(es2[a] == es[a]);
                    }
                }
            }
            self.entries = entries;
        }
    }

    /// Whether no run has been ingested.
    pub fn is_empty(&self) -> (res: bool)
        ensures
            res == (self@ == Map::<Seq<char>, Seq<Record>>::empty()),
    {
        if self.entries.len() == 0 {
            assert(self@ =~= Map::<Seq<char>, Seq<Record>>::empty());
            true
        } else {
            assert(self@.contains_key(table_names(self.entries@)[0]));
            false
        }
    }

    /// The number of applications with runs; the order lists each of them once.
    pub fn len(&self) -> (res: usize)
        ensures
            res == self@.len(),
            self.order().len() == res,
            self.order().no_duplicates(),
            forall|k: Seq<char>| #[trigger] self@.contains_key(k) <==> self.order().contains(k),
    {
        proof {
            use_type_invariant(self);
            let names = table_names(self.entries@);
            names.unique_seq_to_set();
            assert(self@.dom() =~= names.to_set());
        }
        self.entries.len()
    }

    /// The application at position `i` and its runs.
    pub fn group(&self, i: usize) -> (res: (&String, &Vec<Record>))
        requires
            i < self@.len(),
        ensures
            res.0@ == self.order()[i as int],
            self@.contains_key(res.0@),
            self@[res.0@] == res.1@,
    {
        proof {
            use_type_invariant(self);
            let names = table_names(self.entries@);
            names.unique_seq_to_set();
            assert(self@.dom() =~= names.to_set());
            crate::registry::lemma_assoc_at(names, self.entries@.map_values(|e: (String, Vec<Record>)| e.1@), i as int);
        }
        (&self.entries[i].0, &self.entries[i].1)
    }
}

} // verus!
