//! Job centre: named queues of prioritised jobs that clients put, get,
//! delete and abort.
use vstd::prelude::*;
use std::collections::HashMap;
use vstd::multiset::Multiset;
use vstd::string::StringExecFns;
use crate::util::{dec_text, decimal_string};
use crate::jobcentre::msg::{Msg, Put, Get, Response, ResponseView, ok_view, ok_and_id_view, ok_and_job_view, no_job_view, error_view};

pub mod msg;

verus! {

broadcast use {vstd::seq_lib::group_to_multiset_ensures, vstd::std_specs::hash::group_hash_axioms, vstd::multiset::group_multiset_axioms};

/// A job: its id, its priority, the queue it belongs to, and its payload
/// as JSON text.
#[derive(PartialEq, Eq, Debug, Clone)]
pub struct Job {
    pub id: u32,
    pub prio: u32,
    pub queue: String,
    pub job: String,
}

/// A job as plain values.
pub struct JobView {
    pub id: u32,
    pub prio: u32,
    pub queue: Seq<char>,
    pub job: Seq<char>,
}

impl View for Job {
    type V = JobView;

    open spec fn view(&self) -> JobView {
        JobView { id: self.id, prio: self.prio, queue: self.queue@, job: self.job@ }
    }
}

impl Job {
    pub fn new(id: u32, prio: u32, queue: &str, job: String) -> (r: Self)
        ensures
            r@ == (JobView { id, prio, queue: queue@, job: job@ }),
    {
        Self { id, prio, queue: queue.to_owned(), job }
    }

    /// A copy of the job.
    pub fn duplicate(&self) -> (r: Self)
        ensures
            r@ == self@,
    {
        Self { id: self.id, prio: self.prio, queue: self.queue.clone(), job: self.job.clone() }
    }
}

/// Where a job stands: waiting in its queue, worked on by a client, or
/// deleted.
#[derive(PartialEq, Eq, Debug, Clone)]
pub enum JobState {
    Unassigned,
    Assigned(u32, Job),
    Deleted,
}

/// Whether `states` records job `id` as deleted.
pub open spec fn is_deleted(states: Map<u32, JobState>, id: u32) -> bool {
    states.contains_key(id) && states[id] is Deleted
}

/// The jobs of `s` as plain values.
pub open spec fn job_views(s: Seq<Job>) -> Seq<JobView> {
    s.map_values(|j: Job| j@)
}

/// Whether `job_state` records job `id` as deleted.
fn deleted(job_state: &HashMap<u32, JobState>, id: u32) -> (r: bool)
    ensures
        r == is_deleted(job_state@, id),
{
    match job_state.get(&id) {
        Some(JobState::Deleted) => true,
        _ => false,
    }
}

/// The index of the first job of highest priority.
fn index_of_max(jobs: &Vec<Job>) -> (r: usize)
    requires
        jobs@.len() > 0,
    ensures
        r < jobs@.len(),
        forall|i: int| 0 <= i < jobs@.len() ==> #[trigger] jobs@[i].prio <= jobs@[r as int].prio,
{
    let mut best: usize = 0;
    let mut i: usize = 1;
    while i < jobs.len()
        invariant
            best < i <= jobs@.len(),
            forall|j: int| 0 <= j < i ==> #[trigger] jobs@[j].prio <= jobs@[best as int].prio,
        decreases jobs@.len() - i,
    {
        if jobs[i].prio > jobs[best].prio {
            best = i;
        }
        i = i + 1;
    }
    best
}

/// One named queue: its jobs, and the clients waiting for a job from it,
/// each with all the queues it waits on.
pub struct Queue {
    heap: Vec<Job>,
    pub waiting_clients: HashMap<u32, Vec<String>>,
}

impl Queue {
    /// The jobs in the queue, in no particular order.
    pub closed spec fn jobs(&self) -> Seq<JobView> {
        job_views(self.heap@)
    }

    /// The waiting clients, each with the names of the queues it waits on.
    pub closed spec fn waiting(&self) -> Map<u32, Seq<Seq<char>>> {
        self.waiting_clients@.map_values(|names: Vec<String>| names@.map_values(|n: String| n@))
    }

    pub fn new() -> (r: Self)
        ensures
            r.jobs() == Seq::<JobView>::empty(),
            r.waiting() == Map::<u32, Seq<Seq<char>>>::empty(),
    {
        let r = Self { heap: Vec::new(), waiting_clients: HashMap::new() };
        assert(r.jobs() =~= Seq::<JobView>::empty());
        assert(r.waiting() =~= Map::<u32, Seq<Seq<char>>>::empty());
        r
    }

    pub fn push(&mut self, job: Job)
        ensures
            final(self).jobs().to_multiset() == old(self).jobs().to_multiset().insert(job@),
            final(self).waiting() == old(self).waiting(),
    {
        let ghost v = job@;
        self.heap.push(job);
        assert(self.jobs() =~= old(self).jobs().push(v));
    }

    /// Drops deleted jobs from the top of the queue, each of the highest
    /// priority left, until a job that is not deleted is on top.
    fn skip_deleted(&mut self, job_state: &HashMap<u32, JobState>) -> (r: Option<usize>)
        ensures
            final(self).waiting() == old(self).waiting(),
            exists|gone: Seq<JobView>| {
                &&& old(self).jobs().to_multiset() == final(self).jobs().to_multiset().add(gone.to_multiset())
                &&& forall|x: JobView| #[trigger] gone.contains(x) ==> is_deleted(job_state@, x.id)
                    && forall|y: JobView| #[trigger] final(self).jobs().contains(y) ==> y.prio <= x.prio
            },
            forall|x: JobView| #[trigger] old(self).jobs().contains(x) && !is_deleted(job_state@, x.id)
                ==> final(self).jobs().contains(x),
            match r {
                None => final(self).jobs().len() == 0,
                Some(i) => i < final(self).jobs().len() && !is_deleted(job_state@, final(self).jobs()[i as int].id)
                    && forall|y: JobView| #[trigger] final(self).jobs().contains(y) ==> y.prio <= final(self).jobs()[i as int].prio,
            },
    {
        let ghost mut gone: Seq<JobView> = seq![];
        assert(old(self).jobs().to_multiset() =~= self.jobs().to_multiset().add(gone.to_multiset()));
        loop
            invariant
                self.waiting() == old(self).waiting(),
                old(self).jobs().to_multiset() == self.jobs().to_multiset().add(gone.to_multiset()),
                forall|x: JobView| #[trigger] gone.contains(x) ==> is_deleted(job_state@, x.id)
                    && forall|y: JobView| #[trigger] self.jobs().contains(y) ==> y.prio <= x.prio,
                forall|x: JobView| #[trigger] old(self).jobs().contains(x) && !is_deleted(job_state@, x.id)
                    ==> self.jobs().contains(x),
            decreases self.heap@.len(),
        {
            if self.heap.len() == 0 {
                return None;
            }
            let i = index_of_max(&self.heap);
            proof {
                assert forall|y: JobView| #[trigger] self.jobs().contains(y) implies y.prio <= self.jobs()[i as int].prio by {
                    let k = choose|k: int| 0 <= k < self.jobs().len() && self.jobs()[k] == y;
                    assert(self.heap@[k].prio <= self.heap@[i as int].prio);
                }
            }
            if !deleted(job_state, self.heap[i].id) {
                return Some(i);
            }
            let ghost top = self.jobs()[i as int];
            let ghost before = self.jobs();
            let _ = self.heap.remove(i);
            proof {
                assert(self.jobs() =~= before.remove(i as int));
                let old_gone = gone;
                gone = gone.push(top);
                assert forall|y: JobView| #[trigger] self.jobs().contains(y) implies before.contains(y) by {
                    let k = choose|k: int| 0 <= k < self.jobs().len() && self.jobs()[k] == y;
                    if k < i {
                        assert(before[k] == y);
                    } else {
                        assert(before[k + 1] == y);
                    }
                }
                assert forall|x: JobView| #[trigger] gone.contains(x) implies is_deleted(job_state@, x.id)
                    && forall|y: JobView| #[trigger] self.jobs().contains(y) ==> y.prio <= x.prio by {
                    if x != top {
                        let k = choose|k: int| 0 <= k < gone.len() && gone[k] == x;
                        assert(old_gone[k] == x);
                        assert(old_gone.contains(x));
                    }
                    assert forall|y: JobView| #[trigger] self.jobs().contains(y) implies y.prio <= x.prio by {
                        assert(before.contains(y));
                    }
                }
                assert(old(self).jobs().to_multiset() =~= self.jobs().to_multiset().add(gone.to_multiset()));
                assert forall|x: JobView| #[trigger] old(self).jobs().contains(x) && !is_deleted(job_state@, x.id)
                    implies self.jobs().contains(x) by {
                    assert(before.contains(x));
                    let k = choose|k: int| 0 <= k < before.len() && before[k] == x;
                    assert(k != i);
                    if k < i {
                        assert(self.jobs()[k] == x);
                    } else {
                        assert(self.jobs()[k - 1] == x);
                    }
                }
            }
        }
    }

    /// The job of highest priority that is not deleted, left in the queue;
    /// the deleted jobs on top of it are dropped. `None` where every job is
    /// deleted, and then the queue is emptied.
    pub fn peek(&mut self, job_state: &HashMap<u32, JobState>) -> (r: Option<Job>)
        ensures
            final(self).waiting() == old(self).waiting(),
            exists|gone: Seq<JobView>| {
                &&& old(self).jobs().to_multiset() == final(self).jobs().to_multiset().add(gone.to_multiset())
                &&& forall|x: JobView| #[trigger] gone.contains(x) ==> is_deleted(job_state@, x.id)
                    && forall|y: JobView| #[trigger] final(self).jobs().contains(y) ==> y.prio <= x.prio
            },
            forall|x: JobView| #[trigger] old(self).jobs().contains(x) && !is_deleted(job_state@, x.id)
                ==> final(self).jobs().contains(x),
            match r {
                None => final(self).jobs().len() == 0 && forall|x: JobView|
                    #[trigger] old(self).jobs().contains(x) ==> is_deleted(job_state@, x.id),
                Some(j) => final(self).jobs().contains(j@) && !is_deleted(job_state@, j.id)
                    && forall|y: JobView| #[trigger] final(self).jobs().contains(y) ==> y.prio <= j.prio,
            },
    {
        match self.skip_deleted(job_state) {
            None => {
                proof {
                    lemma_all_gone(old(self).jobs(), self.jobs(), job_state@);
                }
                None
            },
            Some(i) => {
                let j = self.heap[i].duplicate();
                assert(self.jobs()[i as int] == j@);
                Some(j)
            },
        }
    }

    /// Takes the job of highest priority that is not deleted out of the
    /// queue; the deleted jobs on top of it are dropped. `None` where every
    /// job is deleted, and then the queue is emptied.
    pub fn pop(&mut self, job_state: &HashMap<u32, JobState>) -> (r: Option<Job>)
        ensures
            final(self).waiting() == old(self).waiting(),
            match r {
                None => final(self).jobs().len() == 0 && forall|x: JobView|
                    #[trigger] old(self).jobs().contains(x) ==> is_deleted(job_state@, x.id),
                Some(j) => {
                    &&& !is_deleted(job_state@, j.id)
                    &&& forall|y: JobView| #[trigger] final(self).jobs().contains(y) ==> y.prio <= j.prio
                    &&& exists|gone: Seq<JobView>| {
                        &&& old(self).jobs().to_multiset() == final(self).jobs().to_multiset().insert(j@).add(
                            gone.to_multiset(),
                        )
                        &&& forall|x: JobView| #[trigger] gone.contains(x) ==> is_deleted(job_state@, x.id)
                            && j.prio <= x.prio
                    }
                },
            },
    {
        match self.skip_deleted(job_state) {
            None => {
                proof {
                    lemma_all_gone(old(self).jobs(), self.jobs(), job_state@);
                }
                None
            },
            Some(i) => {
                let ghost before = self.jobs();
                let ghost gone = choose|gone: Seq<JobView>| {
                    &&& old(self).jobs().to_multiset() == before.to_multiset().add(gone.to_multiset())
                    &&& forall|x: JobView| #[trigger] gone.contains(x) ==> is_deleted(job_state@, x.id)
                        && forall|y: JobView| #[trigger] before.contains(y) ==> y.prio <= x.prio
                };
                let j = self.heap.remove(i);
                proof {
                    assert(self.jobs() =~= before.remove(i as int));
                    assert(before.to_multiset() =~= self.jobs().to_multiset().insert(j@));
                    assert(old(self).jobs().to_multiset() =~= self.jobs().to_multiset().insert(j@).add(
                        gone.to_multiset(),
                    ));
                    assert forall|y: JobView| #[trigger] self.jobs().contains(y) implies y.prio <= j.prio by {
                        let k = choose|k: int| 0 <= k < self.jobs().len() && self.jobs()[k] == y;
                        if k < i {
                            assert(before[k] == y);
                        } else {
                            assert(before[k + 1] == y);
                        }
                        assert(before.contains(y));
                    }
                    assert forall|x: JobView| #[trigger] gone.contains(x) implies is_deleted(job_state@, x.id)
                        && j.prio <= x.prio by {
                        assert(before.contains(j@));
                    }
                }
                Some(j)
            },
        }
    }
}

/// Where the jobs left are none, what was there is all gone.
proof fn lemma_all_gone(old_jobs: Seq<JobView>, jobs: Seq<JobView>, states: Map<u32, JobState>)
    requires
        jobs.len() == 0,
        exists|gone: Seq<JobView>| {
            &&& old_jobs.to_multiset() == jobs.to_multiset().add(gone.to_multiset())
            &&& forall|x: JobView| #[trigger] gone.contains(x) ==> is_deleted(states, x.id)
                && forall|y: JobView| #[trigger] jobs.contains(y) ==> y.prio <= x.prio
        },
    ensures
        forall|x: JobView| #[trigger] old_jobs.contains(x) ==> is_deleted(states, x.id),
{
    let gone = choose|gone: Seq<JobView>| {
        &&& old_jobs.to_multiset() == jobs.to_multiset().add(gone.to_multiset())
        &&& forall|x: JobView| #[trigger] gone.contains(x) ==> is_deleted(states, x.id)
            && forall|y: JobView| #[trigger] jobs.contains(y) ==> y.prio <= x.prio
    };
    assert(jobs.to_multiset() =~= Multiset::<JobView>::empty());
    assert forall|x: JobView| #[trigger] old_jobs.contains(x) implies is_deleted(states, x.id) by {
        assert(old_jobs.to_multiset().count(x) > 0);
        assert(gone.to_multiset().count(x) > 0);
        assert(gone.contains(x));
    }
}

/// A sequence whose multiset is that of two others holds what they hold.
proof fn lemma_in_parts(whole: Seq<JobView>, part: Seq<JobView>, gone: Seq<JobView>, x: JobView)
    requires
        whole.to_multiset() == part.to_multiset().add(gone.to_multiset()),
    ensures
        whole.contains(x) <==> (part.contains(x) || gone.contains(x)),
{
    assert(whole.to_multiset().count(x) == part.to_multiset().count(x) + gone.to_multiset().count(x));
}

/// A sequence whose multiset is that of two others and one more job holds
/// what they hold.
proof fn lemma_in_parts_and(whole: Seq<JobView>, part: Seq<JobView>, j: JobView, gone: Seq<JobView>, x: JobView)
    requires
        whole.to_multiset() == part.to_multiset().insert(j).add(gone.to_multiset()),
    ensures
        whole.contains(x) <==> (part.contains(x) || x == j || gone.contains(x)),
{
    assert(whole.to_multiset().count(x) == part.to_multiset().insert(j).count(x) + gone.to_multiset().count(x));
    if x == j {
        assert(part.to_multiset().insert(j).count(x) == part.to_multiset().count(x) + 1);
    } else {
        assert(part.to_multiset().insert(j).count(x) == part.to_multiset().count(x));
    }
}

/// Where a job stands, as plain values.
pub enum JobStateView {
    Unassigned,
    Assigned(u32, JobView),
    Deleted,
}

/// A job's standing as plain values.
pub open spec fn state_view(s: JobState) -> JobStateView {
    match s {
        JobState::Unassigned => JobStateView::Unassigned,
        JobState::Assigned(c, j) => JobStateView::Assigned(c, j@),
        JobState::Deleted => JobStateView::Deleted,
    }
}

/// The first index of `name` in `names`.
pub open spec fn find_name(names: Seq<Seq<char>>, name: Seq<char>) -> Option<int> {
    if exists|i: int| 0 <= i < names.len() && names[i] == name {
        Some(choose|i: int| 0 <= i < names.len() && names[i] == name && forall|j: int| 0 <= j < i ==> names[j] != name)
    } else {
        None
    }
}

/// A copy of a list of names.
fn copy_names(names: &Vec<String>) -> (r: Vec<String>)
    ensures
        r@ == names@,
{
    let mut r: Vec<String> = Vec::new();
    let mut i: usize = 0;
    while i < names.len()
        invariant
            i <= names@.len(),
            r@ == names@.take(i as int),
        decreases names@.len() - i,
    {
        r.push(names[i].clone());
        assert(r@ =~= names@.take(i + 1));
        i = i + 1;
    }
    assert(names@.take(names@.len() as int) =~= names@);
    r
}

/// Any key of a map of waiting clients.
fn any_waiting(m: &HashMap<u32, Vec<String>>) -> (r: Option<u32>)
    ensures
        match r {
            Some(c) => m@.contains_key(c),
            None => m@.dom().len() == 0,
        },
{
    for (c, _) in it: m.iter()
        invariant
            it.seq().len() == m@.dom().len(),
            forall|i: int| 0 <= i < it.seq().len() ==> #[trigger] m@.contains_key(*it.seq()[i].0),
            it.index() == 0,
    {
        assert(m@.contains_key(*it.seq()[0].0));
        return Some(*c);
    }
    None
}

/// The whole job centre: its queues by name, where each job stands, and
/// the last ids handed out.
pub struct JobCentre {
    queues: Vec<(String, Queue)>,
    job_state: HashMap<u32, JobState>,
    last_job_id: u32,
    last_client_id: u32,
}

impl JobCentre {
    /// Where each job stands.
    pub closed spec fn states(&self) -> Map<u32, JobStateView> {
        self.job_state@.map_values(|s: JobState| state_view(s))
    }

    /// The names of the queues, in the order they were made.
    pub closed spec fn names(&self) -> Seq<Seq<char>> {
        self.queues@.map_values(|q: (String, Queue)| q.0@)
    }

    /// The jobs of the `i`-th queue.
    pub closed spec fn jobs_of(&self, i: int) -> Seq<JobView> {
        self.queues@[i].1.jobs()
    }

    /// The waiting clients of the `i`-th queue.
    pub closed spec fn waiting_of(&self, i: int) -> Map<u32, Seq<Seq<char>>> {
        self.queues@[i].1.waiting()
    }

    /// Each assigned job is recorded under its own id.
    pub closed spec fn wf(&self) -> bool {
        forall|k: u32| #[trigger] self.states().contains_key(k) && self.states()[k] is Assigned
            ==> self.states()[k]->Assigned_1.id == k
    }

    /// The last job id handed out.
    pub closed spec fn last_job(&self) -> u32 {
        self.last_job_id
    }

    /// The last client id handed out.
    pub closed spec fn last_client(&self) -> u32 {
        self.last_client_id
    }

    pub fn new() -> (r: Self)
        ensures
            r.states() == Map::<u32, JobStateView>::empty(),
            r.wf(),
            r.names() == Seq::<Seq<char>>::empty(),
            r.last_job() == 0,
            r.last_client() == 0,
    {
        let r = Self { queues: Vec::new(), job_state: HashMap::new(), last_job_id: 0, last_client_id: 0 };
        assert(r.states() =~= Map::<u32, JobStateView>::empty());
        assert(r.names() =~= Seq::<Seq<char>>::empty());
        r
    }

    /// A new client's id: one more than the last; `None` where that does not
    /// fit in a `u32`.
    pub fn new_client(&mut self) -> (r: Option<u32>)
        ensures
            match r {
                Some(id) => id == old(self).last_client() + 1 && final(self).last_client() == id,
                None => old(self).last_client() == u32::MAX,
            },
            final(self).states() == old(self).states(),
            final(self).names() == old(self).names(),
            final(self).last_job() == old(self).last_job(),
    {
        if self.last_client_id == u32::MAX {
            return None;
        }
        self.last_client_id = self.last_client_id + 1;
        Some(self.last_client_id)
    }

    /// The index of the queue named `name`.
    fn find_queue(&self, name: &str) -> (r: Option<usize>)
        ensures
            match r {
                Some(i) => find_name(self.names(), name@) == Some(i as int) && i < self.names().len()
                    && self.names()[i as int] == name@,
                None => find_name(self.names(), name@) is None,
            },
    {
        let wanted = String::from_str(name);
        let mut i: usize = 0;
        while i < self.queues.len()
            invariant
                i <= self.queues@.len(),
                wanted@ == name@,
                forall|j: int| 0 <= j < i ==> #[trigger] self.names()[j] != name@,
            decreases self.queues@.len() - i,
        {
            if self.queues[i].0 == wanted {
                assert(self.names()[i as int] == name@);
                proof {
                    let c = choose|k: int| 0 <= k < self.names().len() && self.names()[k] == name@ && forall|j: int| 0 <= j < k ==> self.names()[j] != name@;
                    if c < i {
                        assert(self.names()[c] != name@);
                    }
                    if c > i {
                        assert(self.names()[i as int] != name@);
                    }
                }
                return Some(i);
            }
            i = i + 1;
        }
        None
    }
}

impl Queue {
    /// Stops client `c` waiting on this queue, giving the queues it waited
    /// on.
    fn stop_waiting(&mut self, c: u32) -> (r: Option<Vec<String>>)
        ensures
            final(self).jobs() == old(self).jobs(),
            final(self).waiting() == old(self).waiting().remove(c),
            r is Some <==> old(self).waiting().contains_key(c),
    {
        let r = self.waiting_clients.remove(&c);
        assert(self.waiting() =~= old(self).waiting().remove(c));
        r
    }

    /// Lets client `c` wait on this queue, among the queues `names`.
    fn start_waiting(&mut self, c: u32, names: Vec<String>)
        ensures
            final(self).jobs() == old(self).jobs(),
            final(self).waiting() == old(self).waiting().insert(c, queue_names(names@)),
    {
        self.waiting_clients.insert(c, names);
        assert(self.waiting() =~= old(self).waiting().insert(c, queue_names(names@)));
    }

    /// Whether no client waits on this queue.
    fn nobody_waiting(&self) -> (r: bool)
        ensures
            r == (self.waiting().dom().len() == 0),
    {
        assert(self.waiting().dom() =~= self.waiting_clients@.dom());
        self.waiting_clients.len() == 0
    }
}

impl JobCentre {
    /// The index of the queue named `name`, made empty where there was none.
    fn queue_index(&mut self, name: &str) -> (r: usize)
        ensures
            r < final(self).names().len(),
            final(self).names()[r as int] == name@,
            find_name(final(self).names(), name@) == Some(r as int),
            match find_name(old(self).names(), name@) {
                Some(i) => i == r && final(self).names() == old(self).names() && final(self).jobs_of(i)
                    == old(self).jobs_of(i) && final(self).waiting_of(i) == old(self).waiting_of(i),
                None => r == old(self).names().len() && final(self).names() == old(self).names().push(name@)
                    && final(self).jobs_of(r as int).len() == 0 && final(self).waiting_of(r as int).dom().len() == 0
                    && final(self).waiting_of(r as int) == Map::<u32, Seq<Seq<char>>>::empty(),
            },
            forall|i: int| 0 <= i < old(self).names().len() ==> #[trigger] final(self).jobs_of(i) == old(self).jobs_of(i)
                && final(self).waiting_of(i) == old(self).waiting_of(i),
            final(self).states() == old(self).states(),
            final(self).job_state@ == old(self).job_state@,
            final(self).last_job() == old(self).last_job(),
            final(self).last_client() == old(self).last_client(),
    {
        match self.find_queue(name) {
            Some(i) => i,
            None => {
                let q = Queue::new();
                self.queues.push((name.to_owned(), q));
                assert(self.names() =~= old(self).names().push(name@));
                proof {
                    let n = old(self).names().len() as int;
                    assert(self.names()[n] == name@);
                    assert forall|j: int| 0 <= j < n implies #[trigger] self.names()[j] != name@ by {
                        assert(old(self).names()[j] != name@);
                    }
                    assert(0 <= n < self.names().len() && self.names()[n] == name@ && forall|j: int| 0 <= j < n ==> self.names()[j] != name@);
                    let c = choose|k: int| 0 <= k < self.names().len() && self.names()[k] == name@ && forall|j: int| 0 <= j < k ==> self.names()[j] != name@;
                    assert(c == n);
                    assert(self.waiting_of(n).dom() =~= Set::<u32>::empty());
                    assert(self.waiting_of(n) =~= Map::<u32, Seq<Seq<char>>>::empty());
                }
                self.queues.len() - 1
            },
        }
    }

    /// Stops client `c` waiting on each of the queues named (the first
    /// queue of each name; names of no queue are passed over).
    fn stop_waiting_everywhere(&mut self, c: u32, names: &Vec<String>)
        ensures
            final(self).states() == old(self).states(),
            final(self).names() == old(self).names(),
            final(self).last_job() == old(self).last_job(),
            final(self).last_client() == old(self).last_client(),
            forall|m: int| 0 <= m < old(self).names().len() ==> #[trigger] final(self).jobs_of(m) == old(self).jobs_of(m),
            forall|m: int| 0 <= m < old(self).names().len() ==> #[trigger] final(self).waiting_of(m) == unwaited(
                *old(self),
                c,
                queue_names(names@),
                m,
            ),
    {
        let mut i: usize = 0;
        while i < names.len()
            invariant
                i <= names@.len(),
                self.states() == old(self).states(),
                self.names() == old(self).names(),
                self.last_job_id == old(self).last_job_id,
                self.last_client_id == old(self).last_client_id,
                forall|m: int| 0 <= m < old(self).names().len() ==> #[trigger] self.jobs_of(m) == old(self).jobs_of(m),
                forall|m: int| 0 <= m < old(self).names().len() ==> #[trigger] self.waiting_of(m) == unwaited(
                    *old(self),
                    c,
                    queue_names(names@.take(i as int)),
                    m,
                ),
            decreases names@.len() - i,
        {
            let ghost before = *self;
            let ghost n = names@[i as int]@;
            assert(queue_names(names@.take(i + 1)) =~= queue_names(names@.take(i as int)).push(n));
            match self.find_queue(names[i].as_str()) {
                Some(j) => {
                    self.unwait(j, c);
                    proof {
                        assert forall|m: int| 0 <= m < old(self).names().len() implies #[trigger] self.waiting_of(m)
                            == unwaited(*old(self), c, queue_names(names@.take(i + 1)), m) by {
                            lemma_push_contains(queue_names(names@.take(i as int)), n, old(self).names()[m]);
                            lemma_find_name_first(old(self).names(), n);
                            if m == j {
                                assert(first_of_name(old(self).names(), m));
                                assert(queue_names(names@.take(i + 1))[i as int] == n);
                                assert(old(self).waiting_of(m).remove(c).remove(c) =~= old(self).waiting_of(m).remove(c));
                            } else if old(self).names()[m] == n && first_of_name(old(self).names(), m) {
                                if m < j {
                                    assert(old(self).names()[m] != n);
                                } else {
                                    assert(old(self).names()[j as int] != old(self).names()[m]);
                                }
                            }
                        }
                    }
                },
                None => {
                    proof {
                        lemma_find_name_first(old(self).names(), n);
                        assert forall|m: int| 0 <= m < old(self).names().len() implies #[trigger] self.waiting_of(m)
                            == unwaited(*old(self), c, queue_names(names@.take(i + 1)), m) by {
                            lemma_push_contains(queue_names(names@.take(i as int)), n, old(self).names()[m]);
                            assert(old(self).names()[m] != n);
                        }
                    }
                },
            }
            i = i + 1;
        }
        assert(names@.take(names@.len() as int) =~= names@);
    }

    /// Stops client `c` waiting on the `j`-th queue.
    fn unwait(&mut self, j: usize, c: u32)
        requires
            j < old(self).names().len(),
        ensures
            final(self).states() == old(self).states(),
            final(self).names() == old(self).names(),
            final(self).last_job() == old(self).last_job(),
            final(self).last_client() == old(self).last_client(),
            forall|m: int| 0 <= m < old(self).names().len() ==> #[trigger] final(self).jobs_of(m) == old(self).jobs_of(m),
            final(self).waiting_of(j as int) == old(self).waiting_of(j as int).remove(c),
            forall|m: int| 0 <= m < old(self).names().len() && m != j ==> #[trigger] final(self).waiting_of(m)
                == old(self).waiting_of(m),
    {
        let (n, mut other) = self.queues.remove(j);
        let _ = other.stop_waiting(c);
        self.queues.insert(j, (n, other));
        assert(self.names() =~= old(self).names());
        assert forall|m: int| 0 <= m < old(self).names().len() implies #[trigger] self.jobs_of(m) == old(self).jobs_of(m) by {
            if m != j {
                assert(self.queues@[m] == old(self).queues@[m]);
            }
        }
        assert forall|m: int| 0 <= m < old(self).names().len() && m != j implies #[trigger] self.waiting_of(m)
            == old(self).waiting_of(m) by {
            assert(self.queues@[m] == old(self).queues@[m]);
        }
    }

    /// Lets client `c` wait on the `j`-th queue, among the queues `names`.
    fn wait_at(&mut self, j: usize, c: u32, names: Vec<String>)
        requires
            j < old(self).names().len(),
        ensures
            final(self).states() == old(self).states(),
            final(self).names() == old(self).names(),
            final(self).last_job() == old(self).last_job(),
            final(self).last_client() == old(self).last_client(),
            forall|m: int| 0 <= m < old(self).names().len() ==> #[trigger] final(self).jobs_of(m) == old(self).jobs_of(m),
            final(self).waiting_of(j as int) == old(self).waiting_of(j as int).insert(c, queue_names(names@)),
            forall|m: int| 0 <= m < old(self).names().len() && m != j ==> #[trigger] final(self).waiting_of(m)
                == old(self).waiting_of(m),
    {
        let (n, mut q) = self.queues.remove(j);
        q.start_waiting(c, names);
        self.queues.insert(j, (n, q));
        assert(self.names() =~= old(self).names());
        assert forall|m: int| 0 <= m < old(self).names().len() implies #[trigger] self.jobs_of(m) == old(self).jobs_of(m) by {
            if m != j {
                assert(self.queues@[m] == old(self).queues@[m]);
            }
        }
        assert forall|m: int| 0 <= m < old(self).names().len() && m != j implies #[trigger] self.waiting_of(m)
            == old(self).waiting_of(m) by {
            assert(self.queues@[m] == old(self).queues@[m]);
        }
    }

    /// Puts a job into its queue, or hands it to a client waiting on that
    /// queue (which then waits no more). The first gets the job's id as the
    /// answer; the second is told to the client, and gets no answer.
    fn add_job_to_queue(&mut self, job: Job) -> (r: (Option<Response>, Vec<(u32, Job)>))
        requires
            old(self).wf(),
        ensures
            final(self).wf(),
            final(self).last_job() == old(self).last_job(),
            final(self).last_client() == old(self).last_client(),
            grown(*old(self), *final(self)),
            match r.0 {
                Some(resp) => {
                    &&& resp@ == ok_and_id_view(job.id)
                    &&& r.1@.len() == 0
                    &&& final(self).states() == old(self).states().insert(job.id, JobStateView::Unassigned)
                    &&& find_name(final(self).names(), job.queue@) matches Some(k) && final(self).jobs_of(k).contains(job@)
                },
                None => {
                    &&& r.1@.len() == 1
                    &&& r.1@[0].1@ == job@
                    &&& final(self).states() == old(self).states().insert(
                        job.id,
                        JobStateView::Assigned(r.1@[0].0, job@),
                    )
                    &&& find_name(old(self).names(), job.queue@) matches Some(k) && old(self).waiting_of(k).contains_key(r.1@[0].0)
                },
            },
    {
        let ghost start = *self;
        let k = self.queue_index(job.queue.as_str());
        let ghost mid = *self;
        let r = if self.queues[k].1.nobody_waiting() {
            self.enqueue(k, job)
        } else {
            self.hand_over(k, job)
        };
        proof {
            assert forall|m: int| 0 <= m < start.names().len() implies #[trigger] self.names()[m] == start.names()[m] by {
                assert(mid.names()[m] == start.names()[m]);
            }
            assert forall|m: int, x: JobView| 0 <= m < start.names().len() && #[trigger] start.jobs_of(m).contains(x)
                implies self.jobs_of(m).contains(x) by {
                assert(mid.jobs_of(m) == start.jobs_of(m));
                assert(mid.jobs_of(m).contains(x));
            }
        }
        r
    }

    /// Puts a job into the `k`-th queue, on which nobody waits.
    #[verifier::rlimit(30)]
    fn enqueue(&mut self, k: usize, job: Job) -> (r: (Option<Response>, Vec<(u32, Job)>))
        requires
            old(self).wf(),
            k < old(self).names().len(),
        ensures
            final(self).wf(),
            final(self).last_job() == old(self).last_job(),
            final(self).last_client() == old(self).last_client(),
            final(self).names() == old(self).names(),
            r.0 matches Some(resp) && resp@ == ok_and_id_view(job.id),
            r.1@.len() == 0,
            final(self).states() == old(self).states().insert(job.id, JobStateView::Unassigned),
            final(self).jobs_of(k as int).contains(job@),
            forall|m: int, x: JobView| 0 <= m < old(self).names().len() && #[trigger] old(self).jobs_of(m).contains(x)
                ==> final(self).jobs_of(m).contains(x),
    {
        let ghost jv = job@;
        let id = job.id;
        self.job_state.insert(id, JobState::Unassigned);
        assert(self.states() =~= old(self).states().insert(id, JobStateView::Unassigned));
        let (qname, mut q) = self.queues.remove(k);
        let ghost before = q.jobs();
        q.push(job);
        let ghost qj = q.jobs();
        assert(qj.contains(jv)) by {
            assert(qj.to_multiset().count(jv) > 0);
        }
        self.queues.insert(k, (qname, q));
        assert(self.jobs_of(k as int) == qj);
        assert(self.names() =~= old(self).names());
        assert forall|m: int, x: JobView| 0 <= m < old(self).names().len() && #[trigger] old(self).jobs_of(m).contains(x)
            implies self.jobs_of(m).contains(x) by {
            if m == k {
                assert(before == old(self).jobs_of(m));
                assert(before.to_multiset().count(x) > 0);
                assert(qj.to_multiset().count(x) > 0);
            } else {
                assert(self.queues@[m] == old(self).queues@[m]);
            }
        }
        (Some(Response::ok_and_id(id)), Vec::new())
    }

    /// Hands a job to a client waiting on the `k`-th queue, which then
    /// waits no more.
    fn hand_over(&mut self, k: usize, job: Job) -> (r: (Option<Response>, Vec<(u32, Job)>))
        requires
            old(self).wf(),
            k < old(self).names().len(),
            old(self).waiting_of(k as int).dom().len() != 0,
        ensures
            final(self).wf(),
            final(self).last_job() == old(self).last_job(),
            final(self).last_client() == old(self).last_client(),
            final(self).names() == old(self).names(),
            r.0 is None,
            r.1@.len() == 1,
            r.1@[0].1@ == job@,
            old(self).waiting_of(k as int).contains_key(r.1@[0].0),
            final(self).states() == old(self).states().insert(job.id, JobStateView::Assigned(r.1@[0].0, job@)),
            forall|m: int| 0 <= m < old(self).names().len() ==> #[trigger] final(self).jobs_of(m) == old(self).jobs_of(m),
    {
        let (qname, mut q) = self.queues.remove(k);
        assert(q.waiting().dom() =~= q.waiting_clients@.dom());
        let c = match any_waiting(&q.waiting_clients) {
            Some(c) => c,
            None => {
                proof {
                    assert(false);
                }
                0
            },
        };
        self.job_state.insert(job.id, JobState::Assigned(c, job.duplicate()));
        assert(self.states() =~= old(self).states().insert(job.id, JobStateView::Assigned(c, job@)));
        let names = q.stop_waiting(c);
        self.queues.insert(k, (qname, q));
        assert(self.names() =~= old(self).names());
        match names {
            Some(names) => self.stop_waiting_everywhere(c, &names),
            None => {},
        }
        let mut notes: Vec<(u32, Job)> = Vec::new();
        notes.push((c, job));
        (None, notes)
    }
}

/// Why a client may not abort a job: it is another client's.
pub open spec fn abort_refusal(client: u32, job: u32) -> Seq<char> {
    "you are client "@ + dec_text(client as nat) + " and cannot abort job "@ + dec_text(job as nat)
        + " because not assigned to you"@
}

impl JobCentre {
    /// Where job `id` stands.
    fn state_of(&self, id: u32) -> (r: Option<&JobState>)
        ensures
            match r {
                Some(s) => self.states().contains_key(id) && state_view(*s) == self.states()[id],
                None => !self.states().contains_key(id),
            },
    {
        self.job_state.get(&id)
    }

    /// Deletes job `id`: `ok` where it was known and not deleted yet,
    /// `no-job` otherwise.
    pub fn delete(&mut self, id: u32) -> (r: Response)
        requires
            old(self).wf(),
        ensures
            final(self).wf(),
            final(self).names() == old(self).names(),
            final(self).last_job() == old(self).last_job(),
            final(self).last_client() == old(self).last_client(),
            if old(self).states().contains_key(id) && !(old(self).states()[id] is Deleted) {
                r@ == ok_view() && final(self).states() == old(self).states().insert(id, JobStateView::Deleted)
            } else {
                r@ == no_job_view() && final(self).states() == old(self).states()
            },
    {
        let known = match self.state_of(id) {
            None => false,
            Some(JobState::Deleted) => false,
            Some(_) => true,
        };
        if known {
            self.job_state.insert(id, JobState::Deleted);
            assert(self.states() =~= old(self).states().insert(id, JobStateView::Deleted));
            Response::ok()
        } else {
            Response::no_job()
        }
    }

    /// Client `client` gives job `id` back: a job assigned to it goes back
    /// into its queue (or to a client waiting there) and stands unassigned,
    /// giving `Ok(true)`; a job assigned to another client is refused; any
    /// other job gives `Ok(false)`.
    fn abort_job(&mut self, client: u32, id: u32) -> (r: (Result<bool, String>, Vec<(u32, Job)>))
        requires
            old(self).wf(),
        ensures
            final(self).wf(),
            grown(*old(self), *final(self)),
            forall|k: u32| k != id ==> (#[trigger] final(self).states().contains_key(k) == old(self).states().contains_key(k))
                && (old(self).states().contains_key(k) ==> final(self).states()[k] == old(self).states()[k]),
            final(self).last_job() == old(self).last_job(),
            final(self).last_client() == old(self).last_client(),
            match r.0 {
                Ok(true) => {
                    &&& old(self).states().contains_key(id)
                    &&& old(self).states()[id] matches JobStateView::Assigned(w, j) && {
                        &&& w == client
                        &&& r.1@.len() == 0 || (r.1@.len() == 1 && r.1@[0].1@ == j)
                        &&& r.1@.len() == 0 ==> waits_in(*final(self), j.queue, j)
                    }
                    &&& final(self).states().contains_key(id)
                    &&& final(self).states()[id] is Unassigned
                },
                Ok(false) => !(old(self).states().contains_key(id) && old(self).states()[id] is Assigned)
                    && final(self).states() == old(self).states() && r.1@.len() == 0,
                Err(e) => {
                    &&& old(self).states().contains_key(id)
                    &&& old(self).states()[id] matches JobStateView::Assigned(w, _) && w != client
                    &&& e@ == abort_refusal(client, id)
                    &&& final(self).states() == old(self).states()
                    &&& r.1@.len() == 0
                },
            },
    {
        let job = match self.state_of(id) {
            Some(JobState::Assigned(w, job)) => {
                if *w != client {
                    let text = String::from_str("you are client ").concat(decimal_string(client as u128).as_str())
                        .concat(" and cannot abort job ").concat(decimal_string(id as u128).as_str()).concat(
                        " because not assigned to you",
                    );
                    return (Err(text), Vec::new());
                }
                job.duplicate()
            },
            _ => {
                return (Ok(false), Vec::new());
            },
        };
        let (_, notes) = self.add_job_to_queue(job);
        let ghost mid = self.states();
        self.job_state.insert(id, JobState::Unassigned);
        assert(self.states() =~= mid.insert(id, JobStateView::Unassigned));
        (Ok(true), notes)
    }

    /// Client `client` gives job `id` back; see `abort_job`. The answer is
    /// `ok`, `no-job`, or the refusal as an error.
    pub fn abort(&mut self, client: u32, id: u32) -> (r: (Response, Vec<(u32, Job)>))
        requires
            old(self).wf(),
        ensures
            final(self).wf(),
            final(self).last_job() == old(self).last_job(),
            final(self).last_client() == old(self).last_client(),
            if old(self).states().contains_key(id) && old(self).states()[id] is Assigned {
                if old(self).states()[id]->Assigned_0 == client {
                    let j = old(self).states()[id]->Assigned_1;
                    &&& r.0@ == ok_view()
                    &&& final(self).states().contains_key(id)
                    &&& final(self).states()[id] is Unassigned
                    &&& (r.1@.len() == 0 && waits_in(*final(self), j.queue, j)) || (r.1@.len() == 1 && r.1@[0].1@ == j)
                } else {
                    r.0@ == error_view(abort_refusal(client, id)) && final(self).states() == old(self).states()
                }
            } else {
                r.0@ == no_job_view() && final(self).states() == old(self).states()
            },
    {
        match self.abort_job(client, id) {
            (Ok(true), notes) => (Response::ok(), notes),
            (Ok(false), notes) => (Response::no_job(), notes),
            (Err(e), notes) => (Response::error(e.as_str()), notes),
        }
    }

    /// A client puts a job: it gets the next job id, and goes into its
    /// queue or to a client waiting there. `None` where the next id does
    /// not fit in a `u32`.
    pub fn put(&mut self, put: Put) -> (r: Option<(Option<Response>, Vec<(u32, Job)>)>)
        requires
            old(self).wf(),
        ensures
            final(self).wf(),
            final(self).last_client() == old(self).last_client(),
            match r {
                None => old(self).last_job() == u32::MAX,
                Some((resp, notes)) => {
                    let id = (old(self).last_job() + 1) as u32;
                    let jv = JobView { id, prio: put.pri, queue: put.queue@, job: put.job@ };
                    &&& old(self).last_job() < u32::MAX
                    &&& final(self).last_job() == id
                    &&& match resp {
                        Some(resp) => resp@ == ok_and_id_view(id) && notes@.len() == 0
                            && final(self).states() == old(self).states().insert(id, JobStateView::Unassigned)
                            && waits_in(*final(self), put.queue@, jv),
                        None => notes@.len() == 1 && notes@[0].1@ == jv
                            && final(self).states() == old(self).states().insert(id, JobStateView::Assigned(notes@[0].0, jv)),
                    }
                },
            },
    {
        if self.last_job_id == u32::MAX {
            return None;
        }
        self.last_job_id = self.last_job_id + 1;
        let job = Job::new(self.last_job_id, put.pri, put.queue.as_str(), put.job);
        Some(self.add_job_to_queue(job))
    }
}

impl JobCentre {
    /// Peeks at the `k`-th queue.
    fn peek_at(&mut self, k: usize) -> (r: Option<Job>)
        requires
            k < old(self).names().len(),
        ensures
            final(self).names() == old(self).names(),
            final(self).states() == old(self).states(),
            final(self).job_state@ == old(self).job_state@,
            final(self).last_job() == old(self).last_job(),
            final(self).last_client() == old(self).last_client(),
            forall|i: int| 0 <= i < old(self).names().len() && i != k ==> #[trigger] final(self).jobs_of(i)
                == old(self).jobs_of(i),
            forall|x: JobView| #[trigger] old(self).jobs_of(k as int).contains(x) && !is_deleted(old(self).job_state@, x.id)
                ==> final(self).jobs_of(k as int).contains(x),
            forall|x: JobView| #[trigger] final(self).jobs_of(k as int).contains(x) ==> old(self).jobs_of(k as int).contains(x),
            match r {
                None => forall|x: JobView| #[trigger] old(self).jobs_of(k as int).contains(x) ==> is_deleted(old(self).job_state@, x.id),
                Some(j) => {
                    &&& final(self).jobs_of(k as int).contains(j@)
                    &&& !is_deleted(old(self).job_state@, j.id)
                    &&& forall|x: JobView| #[trigger] old(self).jobs_of(k as int).contains(x) && !is_deleted(old(self).job_state@, x.id)
                        ==> x.prio <= j.prio
                },
            },
    {
        let (n, mut q) = self.queues.remove(k);
        let ghost before = q.jobs();
        let top = q.peek(&self.job_state);
        let ghost after = q.jobs();
        self.queues.insert(k, (n, q));
        assert(self.names() =~= old(self).names());
        proof {
            assert(before == old(self).jobs_of(k as int));
            assert(after == self.jobs_of(k as int));
            let gone = choose|gone: Seq<JobView>| {
                &&& before.to_multiset() == after.to_multiset().add(gone.to_multiset())
                &&& forall|x: JobView| #[trigger] gone.contains(x) ==> is_deleted(self.job_state@, x.id)
                    && forall|y: JobView| #[trigger] after.contains(y) ==> y.prio <= x.prio
            };
            assert forall|x: JobView| #[trigger] after.contains(x) implies before.contains(x) by {
                lemma_in_parts(before, after, gone, x);
            }
        }
        proof {
            assert forall|i: int| 0 <= i < old(self).names().len() && i != k implies #[trigger] self.jobs_of(i)
                == old(self).jobs_of(i) by {
                if i < k {
                    assert(self.queues@[i] == old(self).queues@[i]);
                } else {
                    assert(self.queues@[i] == old(self).queues@[i]);
                }
            }
        }
        top
    }

    /// Takes the job of highest priority out of the `k`-th queue, which
    /// holds a job that is not deleted.
    fn pop_at(&mut self, k: usize) -> (r: Job)
        requires
            k < old(self).names().len(),
            exists|x: JobView| #[trigger] old(self).jobs_of(k as int).contains(x) && !is_deleted(old(self).job_state@, x.id),
        ensures
            final(self).names() == old(self).names(),
            final(self).states() == old(self).states(),
            final(self).last_job() == old(self).last_job(),
            final(self).last_client() == old(self).last_client(),
            !is_deleted(old(self).job_state@, r.id),
            old(self).jobs_of(k as int).contains(r@),
            forall|x: JobView| #[trigger] old(self).jobs_of(k as int).contains(x) && !is_deleted(old(self).job_state@, x.id)
                ==> x.prio <= r.prio,
    {
        let (n, mut q) = self.queues.remove(k);
        let ghost before = q.jobs();
        let popped = q.pop(&self.job_state);
        let ghost after = q.jobs();
        self.queues.insert(k, (n, q));
        assert(self.names() =~= old(self).names());
        assert(before == old(self).jobs_of(k as int));
        match popped {
            Some(j) => {
                proof {
                    let gone = choose|gone: Seq<JobView>| {
                        &&& before.to_multiset() == after.to_multiset().insert(j@).add(gone.to_multiset())
                        &&& forall|x: JobView| #[trigger] gone.contains(x) ==> is_deleted(self.job_state@, x.id)
                            && j.prio <= x.prio
                    };
                    lemma_in_parts_and(before, after, j@, gone, j@);
                    assert forall|x: JobView| #[trigger] before.contains(x) && !is_deleted(self.job_state@, x.id)
                        implies x.prio <= j.prio by {
                        lemma_in_parts_and(before, after, j@, gone, x);
                    }
                }
                j
            },
            None => {
                proof {
                    let x = choose|x: JobView| #[trigger] old(self).jobs_of(k as int).contains(x) && !is_deleted(old(self).job_state@, x.id);
                    assert(is_deleted(old(self).job_state@, x.id));
                }
                Job::new(0, 0, "", String::new())
            },
        }
    }

    /// Makes client `client` wait on each of the queues named, making
    /// those that do not exist yet; each such queue waits on them all.
    #[verifier::rlimit(40)]
    fn put_client_in_wait(&mut self, client: u32, names: &Vec<String>)
        ensures
            final(self).names().len() >= old(self).names().len(),
            forall|m: int| 0 <= m < old(self).names().len() ==> #[trigger] final(self).names()[m] == old(self).names()[m],
            forall|m: int| old(self).names().len() <= m < final(self).names().len() ==> queue_names(names@).contains(#[trigger] final(self).names()[m]),
            forall|m: int| old(self).names().len() <= m < final(self).names().len() ==> #[trigger] first_of_name(final(self).names(), m),
            forall|t: int| 0 <= t < names@.len() ==> #[trigger] find_name(final(self).names(), names@[t]@) is Some,
            forall|m: int| 0 <= m < final(self).names().len() ==> #[trigger] final(self).jobs_of(m) == if m < old(
                self,
            ).names().len() {
                old(self).jobs_of(m)
            } else {
                Seq::<JobView>::empty()
            },
            forall|m: int| 0 <= m < final(self).names().len() ==> #[trigger] final(self).waiting_of(m) == waited(
                *old(self),
                final(self).names(),
                client,
                queue_names(names@),
                m,
            ),
            final(self).states() == old(self).states(),
            final(self).last_job() == old(self).last_job(),
            final(self).last_client() == old(self).last_client(),
    {
        let ghost on = queue_names(names@);
        let ghost len0 = old(self).names().len();
        let mut i: usize = 0;
        while i < names.len()
            invariant
                i <= names@.len(),
                on == queue_names(names@),
                len0 == old(self).names().len(),
                self.names().len() >= len0,
                forall|m: int| 0 <= m < len0 ==> #[trigger] self.names()[m] == old(self).names()[m],
                forall|m: int| len0 <= m < self.names().len() ==> on.contains(#[trigger] self.names()[m]),
                forall|m: int| len0 <= m < self.names().len() ==> #[trigger] first_of_name(self.names(), m),
                forall|t: int| 0 <= t < i ==> #[trigger] find_name(self.names(), names@[t]@) is Some,
                forall|m: int| 0 <= m < self.names().len() ==> #[trigger] self.jobs_of(m) == if m < len0 {
                    old(self).jobs_of(m)
                } else {
                    Seq::<JobView>::empty()
                },
                forall|m: int| 0 <= m < self.names().len() ==> #[trigger] self.waiting_of(m) == waiting_after(
                    *old(self),
                    self.names(),
                    client,
                    queue_names(names@.take(i as int)),
                    on,
                    m,
                ),
                self.states() == old(self).states(),
                self.last_job_id == old(self).last_job_id,
                self.last_client_id == old(self).last_client_id,
            decreases names@.len() - i,
        {
            let ghost before = *self;
            let ghost n = names@[i as int]@;
            let k = self.queue_index(names[i].as_str());
            let ghost mid = *self;
            let copy = copy_names(names);
            self.wait_at(k, client, copy);
            proof {
                assert(on[i as int] == n);
                lemma_put_wait_step(*old(self), before, mid, *self, client, queue_names(names@.take(i as int)), on, n, k as int);
                assert(queue_names(names@.take(i + 1)) =~= queue_names(names@.take(i as int)).push(n));
                assert forall|t: int| 0 <= t < i + 1 implies #[trigger] find_name(self.names(), names@[t]@) is Some by {
                    if t < i {
                        let x = names@[t]@;
                        lemma_find_name_first(before.names(), x);
                        let k0 = find_name(before.names(), x)->0;
                        assert(self.names()[k0] == x);
                        assert forall|j: int| 0 <= j < k0 implies self.names()[j] != x by {
                            assert(self.names()[j] == before.names()[j]);
                        }
                        lemma_find_name_is(self.names(), x, k0);
                    }
                }
            }
            i = i + 1;
        }
        assert(names@.take(names@.len() as int) =~= names@);
    }

    /// Client `client` asks for a job from the queues named (making those
    /// that do not exist yet): the job of highest priority waiting in any
    /// of them, not deleted, is assigned to it and given as the answer;
    /// where there is none, it waits for one if it asked to (no answer),
    /// and gets `no-job` otherwise.
    pub fn get(&mut self, client: u32, get: &Get) -> (r: Option<Response>)
        requires
            old(self).wf(),
        ensures
            final(self).wf(),
            final(self).last_job() == old(self).last_job(),
            final(self).last_client() == old(self).last_client(),
            match r {
                None => get.wait && final(self).states() == old(self).states() && none_waiting(
                    *old(self),
                    queue_names(get.queues@),
                ),
                Some(resp) => {
                    ||| (resp@ == no_job_view() && !get.wait && final(self).states() == old(self).states()
                        && none_waiting(*old(self), queue_names(get.queues@)))
                    ||| exists|j: JobView| {
                        &&& resp@ == ok_and_job_view(j)
                        &&& highest_waiting(*old(self), queue_names(get.queues@), j)
                        &&& final(self).states() == old(self).states().insert(j.id, JobStateView::Assigned(client, j))
                    }
                },
            },
    {
        self.make_queues(&get.queues);
        let ghost start = *self;
        let best = self.best_queue(&get.queues);
        match best {
            Some(k) => {
                let ghost before = *self;
                let ghost j = choose|j: JobView| {
                    &&& live_at(start, k as int, j)
                    &&& forall|i2: int, x: JobView| 0 <= i2 < get.queues@.len() && #[trigger] live_at(
                        start,
                        find_name(start.names(), get.queues@[i2]@)->0,
                        x,
                    ) ==> x.prio <= j.prio
                };
                assert(live_at(before, k as int, j));
                assert(before.jobs_of(k as int).contains(j) && !is_deleted(before.job_state@, j.id));
                let job = self.pop_at(k);
                proof {
                    assert(job.prio >= j.prio);
                    assert(live_at(before, k as int, job@));
                    lemma_get_best(*old(self), start, before, get.queues@, k as int, j, job@);
                }
                self.job_state.insert(job.id, JobState::Assigned(client, job.duplicate()));
                assert(self.states() =~= old(self).states().insert(job.id, JobStateView::Assigned(client, job@)));
                assert(highest_waiting(*old(self), queue_names(get.queues@), job@));
                Some(Response::ok_and_job(job))
            },
            None => {
                proof {
                    lemma_get_none(*old(self), start, get.queues@);
                }
                if get.wait {
                    self.put_client_in_wait(client, &get.queues);
                    None
                } else {
                    Some(Response::no_job())
                }
            },
        }
    }

    /// Makes the queues named that do not exist yet; what waits in each
    /// named queue is then what waited in it before.
    fn make_queues(&mut self, queues: &Vec<String>)
        ensures
            final(self).states() == old(self).states(),
            final(self).job_state@ == old(self).job_state@,
            final(self).last_job() == old(self).last_job(),
            final(self).last_client() == old(self).last_client(),
            forall|i2: int| 0 <= i2 < queues@.len() ==> #[trigger] find_name(final(self).names(), queues@[i2]@) is Some,
            forall|i2: int, x: JobView| 0 <= i2 < queues@.len() ==> (#[trigger] waits_in(*old(self), queues@[i2]@, x) <==> live_at(
                *final(self),
                find_name(final(self).names(), queues@[i2]@)->0,
                x,
            )),
    {
        let ghost names0 = old(self).names();
        let mut i: usize = 0;
        while i < queues.len()
            invariant
                self.states() == old(self).states(),
                self.job_state@ == old(self).job_state@,
                self.last_job_id == old(self).last_job_id,
                self.last_client_id == old(self).last_client_id,
                names0 == old(self).names(),
                self.names().len() >= names0.len(),
                forall|m: int| 0 <= m < names0.len() ==> #[trigger] self.names()[m] == names0[m],
                forall|m: int| 0 <= m < names0.len() ==> #[trigger] self.jobs_of(m) == old(self).jobs_of(m),
                forall|m: int| names0.len() <= m < self.names().len() ==> #[trigger] self.jobs_of(m).len() == 0,
                i <= queues@.len(),
                forall|i2: int| 0 <= i2 < i ==> #[trigger] find_name(self.names(), queues@[i2]@) is Some,
            decreases queues@.len() - i,
        {
            let ghost before = *self;
            let _ = self.queue_index(queues[i].as_str());
            proof {
                assert forall|m: int| 0 <= m < names0.len() implies #[trigger] self.names()[m] == names0[m] by {
                    assert(before.names()[m] == names0[m]);
                }
                assert forall|m: int| 0 <= m < names0.len() implies #[trigger] self.jobs_of(m) == old(self).jobs_of(m) by {
                    assert(before.jobs_of(m) == old(self).jobs_of(m));
                    assert(self.jobs_of(m) == before.jobs_of(m));
                }
                assert forall|m: int| names0.len() <= m < self.names().len() implies #[trigger] self.jobs_of(m).len() == 0 by {
                    if m < before.names().len() {
                        assert(self.jobs_of(m) == before.jobs_of(m));
                    }
                }
                assert forall|i2: int| 0 <= i2 < i + 1 implies #[trigger] find_name(self.names(), queues@[i2]@) is Some by {
                    let n = queues@[i2]@;
                    if i2 < i {
                        let k = find_name(before.names(), n)->0;
                        lemma_find_name_first(before.names(), n);
                        assert(self.names()[k] == n);
                    }
                }
            }
            i = i + 1;
        }
        proof {
            self.lemma_deleted_states();
            lemma_start_from_old(*old(self), *self, queues@);
        }
    }

    /// The queue, among those named, whose best job is best of all; `None`
    /// where no job waits in any of them. Deleted jobs on top of the queues
    /// looked at are dropped, and nothing else changes.
    fn best_queue(&mut self, queues: &Vec<String>) -> (r: Option<usize>)
        requires
            forall|i2: int| 0 <= i2 < queues@.len() ==> #[trigger] find_name(old(self).names(), queues@[i2]@) is Some,
        ensures
            final(self).names() == old(self).names(),
            final(self).states() == old(self).states(),
            final(self).job_state@ == old(self).job_state@,
            final(self).last_job() == old(self).last_job(),
            final(self).last_client() == old(self).last_client(),
            forall|m: int, x: JobView| 0 <= m < old(self).names().len() ==> (#[trigger] live_at(*final(self), m, x)
                == live_at(*old(self), m, x)),
            match r {
                Some(bk) => {
                    &&& bk < old(self).names().len()
                    &&& exists|i2: int| 0 <= i2 < queues@.len() && find_name(old(self).names(), #[trigger] queues@[i2]@) == Some(bk as int)
                    &&& exists|j: JobView| {
                        &&& live_at(*old(self), bk as int, j)
                        &&& forall|i2: int, x: JobView| 0 <= i2 < queues@.len() && #[trigger] live_at(
                            *old(self),
                            find_name(old(self).names(), queues@[i2]@)->0,
                            x,
                        ) ==> x.prio <= j.prio
                    }
                },
                None => forall|i2: int, x: JobView| 0 <= i2 < queues@.len() ==> !#[trigger] live_at(
                    *old(self),
                    find_name(old(self).names(), queues@[i2]@)->0,
                    x,
                ),
            },
    {
        let ghost start = *self;
        let mut best: Option<(usize, u32)> = None;
        let ghost mut best_job: JobView = arbitrary();
        let mut i: usize = 0;
        while i < queues.len()
            invariant
                self.states() == start.states(),
                self.last_job_id == start.last_job_id,
                self.last_client_id == start.last_client_id,
                self.job_state@ == start.job_state@,
                self.names() == start.names(),
                i <= queues@.len(),
                forall|i2: int| 0 <= i2 < queues@.len() ==> #[trigger] find_name(start.names(), queues@[i2]@) is Some,
                forall|m: int, x: JobView| 0 <= m < start.names().len() ==> (#[trigger] live_at(*self, m, x) == live_at(start, m, x)),
                match best {
                    Some((bk, bp)) => {
                        &&& bk < start.names().len()
                        &&& best_job.prio == bp
                        &&& live_at(start, bk as int, best_job)
                        &&& exists|i2: int| 0 <= i2 < i && find_name(start.names(), #[trigger] queues@[i2]@) == Some(bk as int)
                        &&& forall|i2: int, x: JobView| 0 <= i2 < i && #[trigger] live_at(start, find_name(start.names(), queues@[i2]@)->0, x)
                            ==> x.prio <= bp
                    },
                    None => forall|i2: int, x: JobView| 0 <= i2 < i ==> !#[trigger] live_at(start, find_name(start.names(), queues@[i2]@)->0, x),
                },
            decreases queues@.len() - i,
        {
            let ghost here = *self;
            let k = self.queue_index(queues[i].as_str());
            proof {
                lemma_find_name_first(start.names(), queues@[i as int]@);
            }
            let ghost before = *self;
            assert forall|m: int, x: JobView| 0 <= m < start.names().len() implies (#[trigger] live_at(before, m, x) == live_at(start, m, x)) by {
                assert(before.jobs_of(m) == here.jobs_of(m));
                assert(live_at(here, m, x) == live_at(start, m, x));
            }
            let top = self.peek_at(k);
            proof {
                assert forall|m: int, x: JobView| 0 <= m < start.names().len() implies (#[trigger] live_at(*self, m, x) == live_at(start, m, x)) by {
                    if m != k {
                        assert(self.jobs_of(m) == before.jobs_of(m));
                    }
                    assert(live_at(before, m, x) == live_at(start, m, x));
                }
            }
            let ghost old_best = best;
            match top {
                Some(j) => {
                    let better = match best {
                        None => true,
                        Some((_, p)) => j.prio >= p,
                    };
                    if better {
                        best = Some((k, j.prio));
                        proof {
                            best_job = j@;
                            assert(live_at(before, k as int, j@));
                        }
                    }
                },
                None => {},
            }
            proof {
                let fk = find_name(start.names(), queues@[i as int]@)->0;
                assert(fk == k);
                match best {
                    Some((bk, bp)) => {
                        assert forall|i2: int, x: JobView| 0 <= i2 < i + 1 && #[trigger] live_at(start, find_name(start.names(), queues@[i2]@)->0, x)
                            implies x.prio <= bp by {
                            if i2 == i {
                                assert(live_at(before, k as int, x));
                            }
                        }
                        if old_best == best {
                            let w = choose|i2: int| 0 <= i2 < i && find_name(start.names(), #[trigger] queues@[i2]@) == Some(bk as int);
                            assert(0 <= w < i + 1 && find_name(start.names(), queues@[w]@) == Some(bk as int));
                        } else {
                            assert(0 <= i < i + 1 && find_name(start.names(), queues@[i as int]@) == Some(bk as int));
                        }
                    },
                    None => {
                        assert forall|i2: int, x: JobView| 0 <= i2 < i + 1 implies !#[trigger] live_at(start, find_name(start.names(), queues@[i2]@)->0, x) by {
                            if i2 == i && live_at(start, fk, x) {
                                assert(live_at(before, k as int, x));
                            }
                        }
                    },
                }
            }
            i = i + 1;
        }
        match best {
            Some((k, _)) => {
                proof {
                    assert(live_at(start, k as int, best_job));
                    assert(exists|j: JobView| {
                        &&& live_at(start, k as int, j)
                        &&& forall|i2: int, x: JobView| 0 <= i2 < queues@.len() && #[trigger] live_at(
                            start,
                            find_name(start.names(), queues@[i2]@)->0,
                            x,
                        ) ==> x.prio <= j.prio
                    });
                }
                Some(k)
            },
            None => None,
        }
    }

    /// Deletion read from the standings is deletion read from the stored
    /// states.
    proof fn lemma_deleted_states(&self)
        ensures
            forall|id: u32| #[trigger] is_deleted(self.job_state@, id) == (self.states().contains_key(id)
                && self.states()[id] is Deleted),
    {
    }
}

/// The job taken from the best queue is the one a `get` is owed.
proof fn lemma_get_best(
    old_c: JobCentre,
    start: JobCentre,
    before: JobCentre,
    queues: Seq<String>,
    k: int,
    j: JobView,
    job: JobView,
)
    requires
        forall|i2: int| 0 <= i2 < queues.len() ==> #[trigger] find_name(start.names(), queues[i2]@) is Some,
        forall|i2: int, x: JobView| 0 <= i2 < queues.len() ==> (#[trigger] waits_in(old_c, queues[i2]@, x) <==> live_at(
            start,
            find_name(start.names(), queues[i2]@)->0,
            x,
        )),
        exists|i2: int| 0 <= i2 < queues.len() && find_name(start.names(), #[trigger] queues[i2]@) == Some(k),
        forall|i2: int, x: JobView| 0 <= i2 < queues.len() && #[trigger] live_at(start, find_name(start.names(), queues[i2]@)->0, x)
            ==> x.prio <= j.prio,
        live_at(before, k, job),
        job.prio >= j.prio,
        forall|m: int, x: JobView| 0 <= m < start.names().len() ==> (#[trigger] live_at(before, m, x) == live_at(start, m, x)),
    ensures
        highest_waiting(old_c, queue_names(queues), job),
{
    reveal(highest_waiting);
    let w = choose|i2: int| 0 <= i2 < queues.len() && find_name(start.names(), #[trigger] queues[i2]@) == Some(k);
    lemma_find_name_first(start.names(), queues[w]@);
    assert(live_at(start, k, job));
    assert(live_at(start, find_name(start.names(), queues[w]@)->0, job));
    let names = queue_names(queues);
    assert(names[w] == queues[w]@);
    assert(waits_in(old_c, names[w], job));
    assert forall|n: Seq<char>, x: JobView| names.contains(n) && #[trigger] waits_in(old_c, n, x) implies x.prio
        <= job.prio by {
        let i2 = choose|i2: int| 0 <= i2 < names.len() && names[i2] == n;
        assert(queues[i2]@ == n);
        assert(live_at(start, find_name(start.names(), queues[i2]@)->0, x));
    }
}

/// Where no named queue has a job, none waits in them.
proof fn lemma_get_none(old_c: JobCentre, start: JobCentre, queues: Seq<String>)
    requires
        forall|i2: int, x: JobView| 0 <= i2 < queues.len() ==> (#[trigger] waits_in(old_c, queues[i2]@, x) <==> live_at(
            start,
            find_name(start.names(), queues[i2]@)->0,
            x,
        )),
        forall|i2: int, x: JobView| 0 <= i2 < queues.len() ==> !#[trigger] live_at(start, find_name(start.names(), queues[i2]@)->0, x),
    ensures
        none_waiting(old_c, queue_names(queues)),
{
    reveal(none_waiting);
    let names = queue_names(queues);
    assert forall|n: Seq<char>, x: JobView| names.contains(n) implies !#[trigger] waits_in(old_c, n, x) by {
        let i2 = choose|i2: int| 0 <= i2 < names.len() && names[i2] == n;
        assert(queues[i2]@ == n);
        if waits_in(old_c, n, x) {
            assert(live_at(start, find_name(start.names(), queues[i2]@)->0, x));
        }
    }
}

/// `new` keeps every queue of `old`, under the same name, with at least
/// the jobs it had.
pub open spec fn grown(old: JobCentre, new: JobCentre) -> bool {
    &&& new.names().len() >= old.names().len()
    &&& forall|m: int| 0 <= m < old.names().len() ==> #[trigger] new.names()[m] == old.names()[m]
    &&& forall|m: int, x: JobView| 0 <= m < old.names().len() && #[trigger] old.jobs_of(m).contains(x)
        ==> new.jobs_of(m).contains(x)
}

/// Job `j`, taken back from a client, either waits again in its queue or
/// was handed to a client waiting there, told of it by one of `notes`.
pub open spec fn given_back(c: JobCentre, notes: Seq<(u32, Job)>, j: JobView) -> bool {
    waits_in(c, j.queue, j) || exists|t: int| 0 <= t < notes.len() && (#[trigger] notes[t]).1@ == j
}

/// `m` with each job of `ids` standing unassigned.
pub open spec fn unassigned(m: Map<u32, JobStateView>, ids: Seq<u32>) -> Map<u32, JobStateView>
    decreases ids.len(),
{
    if ids.len() == 0 {
        m
    } else {
        unassigned(m, ids.drop_last()).insert(ids.last(), JobStateView::Unassigned)
    }
}

/// Which standings `unassigned` changes.
proof fn lemma_unassigned(m: Map<u32, JobStateView>, ids: Seq<u32>, k: u32)
    ensures
        ids.contains(k) ==> unassigned(m, ids).contains_key(k) && unassigned(m, ids)[k] is Unassigned,
        !ids.contains(k) ==> unassigned(m, ids).contains_key(k) == m.contains_key(k) && (m.contains_key(k)
            ==> unassigned(m, ids)[k] == m[k]),
    decreases ids.len(),
{
    if ids.len() > 0 {
        lemma_unassigned(m, ids.drop_last(), k);
        if ids.contains(k) && k != ids.last() {
            let j = choose|j: int| 0 <= j < ids.len() && ids[j] == k;
            assert(ids.drop_last()[j] == k);
        }
        if ids.drop_last().contains(k) {
            let j = choose|j: int| 0 <= j < ids.drop_last().len() && ids.drop_last()[j] == k;
            assert(ids[j] == k);
        }
    }
}

/// A job waiting in a queue still waits there once the queues have only
/// grown, where its standing is unchanged.
proof fn lemma_grown_keeps_waiting(a: JobCentre, b: JobCentre, n: Seq<char>, x: JobView)
    requires
        grown(a, b),
        waits_in(a, n, x),
        b.states().contains_key(x.id) == a.states().contains_key(x.id),
        a.states().contains_key(x.id) ==> b.states()[x.id] == a.states()[x.id],
    ensures
        waits_in(b, n, x),
{
    lemma_find_name_first(a.names(), n);
    let k = find_name(a.names(), n)->0;
    assert(b.names()[k] == a.names()[k]);
    assert forall|j: int| 0 <= j < k implies b.names()[j] != n by {
        assert(b.names()[j] == a.names()[j]);
    }
    lemma_find_name_is(b.names(), n, k);
}

/// Job `x` is in the `k`-th queue of `c`, not deleted.
spec fn live_at(c: JobCentre, k: int, x: JobView) -> bool {
    c.jobs_of(k).contains(x) && !is_deleted(c.job_state@, x.id)
}

/// The names of some queues, as text.
pub open spec fn queue_names(queues: Seq<String>) -> Seq<Seq<char>> {
    queues.map_values(|q: String| q@)
}

/// The `m`-th of `names` is the first of its name.
pub open spec fn first_of_name(names: Seq<Seq<char>>, m: int) -> bool {
    forall|j: int| 0 <= j < m ==> names[j] != names[m]
}

/// What a sequence with one more name contains.
proof fn lemma_push_contains(s: Seq<Seq<char>>, n: Seq<char>, x: Seq<char>)
    ensures
        s.push(n).contains(x) <==> (s.contains(x) || x == n),
{
    if s.contains(x) {
        let k = choose|k: int| 0 <= k < s.len() && s[k] == x;
        assert(s.push(n)[k] == x);
    }
    if x == n {
        assert(s.push(n)[s.len() as int] == x);
    }
    if s.push(n).contains(x) {
        let k = choose|k: int| 0 <= k < s.push(n).len() && s.push(n)[k] == x;
        if k < s.len() {
            assert(s[k] == x);
        }
    }
}

/// Who waits on the `m`-th of the queues `names` (those of `c`, then new
/// ones) once client `cl` waits, on the queues `on`, on the first queue of
/// each name in `asked`.
pub open spec fn waiting_after(
    c: JobCentre,
    names: Seq<Seq<char>>,
    cl: u32,
    asked: Seq<Seq<char>>,
    on: Seq<Seq<char>>,
    m: int,
) -> Map<u32, Seq<Seq<char>>> {
    let base = if m < c.names().len() {
        c.waiting_of(m)
    } else {
        Map::<u32, Seq<Seq<char>>>::empty()
    };
    if asked.contains(names[m]) && first_of_name(names, m) {
        base.insert(cl, on)
    } else {
        base
    }
}

/// Who waits on the `m`-th of the queues `names` once client `cl` waits on
/// the first queue of each name in `on`.
pub open spec fn waited(c: JobCentre, names: Seq<Seq<char>>, cl: u32, on: Seq<Seq<char>>, m: int) -> Map<u32, Seq<Seq<char>>> {
    waiting_after(c, names, cl, on, on, m)
}

/// One step of making a client wait: the queue named `n` (found or made
/// at index `k`) takes the client, and the rest stay as they were.
proof fn lemma_put_wait_step(
    o: JobCentre,
    before: JobCentre,
    mid: JobCentre,
    after: JobCentre,
    cl: u32,
    asked: Seq<Seq<char>>,
    on: Seq<Seq<char>>,
    n: Seq<char>,
    k: int,
)
    requires
        before.names().len() >= o.names().len(),
        forall|m: int| 0 <= m < o.names().len() ==> #[trigger] before.names()[m] == o.names()[m],
        forall|m: int| o.names().len() <= m < before.names().len() ==> on.contains(#[trigger] before.names()[m]),
        forall|m: int| o.names().len() <= m < before.names().len() ==> #[trigger] first_of_name(before.names(), m),
        forall|m: int| 0 <= m < before.names().len() ==> #[trigger] before.jobs_of(m) == if m < o.names().len() {
            o.jobs_of(m)
        } else {
            Seq::<JobView>::empty()
        },
        forall|m: int| 0 <= m < before.names().len() ==> #[trigger] before.waiting_of(m) == waiting_after(
            o, before.names(), cl, asked, on, m),
        on.contains(n),
        0 <= k < mid.names().len(),
        mid.names()[k] == n,
        find_name(mid.names(), n) == Some(k),
        match find_name(before.names(), n) {
            Some(i) => i == k && mid.names() == before.names() && mid.jobs_of(i) == before.jobs_of(i)
                && mid.waiting_of(i) == before.waiting_of(i),
            None => k == before.names().len() && mid.names() == before.names().push(n)
                && mid.jobs_of(k).len() == 0 && mid.waiting_of(k) == Map::<u32, Seq<Seq<char>>>::empty(),
        },
        forall|m: int| 0 <= m < before.names().len() ==> #[trigger] mid.jobs_of(m) == before.jobs_of(m)
            && mid.waiting_of(m) == before.waiting_of(m),
        after.names() == mid.names(),
        forall|m: int| 0 <= m < after.names().len() ==> #[trigger] after.jobs_of(m) == mid.jobs_of(m),
        after.waiting_of(k) == mid.waiting_of(k).insert(cl, on),
        forall|m: int| 0 <= m < after.names().len() && m != k ==> #[trigger] after.waiting_of(m) == mid.waiting_of(m),
    ensures
        after.names().len() >= o.names().len(),
        forall|m: int| 0 <= m < o.names().len() ==> #[trigger] after.names()[m] == o.names()[m],
        forall|m: int| o.names().len() <= m < after.names().len() ==> on.contains(#[trigger] after.names()[m]),
        forall|m: int| o.names().len() <= m < after.names().len() ==> #[trigger] first_of_name(after.names(), m),
        forall|m: int| 0 <= m < after.names().len() ==> #[trigger] after.jobs_of(m) == if m < o.names().len() {
            o.jobs_of(m)
        } else {
            Seq::<JobView>::empty()
        },
        forall|m: int| 0 <= m < after.names().len() ==> #[trigger] after.waiting_of(m) == waiting_after(
            o, after.names(), cl, asked.push(n), on, m),
{
    let bl = before.names().len() as int;
    let nb = before.names();
    let na = after.names();
    lemma_find_name_first(nb, n);
    lemma_find_name_first(na, n);
    assert(first_of_name(na, k));
    assert forall|m: int| 0 <= m < bl implies #[trigger] na[m] == nb[m] by {
        if find_name(nb, n) is None {
            assert(na == nb.push(n));
        }
    }
    assert forall|m: int| 0 <= m < bl implies first_of_name(na, m) == first_of_name(nb, m) by {
        assert forall|j: int| 0 <= j < m implies na[j] == nb[j] by {}
        assert(na[m] == nb[m]);
    }
    assert forall|m: int| 0 <= m < o.names().len() implies #[trigger] after.names()[m] == o.names()[m] by {
        assert(na[m] == nb[m]);
    }
    assert forall|m: int| o.names().len() <= m < after.names().len() implies on.contains(#[trigger] after.names()[m]) by {
        if m < bl {
            assert(na[m] == nb[m]);
            assert(on.contains(nb[m]));
        } else {
            assert(m == k);
        }
    }
    assert forall|m: int| o.names().len() <= m < after.names().len() implies #[trigger] first_of_name(after.names(), m) by {
        if m < bl {
            assert(first_of_name(nb, m));
            assert(first_of_name(na, m) == first_of_name(nb, m));
        } else {
            assert(m == k);
        }
    }
    assert forall|m: int| 0 <= m < after.names().len() implies #[trigger] after.jobs_of(m) == if m < o.names().len() {
        o.jobs_of(m)
    } else {
        Seq::<JobView>::empty()
    } by {
        if m < bl {
            assert(mid.jobs_of(m) == before.jobs_of(m));
        } else {
            assert(m == k);
            assert(mid.jobs_of(k) =~= Seq::<JobView>::empty());
        }
    }
    assert forall|m: int| 0 <= m < after.names().len() implies #[trigger] after.waiting_of(m) == waiting_after(
        o, after.names(), cl, asked.push(n), on, m) by {
        lemma_push_contains(asked, n, na[m]);
        if m < bl {
            assert(mid.jobs_of(m) == before.jobs_of(m));
            assert(na[m] == nb[m]);
            assert(first_of_name(na, m) == first_of_name(nb, m));
            assert(before.waiting_of(m) == waiting_after(o, nb, cl, asked, on, m));
            if m == k {
                let base = if m < o.names().len() { o.waiting_of(m) } else { Map::<u32, Seq<Seq<char>>>::empty() };
                assert(base.insert(cl, on).insert(cl, on) =~= base.insert(cl, on));
            } else if na[m] == n && first_of_name(na, m) {
                if m < k {
                    assert(na[m] != n);
                } else {
                    assert(na[k] != na[m]);
                }
            }
        } else {
            assert(m == k);
        }
    }
}

/// Who waits on the `m`-th queue of `c` once client `cl` stops waiting on
/// the first queue of each name in `asked`.
pub open spec fn unwaited(c: JobCentre, cl: u32, asked: Seq<Seq<char>>, m: int) -> Map<u32, Seq<Seq<char>>> {
    if asked.contains(c.names()[m]) && first_of_name(c.names(), m) {
        c.waiting_of(m).remove(cl)
    } else {
        c.waiting_of(m)
    }
}

/// Job `x` waits, not deleted, in the queue named `name`.
pub open spec fn waits_in(c: JobCentre, name: Seq<char>, x: JobView) -> bool {
    match find_name(c.names(), name) {
        Some(k) => c.jobs_of(k).contains(x) && !(c.states().contains_key(x.id) && c.states()[x.id] is Deleted),
        None => false,
    }
}

/// `j` is what a `get` on the queues `names` is owed: it waits in one of
/// them, and no job waiting in any of them has a higher priority.
#[verifier::opaque]
pub open spec fn highest_waiting(c: JobCentre, names: Seq<Seq<char>>, j: JobView) -> bool {
    &&& exists|n: Seq<char>| names.contains(n) && #[trigger] waits_in(c, n, j)
    &&& forall|n: Seq<char>, x: JobView| names.contains(n) && #[trigger] waits_in(c, n, x) ==> x.prio <= j.prio
}

/// No job waits in any of the queues `names`.
#[verifier::opaque]
pub open spec fn none_waiting(c: JobCentre, names: Seq<Seq<char>>) -> bool {
    forall|n: Seq<char>, x: JobView| names.contains(n) ==> !#[trigger] waits_in(c, n, x)
}

/// A name that occurs has a first occurrence.
proof fn lemma_first_occurrence(names: Seq<Seq<char>>, n: Seq<char>, i: int)
    requires
        0 <= i < names.len(),
        names[i] == n,
    ensures
        exists|k: int| 0 <= k < names.len() && names[k] == n && forall|j: int| 0 <= j < k ==> names[j] != n,
    decreases i,
{
    if exists|j: int| 0 <= j < i && names[j] == n {
        let j = choose|j: int| 0 <= j < i && names[j] == n;
        lemma_first_occurrence(names, n, j);
    } else {
        assert(0 <= i < names.len() && names[i] == n && forall|j: int| 0 <= j < i ==> names[j] != n);
    }
}

/// A job put in a queue, and not handed straight to a waiting client,
/// is there for the next `get` that names its queue: that `get` does not
/// come back empty, and the job it gives has at least the put job's
/// priority.
pub proof fn lemma_put_then_get(c: JobCentre, names: Seq<Seq<char>>, put_job: JobView, got: JobView)
    requires
        names.contains(put_job.queue),
        waits_in(c, put_job.queue, put_job),
    ensures
        !none_waiting(c, names),
        highest_waiting(c, names, got) ==> put_job.prio <= got.prio,
{
    reveal(none_waiting);
    reveal(highest_waiting);
}

/// What `find_name` finds is the first occurrence.
proof fn lemma_find_name_first(names: Seq<Seq<char>>, n: Seq<char>)
    ensures
        find_name(names, n) matches Some(k) ==> 0 <= k < names.len() && names[k] == n && forall|j: int|
            0 <= j < k ==> names[j] != n,
        find_name(names, n) is None ==> forall|j: int| 0 <= j < names.len() ==> names[j] != n,
{
    if exists|i: int| 0 <= i < names.len() && names[i] == n {
        let i = choose|i: int| 0 <= i < names.len() && names[i] == n;
        lemma_first_occurrence(names, n, i);
    }
}

/// The first occurrence is what `find_name` finds.
proof fn lemma_find_name_is(names: Seq<Seq<char>>, n: Seq<char>, k: int)
    requires
        0 <= k < names.len(),
        names[k] == n,
        forall|j: int| 0 <= j < k ==> names[j] != n,
    ensures
        find_name(names, n) == Some(k),
{
    let c = choose|i: int| 0 <= i < names.len() && names[i] == n && forall|j: int| 0 <= j < i ==> names[j] != n;
    assert(0 <= c < names.len() && names[c] == n && forall|j: int| 0 <= j < c ==> names[j] != n);
    if c < k {
        assert(names[c] != n);
    }
    if c > k {
        assert(names[k] != n);
    }
}

/// A `get` first makes the queues it names: what waits in them then is
/// what waited in them before.
proof fn lemma_start_from_old(old_c: JobCentre, start: JobCentre, queues: Seq<String>)
    requires
        start.names().len() >= old_c.names().len(),
        forall|m: int| 0 <= m < old_c.names().len() ==> #[trigger] start.names()[m] == old_c.names()[m],
        forall|m: int| 0 <= m < old_c.names().len() ==> #[trigger] start.jobs_of(m) == old_c.jobs_of(m),
        forall|m: int| old_c.names().len() <= m < start.names().len() ==> #[trigger] start.jobs_of(m).len() == 0,
        start.states() == old_c.states(),
        forall|i2: int| 0 <= i2 < queues.len() ==> #[trigger] find_name(start.names(), queues[i2]@) is Some,
    ensures
        forall|i2: int, x: JobView| 0 <= i2 < queues.len() ==> (#[trigger] waits_in(old_c, queues[i2]@, x) <==> (start.jobs_of(
            find_name(start.names(), queues[i2]@)->0,
        ).contains(x) && !(start.states().contains_key(x.id) && start.states()[x.id] is Deleted))),
{
    assert forall|i2: int, x: JobView| 0 <= i2 < queues.len() implies (#[trigger] waits_in(old_c, queues[i2]@, x) <==> (
    start.jobs_of(find_name(start.names(), queues[i2]@)->0).contains(x) && !(start.states().contains_key(x.id)
        && start.states()[x.id] is Deleted))) by {
        let n = queues[i2]@;
        lemma_find_name_first(old_c.names(), n);
        lemma_find_name_first(start.names(), n);
        match find_name(old_c.names(), n) {
            Some(k) => {
                assert(start.names()[k] == old_c.names()[k]);
                assert forall|j: int| 0 <= j < k implies start.names()[j] != n by {
                    assert(start.names()[j] == old_c.names()[j]);
                    assert(old_c.names()[j] != n);
                }
                lemma_find_name_is(start.names(), n, k);
                assert(start.jobs_of(k) == old_c.jobs_of(k));
            },
            None => {
                let k = find_name(start.names(), n)->0;
                if k < old_c.names().len() {
                    assert(start.names()[k] == old_c.names()[k]);
                    assert(old_c.names()[k] == n);
                }
                assert(start.jobs_of(k).len() == 0);
            },
        }
    }
}

/// Whether a job's standing is assigned to `client`.
pub open spec fn assigned_to(s: JobStateView, client: u32) -> bool {
    s matches JobStateView::Assigned(c, _) && c == client
}

impl JobCentre {
    /// The jobs assigned to `client`.
    fn jobs_of_client(&self, client: u32) -> (r: Vec<u32>)
        ensures
            r@.no_duplicates(),
            forall|k: u32| #[trigger] r@.contains(k) <==> (self.states().contains_key(k) && assigned_to(self.states()[k], client)),
    {
        let ghost m = self.job_state@;
        let mut ids: Vec<u32> = Vec::new();
        for (id, state) in it: self.job_state.iter()
            invariant
                m == self.job_state@,
                it.seq().len() == m.dom().len(),
                forall|i: int|
                    0 <= i < it.seq().len() ==> #[trigger] m.contains_key(*it.seq()[i].0) && m[*it.seq()[i].0]
                        == *it.seq()[i].1,
                forall|k: u32| #[trigger] m.contains_key(k) ==> it.seq().contains((&k, &m[k])),
                it.seq().no_duplicates(),
                ids@.no_duplicates(),
                forall|k: u32| #[trigger] ids@.contains(k) ==> exists|i: int| 0 <= i < it.index() && *it.seq()[i].0 == k,
                forall|k: u32| #[trigger] ids@.contains(k) ==> m.contains_key(k) && assigned_to(state_view(m[k]), client),
                forall|k: u32|
                    #[trigger] m.contains_key(k) && assigned_to(state_view(m[k]), client) ==> ids@.contains(k)
                        || exists|i: int| it.index() <= i < it.seq().len() && *it.seq()[i].0 == k,
        {
            let ghost idx = it.index();
            let ghost k0 = *it.seq()[idx].0;
            assert(m.contains_key(k0));
            assert(it.seq()[idx] == (id, state));
            assert(m[k0] == *state);
            let ghost old_ids = ids@;
            let mine = match state {
                JobState::Assigned(c, _) => *c == client,
                _ => false,
            };
            if mine {
                proof {
                    if ids@.contains(*id) {
                        let i = choose|i: int| 0 <= i < idx && *it.seq()[i].0 == *id;
                        assert(m.contains_key(*it.seq()[i].0));
                        assert(*it.seq()[i].1 == m[*id]);
                        assert(it.seq()[i] == it.seq()[idx]);
                        assert(false);
                    }
                }
                ids.push(*id);
            }
            proof {
                assert forall|k: u32| #[trigger] ids@.contains(k) implies exists|i: int| 0 <= i < idx + 1 && *it.seq()[i].0 == k by {
                    if old_ids.contains(k) {
                        let i = choose|i: int| 0 <= i < idx && *it.seq()[i].0 == k;
                        assert(0 <= i < idx + 1 && *it.seq()[i].0 == k);
                    } else {
                        assert(*it.seq()[idx].0 == k);
                    }
                }
                assert forall|k: u32| #[trigger] ids@.contains(k) implies m.contains_key(k) && assigned_to(state_view(m[k]), client) by {
                    if !old_ids.contains(k) {
                        assert(k == k0);
                    }
                }
                assert forall|k: u32|
                    #[trigger] m.contains_key(k) && assigned_to(state_view(m[k]), client) implies ids@.contains(k)
                        || exists|i: int| idx + 1 <= i < it.seq().len() && *it.seq()[i].0 == k by {
                    if old_ids.contains(k) {
                        let j = choose|j: int| 0 <= j < old_ids.len() && old_ids[j] == k;
                        assert(ids@[j] == k);
                    } else if k != k0 {
                        let i = choose|i: int| idx <= i < it.seq().len() && *it.seq()[i].0 == k;
                        assert(i != idx);
                        assert(idx + 1 <= i < it.seq().len() && *it.seq()[i].0 == k);
                    } else {
                        assert(mine);
                        assert(ids@.last() == k);
                        assert(ids@.contains(k));
                    }
                }
            }
        }
        ids
    }
}

impl JobCentre {
    /// Client `client` has left: each job assigned to it is given back, as
    /// with `abort`, and stands unassigned. The clients to tell of jobs
    /// handed to them come back.
    #[verifier::spinoff_prover]
    pub fn client_gone(&mut self, client: u32) -> (r: Vec<(u32, Job)>)
        requires
            old(self).wf(),
        ensures
            final(self).wf(),
            final(self).last_job() == old(self).last_job(),
            final(self).last_client() == old(self).last_client(),
            forall|k: u32| #[trigger] old(self).states().contains_key(k) && assigned_to(old(self).states()[k], client)
                ==> final(self).states().contains_key(k) && final(self).states()[k] is Unassigned,
            forall|k: u32| !(old(self).states().contains_key(k) && assigned_to(old(self).states()[k], client))
                ==> (#[trigger] final(self).states().contains_key(k) == old(self).states().contains_key(k))
                && (old(self).states().contains_key(k) ==> final(self).states()[k] == old(self).states()[k]),
            forall|k: u32| #[trigger] old(self).states().contains_key(k) && assigned_to(old(self).states()[k], client)
                ==> given_back(*final(self), r@, old(self).states()[k]->Assigned_1),
            forall|t: int| 0 <= t < r@.len() ==> exists|k: u32| {
                &&& old(self).states().contains_key(k)
                &&& assigned_to(old(self).states()[k], client)
                &&& (#[trigger] r@[t]).1@ == old(self).states()[k]->Assigned_1
            },
    {
        let working_on = self.jobs_of_client(client);
        let ghost w = working_on@;
        let ghost m0 = old(self).states();
        let mut notes: Vec<(u32, Job)> = Vec::new();
        let mut i: usize = 0;
        assert(unassigned(m0, w.subrange(0, 0)) == m0) by {
            assert(w.subrange(0, 0).len() == 0);
        }
        while i < working_on.len()
            invariant
                self.wf(),
                old(self).wf(),
                m0 == old(self).states(),
                w == working_on@,
                self.last_job_id == old(self).last_job_id,
                self.last_client_id == old(self).last_client_id,
                i <= w.len(),
                w.no_duplicates(),
                forall|k: u32| #[trigger] w.contains(k) <==> (m0.contains_key(k) && assigned_to(m0[k], client)),
                self.states() == unassigned(m0, w.subrange(0, i as int)),
                grown(*old(self), *self),
                forall|j: int| 0 <= j < i ==> given_back(*self, notes@, (#[trigger] m0[w[j]])->Assigned_1),
                forall|t: int| 0 <= t < notes@.len() ==> exists|j: int| 0 <= j < i && (#[trigger] notes@[t]).1@ == m0[w[j]]->Assigned_1,
            decreases w.len() - i,
        {
            let id = working_on[i];
            let ghost before = *self;
            let ghost old_notes = notes@;
            let ghost prefix = w.subrange(0, i as int);
            proof {
                assert(w.contains(id));
                assert(!prefix.contains(id)) by {
                    if prefix.contains(id) {
                        let j = choose|j: int| 0 <= j < prefix.len() && prefix[j] == id;
                        assert(w[j] == w[i as int]);
                    }
                }
                lemma_unassigned(m0, prefix, id);
            }
            let (_, mut more) = self.abort_job(client, id);
            let ghost jb = m0[id]->Assigned_1;
            let ghost more0 = more@;
            notes.append(&mut more);
            proof {
                let next = w.subrange(0, i + 1);
                assert(next.drop_last() =~= prefix);
                assert(self.states() =~= unassigned(m0, next));
                assert(jb.id == id);
                assert forall|j: int| 0 <= j < i + 1 implies given_back(*self, notes@, (#[trigger] m0[w[j]])->Assigned_1) by {
                    let x = m0[w[j]]->Assigned_1;
                    if j < i {
                        assert(w[j] != id);
                        assert(w.contains(w[j]));
                        assert(x.id == w[j]);
                        assert(given_back(before, old_notes, x));
                        if waits_in(before, x.queue, x) {
                            lemma_find_name_first(before.names(), x.queue);
                            lemma_grown_keeps_waiting(before, *self, x.queue, x);
                        } else {
                            let t = choose|t: int| 0 <= t < old_notes.len() && old_notes[t].1@ == x;
                            assert(notes@[t] == old_notes[t]);
                        }
                    } else {
                        if more0.len() == 1 {
                            assert(notes@[old_notes.len() as int] == more0[0]);
                        }
                    }
                }
                assert forall|t: int| 0 <= t < notes@.len() implies exists|j: int| 0 <= j < i + 1 && (#[trigger] notes@[t]).1@ == m0[w[j]]->Assigned_1 by {
                    if t < old_notes.len() {
                        assert(notes@[t] == old_notes[t]);
                        let j = choose|j: int| 0 <= j < i && old_notes[t].1@ == m0[w[j]]->Assigned_1;
                        assert(0 <= j < i + 1 && notes@[t].1@ == m0[w[j]]->Assigned_1);
                    } else {
                        assert(notes@[t] == more0[t - old_notes.len()]);
                        assert(0 <= i < i + 1 && notes@[t].1@ == m0[w[i as int]]->Assigned_1);
                    }
                }
            }
            i = i + 1;
        }
        proof {
            assert(w.subrange(0, w.len() as int) =~= w);
            assert forall|k: u32| #[trigger] m0.contains_key(k) && assigned_to(m0[k], client)
                implies self.states().contains_key(k) && self.states()[k] is Unassigned by {
                lemma_unassigned(m0, w, k);
            }
            assert forall|k: u32| !(m0.contains_key(k) && assigned_to(m0[k], client))
                implies (#[trigger] self.states().contains_key(k) == m0.contains_key(k))
                && (m0.contains_key(k) ==> self.states()[k] == m0[k]) by {
                lemma_unassigned(m0, w, k);
            }
            assert forall|k: u32| #[trigger] m0.contains_key(k) && assigned_to(m0[k], client)
                implies given_back(*self, notes@, m0[k]->Assigned_1) by {
                assert(w.contains(k));
                let j = choose|j: int| 0 <= j < w.len() && w[j] == k;
                assert(given_back(*self, notes@, m0[w[j]]->Assigned_1));
            }
            assert forall|t: int| 0 <= t < notes@.len() implies exists|k: u32| {
                &&& m0.contains_key(k)
                &&& assigned_to(m0[k], client)
                &&& (#[trigger] notes@[t]).1@ == m0[k]->Assigned_1
            } by {
                let j = choose|j: int| 0 <= j < w.len() && notes@[t].1@ == m0[w[j]]->Assigned_1;
                assert(w.contains(w[j]));
                let k = w[j];
                assert(m0.contains_key(k) && assigned_to(m0[k], client) && notes@[t].1@ == m0[k]->Assigned_1);
            }
        }
        notes
    }

    /// Applies one request of client `client`: the answer to send back (none
    /// for a `get` that waits, or a `put` handed straight to a waiting
    /// client), and the clients to tell of jobs handed to them. `None` where
    /// a new job id does not fit in a `u32`.
    pub fn process_message(&mut self, client: u32, msg: Msg) -> (r: Option<(Option<Response>, Vec<(u32, Job)>)>)
        requires
            old(self).wf(),
        ensures
            final(self).wf(),
            final(self).last_client() == old(self).last_client(),
            r is None <==> (msg is Put && old(self).last_job() == u32::MAX),
            match msg {
                Msg::Delete(d) => r matches Some((Some(resp), notes)) && notes@.len() == 0 && if old(self).states().contains_key(d.id)
                    && !(old(self).states()[d.id] is Deleted) {
                    resp@ == ok_view() && final(self).states() == old(self).states().insert(d.id, JobStateView::Deleted)
                } else {
                    resp@ == no_job_view() && final(self).states() == old(self).states()
                },
                Msg::Abort(a) => r matches Some((Some(resp), notes)) && if old(self).states().contains_key(a.id)
                    && old(self).states()[a.id] is Assigned {
                    if old(self).states()[a.id]->Assigned_0 == client {
                        let j = old(self).states()[a.id]->Assigned_1;
                        &&& resp@ == ok_view()
                        &&& final(self).states().contains_key(a.id)
                        &&& final(self).states()[a.id] is Unassigned
                        &&& (notes@.len() == 0 && waits_in(*final(self), j.queue, j)) || (notes@.len() == 1
                            && notes@[0].1@ == j)
                    } else {
                        resp@ == error_view(abort_refusal(client, a.id)) && final(self).states() == old(self).states()
                    }
                } else {
                    resp@ == no_job_view() && final(self).states() == old(self).states()
                },
                Msg::Get(g) => r matches Some((resp, notes)) && notes@.len() == 0 && match resp {
                    None => g.wait && final(self).states() == old(self).states() && none_waiting(
                        *old(self),
                        queue_names(g.queues@),
                    ),
                    Some(resp) => {
                        ||| (resp@ == no_job_view() && !g.wait && final(self).states() == old(self).states()
                            && none_waiting(*old(self), queue_names(g.queues@)))
                        ||| exists|j: JobView| {
                            &&& resp@ == ok_and_job_view(j)
                            &&& highest_waiting(*old(self), queue_names(g.queues@), j)
                            &&& final(self).states() == old(self).states().insert(j.id, JobStateView::Assigned(client, j))
                        }
                    },
                },
                Msg::Put(p) => r matches Some((resp, notes)) ==> {
                    let id = (old(self).last_job() + 1) as u32;
                    let jv = JobView { id, prio: p.pri, queue: p.queue@, job: p.job@ };
                    &&& final(self).last_job() == id
                    &&& match resp {
                        Some(resp) => resp@ == ok_and_id_view(id) && notes@.len() == 0
                            && final(self).states() == old(self).states().insert(id, JobStateView::Unassigned)
                            && waits_in(*final(self), p.queue@, jv),
                        None => notes@.len() == 1 && notes@[0].1@ == jv
                            && final(self).states() == old(self).states().insert(id, JobStateView::Assigned(notes@[0].0, jv)),
                    }
                },
            },
    {
        match msg {
            Msg::Put(put) => self.put(put),
            Msg::Get(get) => Some((self.get(client, &get), Vec::new())),
            Msg::Delete(delete) => Some((Some(self.delete(delete.id)), Vec::new())),
            Msg::Abort(abort) => {
                let (resp, notes) = self.abort(client, abort.id);
                Some((Some(resp), notes))
            },
        }
    }
}

impl Default for Queue {
    fn default() -> (r: Self)
        ensures
            r.jobs() == Seq::<JobView>::empty(),
            r.waiting() == Map::<u32, Seq<Seq<char>>>::empty(),
    {
        Queue::new()
    }
}

} // verus!
