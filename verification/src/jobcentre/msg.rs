//! The requests and responses of the job centre, as values; their JSON form
//! is read and written around the library.
use vstd::prelude::*;
use vstd::string::StringExecFns;
use crate::jobcentre::Job;

verus! {

/// A request.
#[derive(Debug)]
pub enum Msg {
    Put(Put),
    Get(Get),
    Delete(Delete),
    Abort(Abort),
}

/// Put a job, its payload as JSON text, into a queue with a priority.
#[derive(Debug, PartialEq, Eq)]
pub struct Put {
    pub queue: String,
    pub job: String,
    pub pri: u32,
}

/// Get the job of highest priority from these queues, waiting for one if
/// asked to.
#[derive(Debug, PartialEq, Eq)]
pub struct Get {
    pub queues: Vec<String>,
    pub wait: bool,
}

/// Delete a job.
#[derive(Debug, PartialEq, Eq)]
pub struct Delete {
    pub id: u32,
}

/// Give back a job one is working on.
#[derive(Debug, PartialEq, Eq)]
pub struct Abort {
    pub id: u32,
}

/// A response: a status, and the fields that go with it.
#[derive(Debug, PartialEq, Eq)]
pub struct Response {
    status: String,
    error: Option<String>,
    id: Option<u32>,
    job: Option<String>,
    pri: Option<u32>,
    queue: Option<String>,
}

/// The shape of an answer to a `get`, with the job as JSON text.
#[derive(Debug)]
pub struct GetResponse {
    status: String,
    id: Option<u32>,
    job: Option<String>,
    pri: Option<u32>,
    queue: Option<String>,
}

/// A response as plain values.
pub struct ResponseView {
    pub status: Seq<char>,
    pub error: Option<Seq<char>>,
    pub id: Option<u32>,
    pub job: Option<Seq<char>>,
    pub pri: Option<u32>,
    pub queue: Option<Seq<char>>,
}

/// The text of an optional string.
pub open spec fn opt_text(s: Option<String>) -> Option<Seq<char>> {
    match s {
        Some(t) => Some(t@),
        None => None,
    }
}

impl View for Response {
    type V = ResponseView;

    closed spec fn view(&self) -> ResponseView {
        ResponseView {
            status: self.status@,
            error: opt_text(self.error),
            id: self.id,
            job: opt_text(self.job),
            pri: self.pri,
            queue: opt_text(self.queue),
        }
    }
}

/// `{"status": "ok"}`.
pub open spec fn ok_view() -> ResponseView {
    ResponseView { status: "ok"@, error: None, id: None, job: None, pri: None, queue: None }
}

/// `{"status": "ok", "id": ID}`.
pub open spec fn ok_and_id_view(id: u32) -> ResponseView {
    ResponseView { status: "ok"@, error: None, id: Some(id), job: None, pri: None, queue: None }
}

/// A job handed out: its id, payload, priority and queue.
pub open spec fn ok_and_job_view(job: crate::jobcentre::JobView) -> ResponseView {
    ResponseView {
        status: "ok"@,
        error: None,
        id: Some(job.id),
        job: Some(job.job),
        pri: Some(job.prio),
        queue: Some(job.queue),
    }
}

/// `{"status": "no-job"}`.
pub open spec fn no_job_view() -> ResponseView {
    ResponseView { status: "no-job"@, error: None, id: None, job: None, pri: None, queue: None }
}

/// `{"status": "error", "error": TEXT}`.
pub open spec fn error_view(error: Seq<char>) -> ResponseView {
    ResponseView { status: "error"@, error: Some(error), id: None, job: None, pri: None, queue: None }
}

impl Response {
    pub fn ok() -> (r: Self)
        ensures
            r@ == ok_view(),
    {
        Self { status: String::from_str("ok"), error: None, id: None, job: None, pri: None, queue: None }
    }

    pub fn ok_and_id(id: u32) -> (r: Self)
        ensures
            r@ == ok_and_id_view(id),
    {
        Self {
            status: String::from_str("ok"),
            error: None,
            id: Some(id),
            job: None,
            pri: None,
            queue: None,
        }
    }

    pub fn ok_and_job(job: Job) -> (r: Self)
        ensures
            r@ == ok_and_job_view(job@),
    {
        Self {
            status: String::from_str("ok"),
            error: None,
            id: Some(job.id),
            job: Some(job.job),
            pri: Some(job.prio),
            queue: Some(job.queue),
        }
    }

    pub fn no_job() -> (r: Self)
        ensures
            r@ == no_job_view(),
    {
        Self {
            status: String::from_str("no-job"),
            error: None,
            id: None,
            job: None,
            pri: None,
            queue: None,
        }
    }

    pub fn error(error: &str) -> (r: Self)
        ensures
            r@ == error_view(error@),
    {
        Self {
            status: String::from_str("error"),
            error: Some(error.to_owned()),
            id: None,
            job: None,
            pri: None,
            queue: None,
        }
    }

    /// The status.
    pub fn status(&self) -> (r: &str)
        ensures
            r@ == self@.status,
    {
        self.status.as_str()
    }

    /// The error text, where there is one.
    pub fn error_text(&self) -> (r: Option<&str>)
        ensures
            match r {
                Some(t) => self@.error == Some(t@),
                None => self@.error is None,
            },
    {
        match &self.error {
            Some(e) => Some(e.as_str()),
            None => None,
        }
    }

    /// The job id, where there is one.
    pub fn id(&self) -> (r: Option<u32>)
        ensures
            r == self@.id,
    {
        self.id
    }

    /// The job's payload as JSON text, where there is one.
    pub fn job(&self) -> (r: Option<&str>)
        ensures
            match r {
                Some(t) => self@.job == Some(t@),
                None => self@.job is None,
            },
    {
        match &self.job {
            Some(j) => Some(j.as_str()),
            None => None,
        }
    }

    /// The job's priority, where there is one.
    pub fn pri(&self) -> (r: Option<u32>)
        ensures
            r == self@.pri,
    {
        self.pri
    }

    /// The job's queue, where there is one.
    pub fn queue(&self) -> (r: Option<&str>)
        ensures
            match r {
                Some(t) => self@.queue == Some(t@),
                None => self@.queue is None,
            },
    {
        match &self.queue {
            Some(q) => Some(q.as_str()),
            None => None,
        }
    }
}

} // verus!
