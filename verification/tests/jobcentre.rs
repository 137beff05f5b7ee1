use protohackers::jobcentre::msg::{Abort, Delete, Get, Msg, Put, Response};
use protohackers::jobcentre::{Job, JobCentre, JobState, Queue};
use std::collections::HashMap;

fn payload() -> String {
    "\"foo\"".to_string()
}

#[test]
fn peek() {
    let mut queue = Queue::default();

    queue.push(Job::new(1, 10, "foo", payload()));
    queue.push(Job::new(2, 100, "foo", payload()));
    queue.push(Job::new(3, 200, "foo", payload()));
    queue.push(Job::new(4, 300, "foo", payload()));

    let mut job_status = HashMap::new();
    job_status.insert(3, JobState::Deleted);
    job_status.insert(4, JobState::Deleted);

    assert!(queue.peek(&job_status).is_some_and(|j| j.id == 2));
}

#[test]
fn pop() {
    let mut queue = Queue::default();

    queue.push(Job::new(1, 10, "foo", payload()));
    queue.push(Job::new(2, 100, "foo", payload()));
    queue.push(Job::new(3, 200, "foo", payload()));
    queue.push(Job::new(4, 300, "foo", payload()));

    let mut job_status = HashMap::new();
    job_status.insert(3, JobState::Deleted);
    job_status.insert(4, JobState::Deleted);

    assert!(queue.pop(&job_status).is_some_and(|j| j.id == 2));
    assert!(queue.pop(&job_status).is_some_and(|j| j.id == 1));
    assert_eq!(queue.pop(&job_status), None);
}

fn put(queue: &str, pri: u32) -> Msg {
    Msg::Put(Put { queue: queue.to_string(), job: "{\"title\":\"x\"}".to_string(), pri })
}

fn get(queues: &[&str], wait: bool) -> Msg {
    Msg::Get(Get { queues: queues.iter().map(|q| q.to_string()).collect(), wait })
}

#[test]
fn put_then_get_gives_the_job() {
    let mut centre = JobCentre::new();
    let alice = centre.new_client().unwrap();
    let bob = centre.new_client().unwrap();
    assert_eq!((alice, bob), (1, 2));
    let (resp, notes) = centre.process_message(alice, put("q1", 10)).unwrap();
    assert_eq!(resp, Some(Response::ok_and_id(1)));
    assert!(notes.is_empty());
    let (resp, _) = centre.process_message(alice, put("q2", 20)).unwrap();
    assert_eq!(resp, Some(Response::ok_and_id(2)));
    let (resp, _) = centre.process_message(bob, get(&["q1", "q2"], false)).unwrap();
    let resp = resp.unwrap();
    assert_eq!(resp.status(), "ok");
    assert_eq!(resp.id(), Some(2));
    assert_eq!(resp.pri(), Some(20));
    assert_eq!(resp.queue(), Some("q2"));
    assert_eq!(resp.job(), Some("{\"title\":\"x\"}"));
    let (resp, _) = centre.process_message(bob, get(&["q3"], false)).unwrap();
    assert_eq!(resp, Some(Response::no_job()));
}

#[test]
fn delete_and_abort() {
    let mut centre = JobCentre::new();
    let alice = centre.new_client().unwrap();
    let bob = centre.new_client().unwrap();
    centre.process_message(alice, put("q", 1)).unwrap();
    centre.process_message(alice, put("q", 2)).unwrap();
    let (resp, _) = centre.process_message(bob, get(&["q"], false)).unwrap();
    assert_eq!(resp.unwrap().id(), Some(2));
    let (resp, _) = centre.process_message(alice, Msg::Abort(Abort { id: 2 })).unwrap();
    let resp = resp.unwrap();
    assert_eq!(resp.status(), "error");
    assert_eq!(
        resp.error_text(),
        Some("you are client 1 and cannot abort job 2 because not assigned to you")
    );
    let (resp, _) = centre.process_message(bob, Msg::Abort(Abort { id: 2 })).unwrap();
    assert_eq!(resp, Some(Response::ok()));
    let (resp, _) = centre.process_message(bob, Msg::Abort(Abort { id: 2 })).unwrap();
    assert_eq!(resp, Some(Response::no_job()));
    let (resp, _) = centre.process_message(alice, Msg::Delete(Delete { id: 2 })).unwrap();
    assert_eq!(resp, Some(Response::ok()));
    let (resp, _) = centre.process_message(alice, Msg::Delete(Delete { id: 2 })).unwrap();
    assert_eq!(resp, Some(Response::no_job()));
    let (resp, _) = centre.process_message(bob, get(&["q"], false)).unwrap();
    assert_eq!(resp.unwrap().id(), Some(1));
}

#[test]
fn waiting_client_gets_the_next_put() {
    let mut centre = JobCentre::new();
    let alice = centre.new_client().unwrap();
    let bob = centre.new_client().unwrap();
    let (resp, notes) = centre.process_message(bob, get(&["q", "r"], true)).unwrap();
    assert_eq!(resp, None);
    assert!(notes.is_empty());
    let (resp, notes) = centre.process_message(alice, put("r", 5)).unwrap();
    assert_eq!(resp, None);
    assert_eq!(notes.len(), 1);
    assert_eq!(notes[0].0, bob);
    assert_eq!(notes[0].1.id, 1);
    assert_eq!(notes[0].1.prio, 5);
    // bob waits no more: the next put is queued.
    let (resp, notes) = centre.process_message(alice, put("q", 6)).unwrap();
    assert_eq!(resp, Some(Response::ok_and_id(2)));
    assert!(notes.is_empty());
}

#[test]
fn leaving_client_gives_its_jobs_back() {
    let mut centre = JobCentre::new();
    let alice = centre.new_client().unwrap();
    let bob = centre.new_client().unwrap();
    centre.process_message(alice, put("q", 7)).unwrap();
    let (resp, _) = centre.process_message(bob, get(&["q"], false)).unwrap();
    assert_eq!(resp.unwrap().id(), Some(1));
    let notes = centre.client_gone(bob);
    assert!(notes.is_empty());
    let (resp, _) = centre.process_message(alice, get(&["q"], false)).unwrap();
    assert_eq!(resp.unwrap().id(), Some(1));
}

#[test]
fn response_fields() {
    let r = Response::error("bad");
    assert_eq!(r.status(), "error");
    assert_eq!(r.error_text(), Some("bad"));
    assert_eq!(r.id(), None);
    let job = Job::new(3, 9, "q", "[1]".to_string());
    let r = Response::ok_and_job(job.duplicate());
    assert_eq!(r.id(), Some(3));
    assert_eq!(r.pri(), Some(9));
    assert_eq!(r.queue(), Some("q"));
    assert_eq!(r.job(), Some("[1]"));
    assert_eq!(Response::no_job().status(), "no-job");
    assert_eq!(Response::ok().status(), "ok");
}

#[test]
fn get_gives_the_highest_priority_over_all_queues() {
    let mut centre = JobCentre::new();
    centre.process_message(1, put("q1", 5)).unwrap();
    centre.process_message(1, put("q2", 10)).unwrap();
    centre.process_message(1, put("q1", 7)).unwrap();
    let (resp, _) = centre.process_message(2, get(&["q1", "q2"], false)).unwrap();
    let resp = resp.unwrap();
    assert_eq!(resp.pri(), Some(10));
    assert_eq!(resp.queue(), Some("q2"));
    let (resp, _) = centre.process_message(2, get(&["q1", "q2"], false)).unwrap();
    assert_eq!(resp.unwrap().pri(), Some(7));
    let (resp, _) = centre.process_message(2, get(&["q2"], false)).unwrap();
    assert_eq!(resp.unwrap().status(), "no-job");
}

#[test]
fn deleted_jobs_are_never_given() {
    let mut centre = JobCentre::new();
    let (resp, _) = centre.process_message(1, put("q", 9)).unwrap();
    let id = resp.unwrap().id().unwrap();
    centre.process_message(1, put("q", 3)).unwrap();
    centre.process_message(1, Msg::Delete(Delete { id })).unwrap();
    let (resp, _) = centre.process_message(2, get(&["q"], false)).unwrap();
    assert_eq!(resp.unwrap().pri(), Some(3));
}

#[test]
fn aborted_job_goes_back_to_its_queue() {
    let mut centre = JobCentre::new();
    centre.process_message(1, put("q", 4)).unwrap();
    let (resp, _) = centre.process_message(2, get(&["q"], false)).unwrap();
    let id = resp.unwrap().id().unwrap();
    let (resp, notes) = centre.process_message(2, Msg::Abort(Abort { id })).unwrap();
    assert_eq!(resp.unwrap().status(), "ok");
    assert!(notes.is_empty());
    let (resp, _) = centre.process_message(3, get(&["q"], false)).unwrap();
    assert_eq!(resp.unwrap().id(), Some(id));
}
