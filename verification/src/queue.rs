//! The decision logic of the worker protocol: what the task queue answers to
//! each request it can receive. The transport that carries the messages is
//! the host program's concern; this module only reads and updates the queue.

use vstd::prelude::*;
use crate::engine::Task;

verus! {

/// A message a peer may send to the task queue.
#[derive(Debug)]
pub enum Request {
    /// Append these due instructions to the queue.
    Extend(Vec<Task>),
    /// Hand out one due instruction.
    Task,
}

/// The queue's answer to a request.
#[derive(Debug)]
pub enum Response {
    OK,
    /// The message could not be understood (produced by the transport, never
    /// by [`handle_request`]).
    BadRequest,
    Task(Task),
    EmptyQueue,
}

/// Answers one well-formed request against the queue.
///
/// Delivery is deliberately most-recently-pushed-first: a `Task` request pops
/// the newest queued instruction.
pub fn handle_request(req: Request, queue: &mut Vec<Task>) -> (resp: Response)
    ensures
        match req {
            Request::Extend(tasks) => {
                &&& final(queue)@ == old(queue)@ + tasks@
                &&& resp is OK
            },
            Request::Task => {
                if old(queue)@.len() == 0 {
                    &&& resp is EmptyQueue
                    &&& final(queue)@ == old(queue)@
                } else {
                    &&& resp == Response::Task(old(queue)@.last())
                    &&& final(queue)@ == old(queue)@.drop_last()
                }
            },
        },
{
    match req {
        Request::Extend(tasks) => {
            let mut tasks = tasks;
            queue.append(&mut tasks);
            Response::OK
        },
        Request::Task => {
            if queue.len() == 0 {
                Response::EmptyQueue
            } else {
                match queue.pop() {
                    Some(task) => Response::Task(task),
                    None => Response::EmptyQueue,
                }
            }
        },
    }
}

} // verus!
