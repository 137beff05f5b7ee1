//! What one connection tells the others.
use vstd::prelude::*;
use crate::speed::msg::Ticket;

verus! {

/// A ticket for a dispatcher (by id), or a dispatcher (id and roads) that
/// has just connected.
#[derive(Debug, Clone)]
pub enum Event {
    Ticket(Ticket, u16),
    NewDispatcher(u16, Vec<u16>),
}

} // verus!
