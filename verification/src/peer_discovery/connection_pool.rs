//! What the pool manager does with each request it receives.

use crate::peer_discovery::connection::{
    acceptance, contains_addr, is_connection_acceptable, PeerAddr, ProtocolMessage,
};
use vstd::prelude::*;

verus! {

/// A request to the pool manager.
pub enum PoolEvent {
    /// Connect to this address.
    Add(PeerAddr),
    /// Pool a connection already made with this address.
    AddConn(PeerAddr),
    /// Drop the connection with this address.
    Delete(PeerAddr),
    /// Stop managing the pool.
    Terminate,
}

/// What the pool manager does.
pub enum PoolAction {
    /// Open a connection to this address and pool it.
    Connect(PeerAddr),
    /// Pool the connection offered with this address.
    Insert(PeerAddr),
    /// Drop the connection offered: its address is pooled already.
    Discard,
    /// Do not connect to this address, for this reason.
    Refuse(PeerAddr, ProtocolMessage),
    /// Drop the pooled connection with this address.
    Remove(PeerAddr),
    /// Stop.
    Stop,
}

/// Whether `action` is what the pool manager does on `event` with `pool`
/// pooled: a connection is added only to an address not pooled yet, a request
/// to connect is followed only when `acceptance` finds no reason against it,
/// a deletion removes, and termination stops.
pub open spec fn pool_decision(pool: Seq<PeerAddr>, capacity: usize, event: PoolEvent, action: PoolAction) -> bool {
    match event {
        PoolEvent::Add(addr) => match acceptance(addr, pool, capacity) {
            None => action == PoolAction::Connect(addr),
            Some(reason) => action matches PoolAction::Refuse(a, r) && a == addr && r@ == reason@,
        },
        PoolEvent::AddConn(addr) => if pool.contains(addr) {
            action == PoolAction::Discard
        } else {
            action == PoolAction::Insert(addr)
        },
        PoolEvent::Delete(addr) => action == PoolAction::Remove(addr),
        PoolEvent::Terminate => action == PoolAction::Stop,
    }
}

/// What the pool manager does on `event`, with the connections `pool` pooled
/// and room for `capacity`: see `pool_decision`.
pub fn pool_step(pool: &Vec<PeerAddr>, capacity: usize, event: PoolEvent) -> (action: PoolAction)
    requires
        event matches PoolEvent::Add(a) ==> pool@.contains(a) || capacity >= 1,
    ensures
        pool_decision(pool@, capacity, event, action),
{
    match event {
        PoolEvent::Add(socket_addr) => match is_connection_acceptable(&socket_addr, pool, capacity) {
            None => PoolAction::Connect(socket_addr),
            Some(reason) => PoolAction::Refuse(socket_addr, reason),
        },
        PoolEvent::AddConn(socket_addr) => {
            if contains_addr(pool, &socket_addr) {
                PoolAction::Discard
            } else {
                PoolAction::Insert(socket_addr)
            }
        },
        PoolEvent::Delete(socket_addr) => PoolAction::Remove(socket_addr),
        PoolEvent::Terminate => PoolAction::Stop,
    }
}

} // verus!
