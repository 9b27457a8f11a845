use nano_chain::peer_discovery::connection::{
    handle_recv_message, handshake_reply, is_connection_acceptable, messenger_request, mining_broadcast,
    PeerAddr, ProtocolMessage, RecvAction,
};
use nano_chain::peer_discovery::connection_pool::{pool_step, PoolAction, PoolEvent};
use nano_chain::peer_discovery::util::{channel, ChanMessage};
use nano_chain::PeerError;

fn addr(port: u16) -> PeerAddr {
    PeerAddr { is_v6: false, ip: 0x7f00_0001, port, flowinfo: 0, scope_id: 0 }
}

#[test]
fn acceptance_refuses_known_and_full() {
    let pool = vec![addr(1), addr(2)];
    assert!(matches!(is_connection_acceptable(&addr(1), &pool, 5), Some(ProtocolMessage::AlreadyConnected)));
    assert!(matches!(is_connection_acceptable(&addr(3), &pool, 2), Some(ProtocolMessage::CapacityReached)));
    assert!(is_connection_acceptable(&addr(3), &pool, 3).is_none());
}

#[test]
fn ping_is_answered_with_pong() {
    let out = handle_recv_message(addr(1), ProtocolMessage::Ping, 0, &vec![]);
    assert_eq!(out.store, None);
    assert_eq!(out.actions.len(), 1);
    assert!(matches!(out.actions[0], RecvAction::Reply(ProtocolMessage::Pong)));
}

#[test]
fn bigger_number_is_accepted_and_relayed() {
    let miner = addr(9);
    let sender = addr(1);
    let pool = vec![addr(1), addr(9), addr(4)];
    let out = handle_recv_message(sender, ProtocolMessage::NewNumber(miner, 10), 3, &pool);
    assert_eq!(out.store, Some(10));
    // notify the miner, reply to the sender, then relay to every connection
    assert_eq!(out.actions.len(), 5);
    assert!(matches!(out.actions[0], RecvAction::Forward(a, ProtocolMessage::NumAccepted(10)) if a == miner));
    assert!(matches!(out.actions[1], RecvAction::Reply(ProtocolMessage::NumAccepted(10))));
    assert!(matches!(out.actions[2], RecvAction::Forward(a, ProtocolMessage::NewNumber(m, 10)) if a == addr(1) && m == miner));
    assert!(matches!(out.actions[3], RecvAction::Forward(a, ProtocolMessage::NewNumber(_, 10)) if a == addr(9)));
    assert!(matches!(out.actions[4], RecvAction::Forward(a, ProtocolMessage::NewNumber(_, 10)) if a == addr(4)));
}

#[test]
fn number_from_its_miner_is_not_echoed() {
    let miner = addr(9);
    let pool = vec![addr(9)];
    let out = handle_recv_message(miner, ProtocolMessage::NewNumber(miner, 10), 3, &pool);
    assert_eq!(out.store, Some(10));
    assert_eq!(out.actions.len(), 1);
    assert!(matches!(out.actions[0], RecvAction::Forward(a, ProtocolMessage::NumAccepted(10)) if a == miner));
}

#[test]
fn smaller_number_is_denied() {
    let out = handle_recv_message(addr(1), ProtocolMessage::NewNumber(addr(2), 3), 8, &vec![addr(1)]);
    assert_eq!(out.store, None);
    assert_eq!(out.actions.len(), 1);
    assert!(matches!(out.actions[0], RecvAction::Reply(ProtocolMessage::NumDenied(8))));
    let same = handle_recv_message(addr(1), ProtocolMessage::NewNumber(addr(2), 8), 8, &vec![addr(1)]);
    assert_eq!(same.store, None);
    assert!(same.actions.is_empty());
}

#[test]
fn acceptance_and_denial_update_number() {
    assert_eq!(handle_recv_message(addr(1), ProtocolMessage::NumAccepted(2), 9, &vec![]).store, Some(2));
    assert_eq!(handle_recv_message(addr(1), ProtocolMessage::NumDenied(12), 9, &vec![]).store, Some(12));
    assert_eq!(handle_recv_message(addr(1), ProtocolMessage::NumDenied(4), 9, &vec![]).store, None);
}

#[test]
fn ask_peer_gets_unknown_pooled_addresses() {
    let pool = vec![addr(1), addr(2), addr(3), addr(4)];
    let out = handle_recv_message(addr(1), ProtocolMessage::AskPeer(addr(2), vec![addr(3)], 1), 0, &pool);
    assert_eq!(out.actions.len(), 1);
    match &out.actions[0] {
        RecvAction::Reply(ProtocolMessage::ReplyPeer(addrs, n)) => {
            assert_eq!(addrs, &vec![addr(1), addr(4)]);
            assert_eq!(*n, 2);
        }
        other => panic!("unexpected {:?}", other),
    }
}

#[test]
fn reply_peer_asks_to_connect_to_every_address() {
    let out = handle_recv_message(addr(1), ProtocolMessage::ReplyPeer(vec![addr(5), addr(6)], 1), 0, &vec![]);
    assert_eq!(out.actions.len(), 2);
    assert!(matches!(out.actions[0], RecvAction::AddPeer(a) if a == addr(5)));
    assert!(matches!(out.actions[1], RecvAction::AddPeer(a) if a == addr(6)));
}

#[test]
fn exiting_peer_is_removed() {
    let out = handle_recv_message(addr(7), ProtocolMessage::Exiting, 0, &vec![addr(7)]);
    assert_eq!(out.actions.len(), 1);
    assert!(matches!(out.actions[0], RecvAction::RemovePeer(a) if a == addr(7)));
}

#[test]
fn messenger_asks_only_below_capacity() {
    assert!(matches!(messenger_request(addr(1), vec![addr(2)], 2), Some(ProtocolMessage::AskPeer(a, _, 1)) if a == addr(1)));
    assert!(messenger_request(addr(1), vec![addr(2), addr(3)], 2).is_none());
}

#[test]
fn mined_number_is_broadcast_only_when_bigger() {
    assert!(matches!(mining_broadcast(addr(1), 5, 4), Some(ProtocolMessage::NewNumber(a, 5)) if a == addr(1)));
    assert!(mining_broadcast(addr(1), 4, 4).is_none());
}

#[test]
fn peer_error_messages() {
    assert_eq!(PeerError::NoPool.message(), "No connection available");
    assert_eq!(PeerError::ConnectionDenied.message(), "Connection request was rejected");
}

#[test]
fn channel_delivers_messages_then_terminate() {
    let (tx, rx) = channel::<u32>();
    let tx2 = tx.to_owned();
    tx.send(5).unwrap();
    tx2.send_terminate().unwrap();
    assert!(matches!(rx.recv(), Ok(ChanMessage::Message(5))));
    assert!(matches!(rx.recv(), Ok(ChanMessage::Terminate)));
    drop(tx);
    drop(tx2);
    assert!(rx.iter().next().is_none());
}

#[test]
fn send_to_closed_channel_returns_the_message() {
    let (tx, rx) = channel::<u32>();
    drop(rx);
    assert!(matches!(tx.send(7), Err(ChanMessage::Message(7))));
    assert!(matches!(tx.send_terminate(), Err(ChanMessage::Terminate)));
}

#[test]
fn handshake_accepts_refuses_or_denies() {
    let pool = vec![addr(1)];
    let (reply, accepted) = handshake_reply(Some(ProtocolMessage::Request(addr(2))), &pool, 2);
    assert!(matches!(reply, ProtocolMessage::ConnectionAccepted));
    assert_eq!(accepted, Some(addr(2)));
    let (reply, accepted) = handshake_reply(Some(ProtocolMessage::Request(addr(1))), &pool, 2);
    assert!(matches!(reply, ProtocolMessage::AlreadyConnected));
    assert_eq!(accepted, None);
    let (reply, accepted) = handshake_reply(Some(ProtocolMessage::Request(addr(3))), &pool, 1);
    assert!(matches!(reply, ProtocolMessage::CapacityReached));
    assert_eq!(accepted, None);
    let (reply, accepted) = handshake_reply(Some(ProtocolMessage::Ping), &pool, 2);
    assert!(matches!(reply, ProtocolMessage::ConnectionDenied));
    assert_eq!(accepted, None);
    let (reply, accepted) = handshake_reply(None, &pool, 2);
    assert!(matches!(reply, ProtocolMessage::ConnectionDenied));
    assert_eq!(accepted, None);
}

#[test]
fn pool_manager_steps() {
    let pool = vec![addr(1)];
    assert!(matches!(pool_step(&pool, 3, PoolEvent::Add(addr(2))), PoolAction::Connect(a) if a == addr(2)));
    assert!(matches!(pool_step(&pool, 3, PoolEvent::Add(addr(1))), PoolAction::Refuse(a, ProtocolMessage::AlreadyConnected) if a == addr(1)));
    assert!(matches!(pool_step(&pool, 1, PoolEvent::Add(addr(2))), PoolAction::Refuse(_, ProtocolMessage::CapacityReached)));
    assert!(matches!(pool_step(&pool, 3, PoolEvent::AddConn(addr(1))), PoolAction::Discard));
    assert!(matches!(pool_step(&pool, 3, PoolEvent::AddConn(addr(4))), PoolAction::Insert(a) if a == addr(4)));
    assert!(matches!(pool_step(&pool, 3, PoolEvent::Delete(addr(1))), PoolAction::Remove(a) if a == addr(1)));
    assert!(matches!(pool_step(&pool, 3, PoolEvent::Terminate), PoolAction::Stop));
}
