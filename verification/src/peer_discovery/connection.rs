//! The messages of the peer protocol, and what a node decides when one arrives.

use vstd::prelude::*;

verus! {

/// The address of a peer: an IP address (an IPv4 address is held in the low
/// 32 bits, with `is_v6` false and zero `flowinfo` and `scope_id`) and a port.
/// Two addresses are equal when all fields are, as two socket addresses are.
#[derive(Clone, Copy, Debug, PartialEq, Eq, Structural, Hash)]
pub struct PeerAddr {
    pub is_v6: bool,
    pub ip: u128,
    pub port: u16,
    pub flowinfo: u32,
    pub scope_id: u32,
}

/// The messages peers exchange.
#[derive(Clone, Debug)]
pub enum ProtocolMessage {
    Ping,
    Pong,
    Request(PeerAddr),
    ConnectionAccepted,
    ConnectionDenied,
    CapacityReached,
    AlreadyConnected,
    NewNumber(PeerAddr, u32),
    NumDenied(u32),
    NumAccepted(u32),
    AskPeer(PeerAddr, Vec<PeerAddr>, usize),
    ReplyPeer(Vec<PeerAddr>, usize),
    Exiting,
}

/// A protocol message, with its address lists as sequences.
pub enum MessageView {
    Ping,
    Pong,
    Request(PeerAddr),
    ConnectionAccepted,
    ConnectionDenied,
    CapacityReached,
    AlreadyConnected,
    NewNumber(PeerAddr, u32),
    NumDenied(u32),
    NumAccepted(u32),
    AskPeer(PeerAddr, Seq<PeerAddr>, usize),
    ReplyPeer(Seq<PeerAddr>, usize),
    Exiting,
}

impl View for ProtocolMessage {
    type V = MessageView;

    open spec fn view(&self) -> MessageView {
        match self {
            ProtocolMessage::Ping => MessageView::Ping,
            ProtocolMessage::Pong => MessageView::Pong,
            ProtocolMessage::Request(a) => MessageView::Request(*a),
            ProtocolMessage::ConnectionAccepted => MessageView::ConnectionAccepted,
            ProtocolMessage::ConnectionDenied => MessageView::ConnectionDenied,
            ProtocolMessage::CapacityReached => MessageView::CapacityReached,
            ProtocolMessage::AlreadyConnected => MessageView::AlreadyConnected,
            ProtocolMessage::NewNumber(a, n) => MessageView::NewNumber(*a, *n),
            ProtocolMessage::NumDenied(n) => MessageView::NumDenied(*n),
            ProtocolMessage::NumAccepted(n) => MessageView::NumAccepted(*n),
            ProtocolMessage::AskPeer(a, known, size) => MessageView::AskPeer(*a, known@, *size),
            ProtocolMessage::ReplyPeer(addrs, size) => MessageView::ReplyPeer(addrs@, *size),
            ProtocolMessage::Exiting => MessageView::Exiting,
        }
    }
}

/// An action, with its message seen through its view.
pub enum ActionView {
    Reply(MessageView),
    Forward(PeerAddr, MessageView),
    AddPeer(PeerAddr),
    RemovePeer(PeerAddr),
}

/// Something the node does after reading a message from a peer.
#[derive(Clone, Debug)]
pub enum RecvAction {
    /// Answer on the connection the message came from.
    Reply(ProtocolMessage),
    /// Pass a message to the pooled connection with this address.
    Forward(PeerAddr, ProtocolMessage),
    /// Ask the pool manager to connect to this address.
    AddPeer(PeerAddr),
    /// Ask the pool manager to drop the connection with this address.
    RemovePeer(PeerAddr),
}

impl View for RecvAction {
    type V = ActionView;

    open spec fn view(&self) -> ActionView {
        match self {
            RecvAction::Reply(m) => ActionView::Reply(m@),
            RecvAction::Forward(a, m) => ActionView::Forward(*a, m@),
            RecvAction::AddPeer(a) => ActionView::AddPeer(*a),
            RecvAction::RemovePeer(a) => ActionView::RemovePeer(*a),
        }
    }
}

/// What the node decides on a message: the number it now holds, if it
/// changes, and what it does, in order.
pub struct RecvOutcome {
    pub store: Option<u32>,
    pub actions: Vec<RecvAction>,
}

/// The reason for refusing a connection to `addr`, given the addresses of the
/// pool and its capacity, or `None` when it may be made.
pub open spec fn acceptance(addr: PeerAddr, pool: Seq<PeerAddr>, capacity: usize) -> Option<
    ProtocolMessage,
> {
    if pool.contains(addr) {
        Some(ProtocolMessage::AlreadyConnected)
    } else if pool.len() > capacity - 1 {
        Some(ProtocolMessage::CapacityReached)
    } else {
        None
    }
}

/// Whether `addr` is among `pool`.
pub(crate) fn contains_addr(pool: &Vec<PeerAddr>, addr: &PeerAddr) -> (found: bool)
    ensures
        found == pool@.contains(*addr),
{
    let mut i: usize = 0;
    while i < pool.len()
        invariant
            i <= pool@.len(),
            forall|j: int| 0 <= j < i ==> pool@[j] != *addr,
        decreases pool@.len() - i,
    {
        if pool[i] == *addr {
            return true;
        }
        i = i + 1;
    }
    false
}

/// Whether a connection to `socket_addr` may be made: not when it is already
/// pooled, nor when the pool is full.
pub fn is_connection_acceptable(socket_addr: &PeerAddr, pool: &Vec<PeerAddr>, capacity: usize) -> (reason:
    Option<ProtocolMessage>)
    requires
        pool@.contains(*socket_addr) || capacity >= 1,
    ensures
        reason == acceptance(*socket_addr, pool@, capacity),
{
    if contains_addr(pool, socket_addr) {
        Some(ProtocolMessage::AlreadyConnected)
    } else if pool.len() > capacity - 1 {
        Some(ProtocolMessage::CapacityReached)
    } else {
        None
    }
}

/// The relays of a new number: every pooled connection gets it, except one
/// whose address is both the miner's and the sender's.
pub open spec fn relays(pool: Seq<PeerAddr>, miner: PeerAddr, their_addr: PeerAddr, n: u32) -> Seq<
    ActionView,
>
    decreases pool.len(),
{
    if pool.len() == 0 {
        Seq::empty()
    } else {
        let rest = relays(pool.drop_last(), miner, their_addr, n);
        let a = pool.last();
        if miner != a || their_addr != a {
            rest.push(ActionView::Forward(a, MessageView::NewNumber(miner, n)))
        } else {
            rest
        }
    }
}

/// The pooled addresses that `known` does not hold, in pool order.
pub open spec fn unknown_peers(pool: Seq<PeerAddr>, known: Seq<PeerAddr>) -> Seq<PeerAddr>
    decreases pool.len(),
{
    if pool.len() == 0 {
        Seq::empty()
    } else {
        let rest = unknown_peers(pool.drop_last(), known);
        if known.contains(pool.last()) {
            rest
        } else {
            rest.push(pool.last())
        }
    }
}

/// The request to connect to each of `addrs`, in order.
pub open spec fn add_requests(addrs: Seq<PeerAddr>) -> Seq<ActionView> {
    Seq::new(addrs.len(), |i: int| ActionView::AddPeer(addrs[i]))
}

/// What a node holding `my_num`, with `pool` pooled, decides on `message`
/// from `their_addr`: the number it then holds (when it changes) and its actions.
pub open spec fn recv_decision(
    their_addr: PeerAddr,
    message: MessageView,
    my_num: u32,
    pool: Seq<PeerAddr>,
) -> (Option<u32>, Seq<ActionView>) {
    match message {
        MessageView::Ping => (None, seq![ActionView::Reply(MessageView::Pong)]),
        MessageView::NewNumber(miner, their_num) => {
            if my_num < their_num {
                let notify = if pool.contains(miner) {
                    seq![ActionView::Forward(miner, MessageView::NumAccepted(their_num))]
                } else {
                    Seq::empty()
                };
                let reply = if miner != their_addr {
                    seq![ActionView::Reply(MessageView::NumAccepted(their_num))]
                } else {
                    Seq::empty()
                };
                (Some(their_num), notify + reply + relays(pool, miner, their_addr, their_num))
            } else if my_num > their_num {
                (None, seq![ActionView::Reply(MessageView::NumDenied(my_num))])
            } else {
                (None, Seq::empty())
            }
        },
        MessageView::NumAccepted(n) => (Some(n), Seq::empty()),
        MessageView::NumDenied(their_num) => {
            if my_num < their_num {
                (Some(their_num), Seq::empty())
            } else {
                (None, Seq::empty())
            }
        },
        MessageView::ReplyPeer(addrs, _size) => (None, add_requests(addrs)),
        MessageView::AskPeer(their_address, known, _size) => {
            let fresh = unknown_peers(pool, known.push(their_address));
            (None, seq![ActionView::Reply(MessageView::ReplyPeer(fresh, fresh.len() as usize))])
        },
        MessageView::Exiting => (None, seq![ActionView::RemovePeer(their_addr)]),
        _ => (None, Seq::empty()),
    }
}


/// The views of a list of actions.
pub open spec fn action_views(actions: Seq<RecvAction>) -> Seq<ActionView> {
    actions.map_values(|a: RecvAction| a@)
}

/// Appends the relays of a new number to `actions`: see `relays`.
fn push_relays(
    actions: &mut Vec<RecvAction>,
    pool: &Vec<PeerAddr>,
    miner: PeerAddr,
    their_addr: PeerAddr,
    n: u32,
)
    ensures
        action_views(final(actions)@) == action_views(old(actions)@) + relays(pool@, miner, their_addr, n),
{
    let ghost start = action_views(actions@);
    let mut i: usize = 0;
    assert(pool@.take(0) =~= Seq::<PeerAddr>::empty());
    assert(start + relays(Seq::empty(), miner, their_addr, n) =~= start);
    while i < pool.len()
        invariant
            i <= pool@.len(),
            action_views(actions@) == start + relays(pool@.take(i as int), miner, their_addr, n),
        decreases pool@.len() - i,
    {
        let a = pool[i];
        proof {
            assert(pool@.take(i + 1).drop_last() =~= pool@.take(i as int));
            assert(pool@.take(i + 1).last() == a);
        }
        if miner != a || their_addr != a {
            let ghost prev = actions@;
            actions.push(RecvAction::Forward(a, ProtocolMessage::NewNumber(miner, n)));
            proof {
                assert(action_views(actions@) =~= action_views(prev).push(ActionView::Forward(a, MessageView::NewNumber(miner, n))));
                assert(action_views(actions@) =~= start + relays(pool@.take(i + 1), miner, their_addr, n));
            }
        }
        i = i + 1;
    }
    assert(pool@.take(pool@.len() as int) =~= pool@);
}

/// The pooled addresses that `known` does not hold: see `unknown_peers`.
fn select_unknown(pool: &Vec<PeerAddr>, known: &Vec<PeerAddr>) -> (fresh: Vec<PeerAddr>)
    ensures
        fresh@ == unknown_peers(pool@, known@),
{
    let mut fresh: Vec<PeerAddr> = Vec::new();
    let mut i: usize = 0;
    assert(pool@.take(0) =~= Seq::<PeerAddr>::empty());
    while i < pool.len()
        invariant
            i <= pool@.len(),
            fresh@ == unknown_peers(pool@.take(i as int), known@),
        decreases pool@.len() - i,
    {
        let a = pool[i];
        proof {
            assert(pool@.take(i + 1).drop_last() =~= pool@.take(i as int));
            assert(pool@.take(i + 1).last() == a);
        }
        if !contains_addr(known, &a) {
            fresh.push(a);
        }
        i = i + 1;
    }
    assert(pool@.take(pool@.len() as int) =~= pool@);
    fresh
}

/// What a node holding `my_num`, with the connections `pool` pooled, does on
/// `message` from `their_addr`: see `recv_decision`. The caller stores the
/// number, then carries out the actions in order.
pub fn handle_recv_message(
    their_addr: PeerAddr,
    message: ProtocolMessage,
    my_num: u32,
    pool: &Vec<PeerAddr>,
) -> (outcome: RecvOutcome)
    ensures
        (outcome.store, action_views(outcome.actions@)) == recv_decision(their_addr, message@, my_num, pool@),
{
    let ghost decided = recv_decision(their_addr, message@, my_num, pool@);
    let mut actions: Vec<RecvAction> = Vec::new();
    match message {
        ProtocolMessage::Ping => {
            actions.push(RecvAction::Reply(ProtocolMessage::Pong));
            assert(action_views(actions@) =~= decided.1);
            RecvOutcome { store: None, actions }
        },
        ProtocolMessage::NewNumber(miner_address, their_num) => {
            if my_num < their_num {
                if contains_addr(pool, &miner_address) {
                    actions.push(RecvAction::Forward(miner_address, ProtocolMessage::NumAccepted(their_num)));
                }
                if miner_address != their_addr {
                    actions.push(RecvAction::Reply(ProtocolMessage::NumAccepted(their_num)));
                }
                let ghost head = action_views(actions@);
                push_relays(&mut actions, pool, miner_address, their_addr, their_num);
                proof {
                    let notify = if pool@.contains(miner_address) {
                        seq![ActionView::Forward(miner_address, MessageView::NumAccepted(their_num))]
                    } else {
                        Seq::empty()
                    };
                    let reply = if miner_address != their_addr {
                        seq![ActionView::Reply(MessageView::NumAccepted(their_num))]
                    } else {
                        Seq::empty()
                    };
                    assert(head =~= notify + reply);
                }
                RecvOutcome { store: Some(their_num), actions }
            } else if my_num > their_num {
                actions.push(RecvAction::Reply(ProtocolMessage::NumDenied(my_num)));
                assert(action_views(actions@) =~= decided.1);
                RecvOutcome { store: None, actions }
            } else {
                assert(action_views(actions@) =~= decided.1);
                RecvOutcome { store: None, actions }
            }
        },
        ProtocolMessage::NumAccepted(n) => {
            assert(action_views(actions@) =~= decided.1);
            RecvOutcome { store: Some(n), actions }
        },
        ProtocolMessage::NumDenied(their_num) => {
            assert(action_views(actions@) =~= decided.1);
            if my_num < their_num {
                RecvOutcome { store: Some(their_num), actions }
            } else {
                RecvOutcome { store: None, actions }
            }
        },
        ProtocolMessage::ReplyPeer(socket_addresses, _size) => {
            let mut i: usize = 0;
            while i < socket_addresses.len()
                invariant
                    i <= socket_addresses@.len(),
                    action_views(actions@) =~= add_requests(socket_addresses@.take(i as int)),
                decreases socket_addresses@.len() - i,
            {
                let ghost prev = actions@;
                actions.push(RecvAction::AddPeer(socket_addresses[i]));
                proof {
                    assert(action_views(actions@) =~= action_views(prev).push(ActionView::AddPeer(socket_addresses@[i as int])));
                    assert(add_requests(socket_addresses@.take(i + 1)) =~= add_requests(socket_addresses@.take(i as int)).push(ActionView::AddPeer(socket_addresses@[i as int])));
                }
                i = i + 1;
            }
            assert(socket_addresses@.take(socket_addresses@.len() as int) =~= socket_addresses@);
            RecvOutcome { store: None, actions }
        },
        ProtocolMessage::AskPeer(their_address, their_known_address, _size) => {
            let mut their_known_address = their_known_address;
            their_known_address.push(their_address);
            let new_addresses = select_unknown(pool, &their_known_address);
            let addr_len: usize = new_addresses.len();
            actions.push(RecvAction::Reply(ProtocolMessage::ReplyPeer(new_addresses, addr_len)));
            assert(action_views(actions@) =~= decided.1);
            RecvOutcome { store: None, actions }
        },
        ProtocolMessage::Exiting => {
            actions.push(RecvAction::RemovePeer(their_addr));
            assert(action_views(actions@) =~= decided.1);
            RecvOutcome { store: None, actions }
        },
        _ => {
            assert(action_views(actions@) =~= decided.1);
            RecvOutcome { store: None, actions }
        },
    }
}


/// The periodic request for more peers: a node whose pool holds fewer than
/// `capacity` connections asks its peers for addresses it does not know yet.
pub fn messenger_request(my_address: PeerAddr, pool: Vec<PeerAddr>, capacity: usize) -> (request:
    Option<ProtocolMessage>)
    ensures
        pool@.len() < capacity ==> (request matches Some(m) && m@ == MessageView::AskPeer(
            my_address,
            pool@,
            pool@.len() as usize,
        )),
        pool@.len() >= capacity ==> request is None,
{
    let conn_len: usize = pool.len();
    if conn_len < capacity {
        Some(ProtocolMessage::AskPeer(my_address, pool, conn_len))
    } else {
        None
    }
}

/// After a mining delay: broadcast the mined number only when it still beats
/// the number the node holds now.
pub fn mining_broadcast(server_address: PeerAddr, new_num: u32, curr_num: u32) -> (broadcast:
    Option<ProtocolMessage>)
    ensures
        new_num > curr_num ==> (broadcast matches Some(m) && m@ == MessageView::NewNumber(
            server_address,
            new_num,
        )),
        new_num <= curr_num ==> broadcast is None,
{
    if new_num > curr_num {
        Some(ProtocolMessage::NewNumber(server_address, new_num))
    } else {
        None
    }
}

/// The answer to the first message on an incoming connection: a request is
/// accepted, or refused with the reason `acceptance` gives; anything else, or
/// a message that could not be read (`None`), is denied.
pub open spec fn handshake_decision(message: Option<MessageView>, pool: Seq<PeerAddr>, capacity: usize) -> (
    MessageView,
    Option<PeerAddr>,
) {
    match message {
        Some(MessageView::Request(addr)) => match acceptance(addr, pool, capacity) {
            None => (MessageView::ConnectionAccepted, Some(addr)),
            Some(reason) => (reason@, None),
        },
        _ => (MessageView::ConnectionDenied, None),
    }
}

/// Answers the first message on an incoming connection: see
/// `handshake_decision`. The address, when there is one, is the peer to pool.
pub fn handshake_reply(message: Option<ProtocolMessage>, pool: &Vec<PeerAddr>, capacity: usize) -> (reply: (
    ProtocolMessage,
    Option<PeerAddr>,
))
    requires
        message matches Some(ProtocolMessage::Request(a)) ==> pool@.contains(a) || capacity >= 1,
    ensures
        (reply.0@, reply.1) == handshake_decision(
            match message {
                Some(m) => Some(m@),
                None => None,
            },
            pool@,
            capacity,
        ),
{
    match message {
        Some(ProtocolMessage::Request(socket_addr)) => match is_connection_acceptable(&socket_addr, pool, capacity) {
            None => (ProtocolMessage::ConnectionAccepted, Some(socket_addr)),
            Some(err_message) => (err_message, None),
        },
        _ => (ProtocolMessage::ConnectionDenied, None),
    }
}

/// A connection is refused as already made exactly when the very address is
/// pooled; any other address is refused only for want of room, and is
/// accepted whenever the pool holds fewer than `capacity` connections.
pub proof fn lemma_acceptance_reasons(addr: PeerAddr, pool: Seq<PeerAddr>, capacity: usize)
    ensures
        acceptance(addr, pool, capacity) matches Some(ProtocolMessage::AlreadyConnected) <==> pool.contains(addr),
        !pool.contains(addr) ==> (acceptance(addr, pool, capacity) is None <==> pool.len() < capacity),
        !pool.contains(addr) && pool.len() >= capacity ==> acceptance(addr, pool, capacity) matches Some(
            ProtocolMessage::CapacityReached,
        ),
{
}

/// A request to connect is accepted, and its address handed back to be
/// pooled, exactly when that address is not pooled yet and the pool has room.
pub proof fn lemma_handshake_accepts_new_peers_with_room(addr: PeerAddr, pool: Seq<PeerAddr>, capacity: usize)
    ensures
        handshake_decision(Some(MessageView::Request(addr)), pool, capacity).1 == Some(addr) <==> (!pool.contains(
            addr,
        ) && pool.len() < capacity),
        handshake_decision(Some(MessageView::Request(addr)), pool, capacity).0 == MessageView::ConnectionAccepted
            <==> (!pool.contains(addr) && pool.len() < capacity),
        handshake_decision(Some(MessageView::Request(addr)), pool, capacity).1 is None <==> (pool.contains(addr)
            || pool.len() >= capacity),
{
}

/// A received message lowers the node's number only when it is an
/// acceptance of that number: any other message that changes the number raises it.
pub proof fn lemma_number_only_rises(
    their_addr: PeerAddr,
    message: MessageView,
    my_num: u32,
    pool: Seq<PeerAddr>,
)
    requires
        !(message is NumAccepted),
    ensures
        recv_decision(their_addr, message, my_num, pool).0 matches Some(n) ==> n > my_num,
{
}

/// The addresses offered in answer to a request for peers are pooled, and
/// none of them is the asker's or one the asker already knows.
pub proof fn lemma_offered_peers_are_new(pool: Seq<PeerAddr>, known: Seq<PeerAddr>)
    ensures
        forall|i: int|
            0 <= i < unknown_peers(pool, known).len() ==> pool.contains(
                #[trigger] unknown_peers(pool, known)[i],
            ) && !known.contains(unknown_peers(pool, known)[i]),
    decreases pool.len(),
{
    if pool.len() > 0 {
        lemma_offered_peers_are_new(pool.drop_last(), known);
        let rest = unknown_peers(pool.drop_last(), known);
        assert forall|i: int| 0 <= i < unknown_peers(pool, known).len() implies pool.contains(
            #[trigger] unknown_peers(pool, known)[i],
        ) && !known.contains(unknown_peers(pool, known)[i]) by {
            if i < rest.len() {
                assert(unknown_peers(pool, known)[i] == rest[i]);
                let k = choose|k: int| 0 <= k < pool.drop_last().len() && pool.drop_last()[k] == rest[i];
                assert(pool[k] == rest[i]);
            } else {
                assert(pool[pool.len() - 1] == pool.last());
            }
        }
    }
}

/// Every pooled address that `known` does not hold is offered: the offer
/// leaves out exactly the addresses `known` holds.
pub proof fn lemma_every_unknown_peer_is_offered(pool: Seq<PeerAddr>, known: Seq<PeerAddr>)
    ensures
        forall|p: PeerAddr|
            #[trigger] unknown_peers(pool, known).contains(p) <==> (pool.contains(p) && !known.contains(p)),
        unknown_peers(pool, known).len() <= pool.len(),
    decreases pool.len(),
{
    lemma_offered_peers_are_new(pool, known);
    if pool.len() > 0 {
        lemma_every_unknown_peer_is_offered(pool.drop_last(), known);
        let rest = unknown_peers(pool.drop_last(), known);
        let offered = unknown_peers(pool, known);
        assert forall|p: PeerAddr| #[trigger] offered.contains(p) <==> (pool.contains(p) && !known.contains(p)) by {
            if offered.contains(p) {
                let i = choose|i: int| 0 <= i < offered.len() && offered[i] == p;
                assert(pool.contains(offered[i]) && !known.contains(offered[i]));
            }
            if pool.contains(p) && !known.contains(p) {
                let k = choose|k: int| 0 <= k < pool.len() && pool[k] == p;
                if k < pool.len() - 1 {
                    assert(pool.drop_last()[k] == p);
                    assert(rest.contains(p));
                    let j = choose|j: int| 0 <= j < rest.len() && rest[j] == p;
                    assert(offered[j] == p);
                } else {
                    assert(pool.last() == p);
                    assert(offered == rest.push(p));
                    assert(offered[offered.len() - 1] == p);
                }
            }
        }
    }
}

/// The answer to a request for peers is one reply that offers every pooled
/// address other than the asker's and those the asker knows, and nothing
/// else, with their count; the node's number is left alone.
pub proof fn lemma_ask_peer_reply(
    their_addr: PeerAddr,
    asker: PeerAddr,
    known: Seq<PeerAddr>,
    size: usize,
    my_num: u32,
    pool: Seq<PeerAddr>,
)
    requires
        pool.len() <= usize::MAX,
    ensures
        ({
            let decided = recv_decision(their_addr, MessageView::AskPeer(asker, known, size), my_num, pool);
            &&& decided.0 is None
            &&& decided.1.len() == 1
            &&& decided.1[0] matches ActionView::Reply(MessageView::ReplyPeer(offered, count))
            &&& count == offered.len()
            &&& forall|p: PeerAddr|
                #[trigger] offered.contains(p) <==> (pool.contains(p) && !known.contains(p) && p != asker)
        }),
{
    let all_known = known.push(asker);
    lemma_every_unknown_peer_is_offered(pool, all_known);
    assert forall|p: PeerAddr| all_known.contains(p) <==> (known.contains(p) || p == asker) by {
        if known.contains(p) {
            let i = choose|i: int| 0 <= i < known.len() && known[i] == p;
            assert(all_known[i] == p);
        }
        if p == asker {
            assert(all_known[all_known.len() - 1] == p);
        }
        if all_known.contains(p) {
            let i = choose|i: int| 0 <= i < all_known.len() && all_known[i] == p;
            if i < known.len() {
                assert(known[i] == p);
            }
        }
    }
    let fresh = unknown_peers(pool, all_known);
    let decided = recv_decision(their_addr, MessageView::AskPeer(asker, known, size), my_num, pool);
    assert(decided.1 == seq![ActionView::Reply(MessageView::ReplyPeer(fresh, fresh.len() as usize))]);
    assert(decided.1[0] == ActionView::Reply(MessageView::ReplyPeer(fresh, fresh.len() as usize)));
}

/// A new number is relayed to a connection only when it is not both the
/// miner's and the sender's, and the relay carries the miner and the number.
pub proof fn lemma_relays_skip_origin(pool: Seq<PeerAddr>, miner: PeerAddr, their_addr: PeerAddr, n: u32)
    ensures
        forall|i: int|
            0 <= i < relays(pool, miner, their_addr, n).len() ==> (#[trigger] relays(pool, miner, their_addr, n)[i]
                matches ActionView::Forward(a, m) && !(a == miner && a == their_addr) && pool.contains(a)
                && m == MessageView::NewNumber(miner, n)),
    decreases pool.len(),
{
    if pool.len() > 0 {
        lemma_relays_skip_origin(pool.drop_last(), miner, their_addr, n);
        let rest = relays(pool.drop_last(), miner, their_addr, n);
        assert forall|i: int| 0 <= i < relays(pool, miner, their_addr, n).len() implies (#[trigger] relays(pool, miner, their_addr, n)[i]
                matches ActionView::Forward(a, m) && !(a == miner && a == their_addr) && pool.contains(a)
                && m == MessageView::NewNumber(miner, n)) by {
            if i < rest.len() {
                assert(relays(pool, miner, their_addr, n)[i] == rest[i]);
                if let ActionView::Forward(a, m) = rest[i] {
                    let k = choose|k: int| 0 <= k < pool.drop_last().len() && pool.drop_last()[k] == a;
                    assert(pool[k] == a);
                }
            } else {
                assert(pool[pool.len() - 1] == pool.last());
            }
        }
    }
}

} // verus!
