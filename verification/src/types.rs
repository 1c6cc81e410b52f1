use vstd::prelude::*;

verus! {

// ---------------------------------------------------------------------------
// Spec-level views of the data that crosses the bridge.
// ---------------------------------------------------------------------------
/// Mathematical view of a chat message.
pub struct MessageV {
    pub id: Seq<char>,
    pub sender: Seq<char>,
    pub content: Seq<char>,
    pub timestamp: i64,
}

/// Mathematical view of a friend-status report.
pub struct StatusV {
    pub peer_id: Seq<char>,
    pub online: bool,
    pub message: Seq<char>,
    pub checked_at: i64,
}

/// Mathematical view of a command from the UI.
pub enum CommandV {
    SendMessage { content: Seq<char> },
    SyncRequest { to_peer: Seq<char>, last_timestamp: i64 },
    ConnectToPeer { address: Seq<char> },
    AddFriend { peer_id: Seq<char> },
}

/// Mathematical view of an event handed to the UI.
pub enum EventV {
    MessageReceived { msg: MessageV },
    HistorySynced { msgs: Seq<MessageV> },
    PeerConnected { peer_id: Seq<char> },
    PeerDisconnected { peer_id: Seq<char> },
    FriendStatus { status: StatusV },
}

/// Mathematical view of the outcome of a closest-peer lookup.
pub enum LookupOutcomeV {
    Finished { peers: Seq<Seq<char>> },
    TimedOut { peers: Seq<Seq<char>> },
}

/// Mathematical view of a normalized engine occurrence.
pub enum EngineEventV {
    InboundMessage { msg: MessageV },
    ConnectionEstablished { peer_id: Seq<char> },
    ConnectionClosed { peer_id: Seq<char> },
    IdentifyReceived { peer_id: Seq<char>, listen_addrs: Seq<Seq<char>> },
    LookupCompleted { handle: u64, outcome: LookupOutcomeV },
}

/// Mathematical view of an action the orchestration core asks of its driver.
pub enum ActionV {
    Publish { msg: MessageV },
    Emit { event: EventV },
    StartLookup { handle: u64, peer_id: Seq<char> },
    Dial { address: Seq<char> },
    DialRelay { peer_id: Seq<char>, address: Seq<char> },
    AddRoutingHint { peer_id: Seq<char>, address: Seq<char> },
    PersistFriends { friends: Seq<Seq<char>> },
    ListenOn { address: Seq<char> },
}

// ---------------------------------------------------------------------------
// Executable data types.
// ---------------------------------------------------------------------------
/// A single chat message as it travels between peers and the UI.
#[derive(Debug)]
pub struct ChatMessage {
    pub id: String,
    pub sender: String,
    pub content: String,
    pub timestamp: i64,
}

impl View for ChatMessage {
    type V = MessageV;

    open spec fn view(&self) -> MessageV {
        MessageV {
            id: self.id@,
            sender: self.sender@,
            content: self.content@,
            timestamp: self.timestamp,
        }
    }
}

impl Clone for ChatMessage {
    fn clone(&self) -> (r: Self)
        ensures
            r@ == self@,
    {
        ChatMessage {
            id: self.id.clone(),
            sender: self.sender.clone(),
            content: self.content.clone(),
            timestamp: self.timestamp,
        }
    }
}

/// Reachability report for one friend peer.
#[derive(Debug)]
pub struct PeerStatus {
    pub peer_id: String,
    pub online: bool,
    pub message: String,
    pub checked_at: i64,
}

impl View for PeerStatus {
    type V = StatusV;

    open spec fn view(&self) -> StatusV {
        StatusV {
            peer_id: self.peer_id@,
            online: self.online,
            message: self.message@,
            checked_at: self.checked_at,
        }
    }
}

impl Clone for PeerStatus {
    fn clone(&self) -> (r: Self)
        ensures
            r@ == self@,
    {
        PeerStatus {
            peer_id: self.peer_id.clone(),
            online: self.online,
            message: self.message.clone(),
            checked_at: self.checked_at,
        }
    }
}

/// A command submitted by the UI to the network layer.
#[derive(Debug)]
pub enum NetworkCommand {
    SendMessage(String),
    /// Ask a peer for the messages sent since the given time; reserved for a
    /// future offline-sync exchange.
    SyncRequest { to_peer: String, last_timestamp: i64 },
    /// Connect to a peer manually by textual multiaddress.
    ConnectToPeer { address: String },
    /// Add a peer to the friend list and check its reachability.
    AddFriend { peer_id: String },
}

impl View for NetworkCommand {
    type V = CommandV;

    open spec fn view(&self) -> CommandV {
        match self {
            NetworkCommand::SendMessage(content) => CommandV::SendMessage { content: content@ },
            NetworkCommand::SyncRequest { to_peer, last_timestamp } => CommandV::SyncRequest {
                to_peer: to_peer@,
                last_timestamp: *last_timestamp,
            },
            NetworkCommand::ConnectToPeer { address } => CommandV::ConnectToPeer {
                address: address@,
            },
            NetworkCommand::AddFriend { peer_id } => CommandV::AddFriend { peer_id: peer_id@ },
        }
    }
}

/// An event handed from the network layer to the UI.
#[derive(Debug)]
pub enum NetworkEvent {
    MessageReceived(ChatMessage),
    HistorySynced(Vec<ChatMessage>),
    PeerConnected(String),
    PeerDisconnected(String),
    FriendStatus(PeerStatus),
}

impl View for NetworkEvent {
    type V = EventV;

    open spec fn view(&self) -> EventV {
        match self {
            NetworkEvent::MessageReceived(msg) => EventV::MessageReceived { msg: msg@ },
            NetworkEvent::HistorySynced(msgs) => EventV::HistorySynced {
                msgs: msgs@.map_values(|m: ChatMessage| m@),
            },
            NetworkEvent::PeerConnected(peer_id) => EventV::PeerConnected { peer_id: peer_id@ },
            NetworkEvent::PeerDisconnected(peer_id) => EventV::PeerDisconnected {
                peer_id: peer_id@,
            },
            NetworkEvent::FriendStatus(status) => EventV::FriendStatus { status: status@ },
        }
    }
}

/// The outcome of a closest-peer lookup, as delivered by the engine.
#[derive(Debug)]
pub enum LookupOutcome {
    /// The query finished with the closest peers found.
    Finished { peers: Vec<String> },
    /// The query timed out; `peers` holds those found before expiry.
    TimedOut { peers: Vec<String> },
}

impl View for LookupOutcome {
    type V = LookupOutcomeV;

    open spec fn view(&self) -> LookupOutcomeV {
        match self {
            LookupOutcome::Finished { peers } => LookupOutcomeV::Finished {
                peers: peers.deep_view(),
            },
            LookupOutcome::TimedOut { peers } => LookupOutcomeV::TimedOut {
                peers: peers.deep_view(),
            },
        }
    }
}

/// An engine occurrence, normalized to plain values by the driver.
#[derive(Debug)]
pub enum EngineEvent {
    /// A chat payload that decoded successfully.
    InboundMessage(ChatMessage),
    ConnectionEstablished { peer_id: String },
    ConnectionClosed { peer_id: String },
    /// Identify-style metadata exchange: a peer advertised its addresses.
    IdentifyReceived { peer_id: String, listen_addrs: Vec<String> },
    /// A closest-peer lookup completed; `handle` names the query.
    LookupCompleted { handle: u64, outcome: LookupOutcome },
}

impl View for EngineEvent {
    type V = EngineEventV;

    open spec fn view(&self) -> EngineEventV {
        match self {
            EngineEvent::InboundMessage(msg) => EngineEventV::InboundMessage { msg: msg@ },
            EngineEvent::ConnectionEstablished { peer_id } => EngineEventV::ConnectionEstablished {
                peer_id: peer_id@,
            },
            EngineEvent::ConnectionClosed { peer_id } => EngineEventV::ConnectionClosed {
                peer_id: peer_id@,
            },
            EngineEvent::IdentifyReceived { peer_id, listen_addrs } => {
                EngineEventV::IdentifyReceived {
                    peer_id: peer_id@,
                    listen_addrs: listen_addrs.deep_view(),
                }
            },
            EngineEvent::LookupCompleted { handle, outcome } => EngineEventV::LookupCompleted {
                handle: *handle,
                outcome: outcome@,
            },
        }
    }
}

/// An effect the orchestration core asks its driver to perform.
#[derive(Debug)]
pub enum Action {
    /// Publish the message on the chat topic.
    Publish(ChatMessage),
    /// Hand the event to the UI.
    Emit(NetworkEvent),
    /// Issue a closest-peer lookup for `peer_id`; results come back under
    /// `handle`.
    StartLookup { handle: u64, peer_id: String },
    /// Dial the textual multiaddress.
    Dial { address: String },
    /// Dial the relay circuit address serving a retry of `peer_id`; a dial
    /// that fails at once must be reported back through the coordinator's
    /// `relay_dial_failed`.
    DialRelay { peer_id: String, address: String },
    /// Register the address as a routing hint for the peer.
    AddRoutingHint { peer_id: String, address: String },
    /// Persist the friend list.
    PersistFriends(Vec<String>),
    /// Start listening on the textual multiaddress.
    ListenOn { address: String },
}

impl View for Action {
    type V = ActionV;

    open spec fn view(&self) -> ActionV {
        match self {
            Action::Publish(msg) => ActionV::Publish { msg: msg@ },
            Action::Emit(event) => ActionV::Emit { event: event@ },
            Action::StartLookup { handle, peer_id } => ActionV::StartLookup {
                handle: *handle,
                peer_id: peer_id@,
            },
            Action::Dial { address } => ActionV::Dial { address: address@ },
            Action::DialRelay { peer_id, address } => ActionV::DialRelay {
                peer_id: peer_id@,
                address: address@,
            },
            Action::AddRoutingHint { peer_id, address } => ActionV::AddRoutingHint {
                peer_id: peer_id@,
                address: address@,
            },
            Action::PersistFriends(friends) => ActionV::PersistFriends {
                friends: friends.deep_view(),
            },
            Action::ListenOn { address } => ActionV::ListenOn { address: address@ },
        }
    }
}

/// The view of a whole list of actions.
pub open spec fn acts_view(acts: Seq<Action>) -> Seq<ActionV> {
    acts.map_values(|a: Action| a@)
}

// ---------------------------------------------------------------------------
// Stored records.
// ---------------------------------------------------------------------------
/// A bootstrap-node record as persisted by the server database.
#[derive(Debug, Clone)]
pub struct BootstrapNode {
    pub address: String,
    pub peer_id: Option<String>,
    pub added_at: i64,
    pub last_verified: Option<i64>,
}

/// A stored chat message row.
#[derive(Debug, Clone)]
pub struct Message {
    pub id: String,
    pub sender: String,
    pub content: String,
    pub timestamp: i64,
    pub created_at: i64,
}

/// A known peer row.
#[derive(Debug, Clone)]
pub struct Peer {
    pub peer_id: String,
    pub last_seen: Option<i64>,
    pub first_seen: i64,
    pub address: Option<String>,
    pub is_bootstrap: bool,
}

/// The local durable identity row.
#[derive(Debug, Clone)]
pub struct Identity {
    pub peer_id: String,
    pub keypair_encrypted: Option<Vec<u8>>,
    pub created_at: i64,
}

} // verus!
