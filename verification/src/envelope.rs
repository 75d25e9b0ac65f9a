//! Wire-level message shapes exchanged between client and server.
//!
//! The inbound direction (client to server) is a [`ServerMessage`]: an
//! addressed signaling payload. The outbound direction (server to client) is a
//! [`ClientMessage`]: either a relayed signaling payload tagged with its
//! sender, or a full membership snapshot. Payloads are opaque strings relayed
//! verbatim.
//!
//! Every type carries a mathematical view over sequences of characters, which
//! is what the contracts of the relay and of the codec speak of.

use vstd::prelude::*;

verus! {

/// A session-negotiation payload, relayed verbatim between peers.
#[derive(Debug, Clone)]
pub enum Command {
    /// A session offer (e.g. an SDP description).
    Offer(String),
    /// A session answer.
    Answer(String),
    /// A connectivity candidate.
    IceCandidate(String),
}

/// Mathematical view of a [`Command`].
pub enum CommandView {
    Offer(Seq<char>),
    Answer(Seq<char>),
    IceCandidate(Seq<char>),
}

impl View for Command {
    type V = CommandView;

    open spec fn view(&self) -> CommandView {
        match self {
            Command::Offer(s) => CommandView::Offer(s@),
            Command::Answer(s) => CommandView::Answer(s@),
            Command::IceCandidate(s) => CommandView::IceCandidate(s@),
        }
    }
}

/// What a membership snapshot records of one member.
#[derive(Debug, Clone)]
pub struct MemberState {
    pub name: String,
}

/// One entry of a membership snapshot: a user id and what is known of them.
#[derive(Debug, Clone)]
pub struct MemberEntry {
    pub user_id: String,
    pub state: MemberState,
}

/// A full point-in-time view of room membership, sent to every member on any
/// membership change.
#[derive(Debug, Clone)]
pub struct GroupStateUpdate {
    pub members: Vec<MemberEntry>,
}

impl View for GroupStateUpdate {
    /// The entries in order, each as `(user_id, display_name)`.
    type V = Seq<(Seq<char>, Seq<char>)>;

    open spec fn view(&self) -> Seq<(Seq<char>, Seq<char>)> {
        self.members@.map_values(|e: MemberEntry| (e.user_id@, e.state.name@))
    }
}

/// The entries of a snapshot read as a map, later entries winning on a
/// repeated id.
pub open spec fn snapshot_map(entries: Seq<(Seq<char>, Seq<char>)>) -> Map<Seq<char>, Seq<char>>
    decreases entries.len(),
{
    if entries.len() == 0 {
        Map::empty()
    } else {
        snapshot_map(entries.drop_last()).insert(entries.last().0, entries.last().1)
    }
}

/// Content of an outbound message: a relayed payload or a snapshot.
#[derive(Debug, Clone)]
pub enum ClientContent {
    Command(Command),
    StateUpdate(GroupStateUpdate),
}

/// Mathematical view of a [`ClientContent`].
pub enum ClientContentView {
    Command(CommandView),
    StateUpdate(Seq<(Seq<char>, Seq<char>)>),
}

impl View for ClientContent {
    type V = ClientContentView;

    open spec fn view(&self) -> ClientContentView {
        match self {
            ClientContent::Command(c) => ClientContentView::Command(c@),
            ClientContent::StateUpdate(u) => ClientContentView::StateUpdate(u@),
        }
    }
}

/// An outbound (server to client) message.
#[derive(Debug, Clone)]
pub struct ClientMessage {
    /// The sender of a relayed payload; absent on snapshots.
    pub from_user: Option<String>,
    pub content: Option<ClientContent>,
}

/// Mathematical view of a [`ClientMessage`].
pub struct ClientMessageView {
    pub from_user: Option<Seq<char>>,
    pub content: Option<ClientContentView>,
}

impl View for ClientMessage {
    type V = ClientMessageView;

    open spec fn view(&self) -> ClientMessageView {
        ClientMessageView {
            from_user: match &self.from_user {
                Some(u) => Some(u@),
                None => None,
            },
            content: match &self.content {
                Some(c) => Some(c@),
                None => None,
            },
        }
    }
}

/// An inbound (client to server) message: a payload addressed to one peer.
#[derive(Debug, Clone)]
pub struct ServerMessage {
    pub to_user: Option<String>,
    pub content: Option<Command>,
}

/// Mathematical view of a [`ServerMessage`].
pub struct ServerMessageView {
    pub to_user: Option<Seq<char>>,
    pub content: Option<CommandView>,
}

impl View for ServerMessage {
    type V = ServerMessageView;

    open spec fn view(&self) -> ServerMessageView {
        ServerMessageView {
            to_user: match &self.to_user {
                Some(u) => Some(u@),
                None => None,
            },
            content: match &self.content {
                Some(c) => Some(c@),
                None => None,
            },
        }
    }
}

impl ClientMessage {
    /// The message a member receives when `from` relays `cmd` to them.
    pub fn routed(from: String, cmd: Command) -> (m: ClientMessage)
        ensures
            m@.from_user == Some(from@),
            m@.content == Some(ClientContentView::Command(cmd@)),
    {
        ClientMessage { from_user: Some(from), content: Some(ClientContent::Command(cmd)) }
    }

    /// The message that carries a membership snapshot to a member.
    pub fn state_update(update: GroupStateUpdate) -> (m: ClientMessage)
        ensures
            m@.from_user is None,
            m@.content == Some(ClientContentView::StateUpdate(update@)),
    {
        ClientMessage { from_user: None, content: Some(ClientContent::StateUpdate(update)) }
    }
}

} // verus!
