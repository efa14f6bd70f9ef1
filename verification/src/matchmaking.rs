//! Matchmaking client decisions: what a signaling-server message means for
//! the game, what each game command sends, how a live connection reacts to
//! what happens on it, and when to reconnect.
//!
//! The WebSocket, JSON encoding and the background runtime are driven by
//! the caller, who hands each happening to [`connection_step`] and performs
//! the returned action.

use vstd::prelude::*;
use crate::text::{str_eq};

verus! {

/// Summary of a lobby, as listed by the server.
#[derive(Clone, Debug, PartialEq, Eq)]
pub struct LobbyInfo {
    /// Lobby identifier.
    pub lobby_id: String,
    /// Display name of the creator.
    pub display_name: String,
    /// Peers in the lobby, creator included.
    pub peer_count: u32,
    /// Maximum peers; 0 means unlimited.
    pub max_peers: u32,
}

/// A peer in a lobby.
#[derive(Clone, Debug, PartialEq, Eq)]
pub struct PeerInfo {
    /// The peer's session id.
    pub session_id: String,
    /// The peer's display name.
    pub display_name: String,
}

/// An SDP offer or answer for a peer.
#[derive(Clone, Debug, PartialEq, Eq)]
pub struct SdpPayload {
    /// Session id of the receiving peer.
    pub target_session_id: String,
    /// The SDP text.
    pub sdp: String,
    /// `"offer"` or `"answer"`.
    pub kind: String,
}

/// An ICE candidate for a peer.
#[derive(Clone, Debug, PartialEq, Eq)]
pub struct IcePayload {
    /// Session id of the receiving peer.
    pub target_session_id: String,
    /// The candidate, as JSON text (passed through unchanged).
    pub candidate: String,
}

/// An SDP or ICE message relayed from a peer.
#[derive(Clone, Debug, PartialEq, Eq)]
pub struct RelayDelivery {
    /// Session id of the sender.
    pub from_session_id: String,
    /// `"offer"`, `"answer"` or `"ice"`.
    pub kind: String,
    /// The relayed data, as JSON text.
    pub data: String,
}

/// Commands the game sends to the matchmaking connection.
#[derive(Clone, Debug, PartialEq, Eq)]
pub enum MatchmakingCommand {
    /// Register, optionally under a display name.
    Register {
        /// Display name shown to other players.
        display_name: Option<String>,
    },
    /// Ask for the lobby list.
    ListLobbies,
    /// Create a lobby.
    CreateLobby {
        /// Maximum peers; 0 means unlimited.
        max_peers: u32,
    },
    /// Join a lobby.
    JoinLobby {
        /// The lobby to join.
        lobby_id: String,
    },
    /// Leave the current lobby.
    LeaveLobby,
    /// Send an SDP offer.
    SendOffer(SdpPayload),
    /// Send an SDP answer.
    SendAnswer(SdpPayload),
    /// Send an ICE candidate.
    SendIce(IcePayload),
    /// Disconnect and stop.
    Shutdown,
}

/// Events delivered to the game.
#[derive(Clone, Debug, PartialEq, Eq)]
pub enum MatchmakingEvent {
    /// Registration succeeded.
    Registered {
        /// The session id assigned.
        session_id: String,
        /// The display name echoed by the server.
        display_name: String,
    },
    /// The lobby list.
    LobbyList(Vec<LobbyInfo>),
    /// A lobby was created.
    LobbyCreated {
        /// Its id.
        lobby_id: String,
    },
    /// This client joined a lobby.
    LobbyJoined {
        /// The lobby's id.
        lobby_id: String,
        /// The peers already there.
        peers: Vec<PeerInfo>,
    },
    /// A peer joined this client's lobby.
    PeerJoined {
        /// The lobby.
        lobby_id: String,
        /// The new peer.
        peer: PeerInfo,
    },
    /// A peer left this client's lobby.
    PeerLeft {
        /// The lobby.
        lobby_id: String,
        /// The departed peer's session id.
        session_id: String,
    },
    /// A peer's relayed message arrived.
    RelayReceived(RelayDelivery),
    /// The server reported an error.
    ServerError {
        /// Machine-readable code.
        code: String,
        /// Human-readable message.
        message: String,
    },
    /// The connection was lost; a reconnect follows.
    Disconnected,
    /// The connection came back.
    Reconnected,
}

/// Connection settings. Durations are in milliseconds.
#[derive(Clone, Debug, PartialEq, Eq)]
pub struct MatchmakingConfig {
    /// WebSocket URL of the signaling server.
    pub server_url: String,
    /// Display name sent when registering.
    pub display_name: Option<String>,
    /// Reconnect attempts before giving up; 0 retries forever.
    pub max_reconnect_attempts: u32,
    /// Base delay of the exponential reconnect back-off.
    pub reconnect_base_delay_ms: u64,
    /// Interval between keepalive pings.
    pub ping_interval_ms: u64,
}

impl Default for MatchmakingConfig {
    fn default() -> (c: Self)
        ensures
            c.server_url@ == "ws://localhost:8080/ws"@,
            c.display_name is None,
            c.max_reconnect_attempts == 0,
            c.reconnect_base_delay_ms == 1000,
            c.ping_interval_ms == 15000,
    {
        MatchmakingConfig {
            server_url: String::from_str("ws://localhost:8080/ws"),
            display_name: None,
            max_reconnect_attempts: 0,
            reconnect_base_delay_ms: 1000,
            ping_interval_ms: 15000,
        }
    }
}

// ── Inbound messages ──────────────────────────────────────────────────────

/// The fields of a server message's payload the client reads: each string
/// field when it is a string, and each structured field when it decodes.
#[derive(Clone, Debug, PartialEq, Eq)]
pub struct ServerPayload {
    /// `session_id`.
    pub session_id: Option<String>,
    /// `display_name`.
    pub display_name: Option<String>,
    /// `lobby_id`.
    pub lobby_id: Option<String>,
    /// `code`.
    pub code: Option<String>,
    /// `message`.
    pub message: Option<String>,
    /// `lobbies`, decoded as a lobby list.
    pub lobbies: Option<Vec<LobbyInfo>>,
    /// `peers`, decoded as a peer list.
    pub peers: Option<Vec<PeerInfo>>,
    /// `peer`, decoded as a peer.
    pub peer: Option<PeerInfo>,
    /// The whole payload decoded as a relay delivery.
    pub relay: Option<RelayDelivery>,
}

/// A string field's characters, or `default` when absent.
pub open spec fn or_default(s: Option<String>, default: Seq<char>) -> Seq<char> {
    match s {
        Some(t) => t@,
        None => default,
    }
}

fn text_or(s: &Option<String>, default: &str) -> (r: String)
    ensures
        r@ == or_default(*s, default@),
{
    match s {
        Some(t) => t.clone(),
        None => String::from_str(default),
    }
}

/// The meaning of a server message of type `t` with payload `p`, as
/// [`dispatch_server_message`] decides it; strings fields are compared by
/// view.
pub open spec fn dispatch_matches(t: Seq<char>, p: ServerPayload, r: Option<MatchmakingEvent>) -> bool {
    if t == "registered"@ {
        r matches Some(MatchmakingEvent::Registered { session_id, display_name })
            && session_id@ == or_default(p.session_id, ""@) && display_name@ == or_default(
            p.display_name,
            ""@,
        )
    } else if t == "lobby_list"@ {
        r matches Some(MatchmakingEvent::LobbyList(ls)) && ls@ == match p.lobbies {
            Some(v) => v@,
            None => Seq::empty(),
        }
    } else if t == "lobby_created"@ {
        r matches Some(MatchmakingEvent::LobbyCreated { lobby_id }) && lobby_id@ == or_default(
            p.lobby_id,
            ""@,
        )
    } else if t == "lobby_joined"@ {
        r matches Some(MatchmakingEvent::LobbyJoined { lobby_id, peers }) && lobby_id@
            == or_default(p.lobby_id, ""@) && peers@ == match p.peers {
            Some(v) => v@,
            None => Seq::empty(),
        }
    } else if t == "peer_joined"@ {
        r matches Some(MatchmakingEvent::PeerJoined { lobby_id, peer }) && lobby_id@
            == or_default(p.lobby_id, ""@) && match p.peer {
            Some(x) => peer == x,
            None => peer.session_id@ == Seq::<char>::empty() && peer.display_name@ == Seq::<
                char,
            >::empty(),
        }
    } else if t == "peer_left"@ {
        r matches Some(MatchmakingEvent::PeerLeft { lobby_id, session_id }) && lobby_id@
            == or_default(p.lobby_id, ""@) && session_id@ == or_default(p.session_id, ""@)
    } else if t == "relay"@ {
        match p.relay {
            Some(d) => r == Some(MatchmakingEvent::RelayReceived(d)),
            None => r is None,
        }
    } else if t == "error"@ {
        r matches Some(MatchmakingEvent::ServerError { code, message }) && code@ == or_default(
            p.code,
            "unknown"@,
        ) && message@ == or_default(p.message, ""@)
    } else {
        r is None
    }
}

/// Maps a server message of type `msg_type` to the event the game receives,
/// if any: missing string fields read as empty (an error's code as
/// `"unknown"`), undecodable lists as empty, an undecodable peer as an
/// empty peer; an undecodable relay, a `pong` and an unknown type yield
/// nothing.
pub fn dispatch_server_message(msg_type: &str, payload: ServerPayload) -> (r: Option<
    MatchmakingEvent,
>)
    ensures
        dispatch_matches(msg_type@, payload, r),
{
    if str_eq(msg_type, "registered") {
        Some(
            MatchmakingEvent::Registered {
                session_id: text_or(&payload.session_id, ""),
                display_name: text_or(&payload.display_name, ""),
            },
        )
    } else if str_eq(msg_type, "lobby_list") {
        let lobbies = match payload.lobbies {
            Some(v) => v,
            None => Vec::new(),
        };
        Some(MatchmakingEvent::LobbyList(lobbies))
    } else if str_eq(msg_type, "lobby_created") {
        Some(MatchmakingEvent::LobbyCreated { lobby_id: text_or(&payload.lobby_id, "") })
    } else if str_eq(msg_type, "lobby_joined") {
        let lobby_id = text_or(&payload.lobby_id, "");
        let peers = match payload.peers {
            Some(v) => v,
            None => Vec::new(),
        };
        Some(MatchmakingEvent::LobbyJoined { lobby_id, peers })
    } else if str_eq(msg_type, "peer_joined") {
        let lobby_id = text_or(&payload.lobby_id, "");
        let peer = match payload.peer {
            Some(x) => x,
            None => PeerInfo { session_id: String::new(), display_name: String::new() },
        };
        Some(MatchmakingEvent::PeerJoined { lobby_id, peer })
    } else if str_eq(msg_type, "peer_left") {
        Some(
            MatchmakingEvent::PeerLeft {
                lobby_id: text_or(&payload.lobby_id, ""),
                session_id: text_or(&payload.session_id, ""),
            },
        )
    } else if str_eq(msg_type, "relay") {
        match payload.relay {
            Some(d) => Some(MatchmakingEvent::RelayReceived(d)),
            None => None,
        }
    } else if str_eq(msg_type, "error") {
        Some(
            MatchmakingEvent::ServerError {
                code: text_or(&payload.code, "unknown"),
                message: text_or(&payload.message, ""),
            },
        )
    } else {
        None
    }
}

/// Each server message type yields its own kind of event, and every string
/// field of that event is the payload's field of the same name: a
/// `peer_left` message's event carries the payload's `lobby_id` as its
/// lobby and the payload's `session_id` as the departed session, and so on
/// for every type. A field missing from the payload reads as empty, an
/// error's missing code as `"unknown"`.
pub proof fn lemma_event_fields_are_payload_fields_of_same_name(
    t: Seq<char>,
    p: ServerPayload,
    r: Option<MatchmakingEvent>,
)
    requires
        dispatch_matches(t, p, r),
    ensures
        t == "registered"@ ==> r matches Some(MatchmakingEvent::Registered { .. }),
        t == "lobby_list"@ ==> r matches Some(MatchmakingEvent::LobbyList(..)),
        t == "lobby_created"@ ==> r matches Some(MatchmakingEvent::LobbyCreated { .. }),
        t == "lobby_joined"@ ==> r matches Some(MatchmakingEvent::LobbyJoined { .. }),
        t == "peer_joined"@ ==> r matches Some(MatchmakingEvent::PeerJoined { .. }),
        t == "peer_left"@ ==> r matches Some(MatchmakingEvent::PeerLeft { .. }),
        t == "error"@ ==> r matches Some(MatchmakingEvent::ServerError { .. }),
        t == "pong"@ ==> r is None,
        match r {
            Some(MatchmakingEvent::Registered { session_id, display_name }) => (match p.session_id {
                Some(x) => session_id@ == x@,
                None => session_id@.len() == 0,
            }) && (match p.display_name {
                Some(x) => display_name@ == x@,
                None => display_name@.len() == 0,
            }),
            Some(MatchmakingEvent::LobbyCreated { lobby_id }) => match p.lobby_id {
                Some(x) => lobby_id@ == x@,
                None => lobby_id@.len() == 0,
            },
            Some(MatchmakingEvent::LobbyJoined { lobby_id, peers }) => (match p.lobby_id {
                Some(x) => lobby_id@ == x@,
                None => lobby_id@.len() == 0,
            }) && (match p.peers {
                Some(x) => peers@ == x@,
                None => peers@.len() == 0,
            }),
            Some(MatchmakingEvent::PeerJoined { lobby_id, peer }) => (match p.lobby_id {
                Some(x) => lobby_id@ == x@,
                None => lobby_id@.len() == 0,
            }) && (match p.peer {
                Some(x) => peer == x,
                None => peer.session_id@.len() == 0 && peer.display_name@.len() == 0,
            }),
            Some(MatchmakingEvent::PeerLeft { lobby_id, session_id }) => (match p.lobby_id {
                Some(x) => lobby_id@ == x@,
                None => lobby_id@.len() == 0,
            }) && (match p.session_id {
                Some(x) => session_id@ == x@,
                None => session_id@.len() == 0,
            }),
            Some(MatchmakingEvent::ServerError { code, message }) => (match p.code {
                Some(x) => code@ == x@,
                None => code@ == "unknown"@,
            }) && (match p.message {
                Some(x) => message@ == x@,
                None => message@.len() == 0,
            }),
            Some(MatchmakingEvent::LobbyList(ls)) => match p.lobbies {
                Some(x) => ls@ == x@,
                None => ls@.len() == 0,
            },
            Some(MatchmakingEvent::RelayReceived(d)) => p.relay == Some(d),
            _ => true,
        },
{
    reveal_strlit("registered");
    reveal_strlit("lobby_list");
    reveal_strlit("lobby_created");
    reveal_strlit("lobby_joined");
    reveal_strlit("peer_joined");
    reveal_strlit("peer_left");
    reveal_strlit("relay");
    reveal_strlit("error");
    reveal_strlit("pong");
    reveal_strlit("");
    assert("lobby_list"@[0] != "registered"@[0]);
    assert("lobby_created"@.len() != "registered"@.len());
    assert("lobby_created"@.len() != "lobby_list"@.len());
    assert("lobby_joined"@.len() != "registered"@.len());
    assert("lobby_joined"@.len() != "lobby_list"@.len());
    assert("lobby_joined"@.len() != "lobby_created"@.len());
    assert("peer_joined"@.len() != "registered"@.len());
    assert("peer_joined"@.len() != "lobby_list"@.len());
    assert("peer_joined"@.len() != "lobby_created"@.len());
    assert("peer_joined"@.len() != "lobby_joined"@.len());
    assert("peer_left"@.len() != "registered"@.len());
    assert("peer_left"@.len() != "lobby_list"@.len());
    assert("peer_left"@.len() != "lobby_created"@.len());
    assert("peer_left"@.len() != "lobby_joined"@.len());
    assert("peer_left"@.len() != "peer_joined"@.len());
    assert("error"@.len() != "registered"@.len());
    assert("error"@.len() != "lobby_list"@.len());
    assert("error"@.len() != "lobby_created"@.len());
    assert("error"@.len() != "lobby_joined"@.len());
    assert("error"@.len() != "peer_joined"@.len());
    assert("error"@.len() != "peer_left"@.len());
    assert("error"@[0] != "relay"@[0]);
}

// ── Outbound messages ─────────────────────────────────────────────────────

/// The payload of a message to the server.
#[derive(Clone, Debug, PartialEq, Eq)]
pub enum OutboundPayload {
    /// No payload.
    Empty,
    /// `{"display_name": …}`.
    DisplayName(String),
    /// `{"max_peers": …}`.
    MaxPeers(u32),
    /// `{"lobby_id": …}`.
    LobbyId(String),
    /// `{"target_session_id": …, "data": {"type": kind, "sdp": …}}`.
    Sdp {
        /// Receiving peer.
        target_session_id: String,
        /// `"offer"` or `"answer"`.
        kind: String,
        /// The SDP text.
        sdp: String,
    },
    /// `{"target_session_id": …, "data": <candidate JSON>}`.
    Ice {
        /// Receiving peer.
        target_session_id: String,
        /// The candidate, as JSON text.
        candidate: String,
    },
}

/// A message to the server: its type and payload.
#[derive(Clone, Debug, PartialEq, Eq)]
pub struct OutboundMessage {
    /// The `type` field.
    pub msg_type: String,
    /// The payload.
    pub payload: OutboundPayload,
}

/// The message a command sends; `None` for `Shutdown`, which sends nothing.
pub open spec fn command_message_matches(cmd: MatchmakingCommand, r: Option<OutboundMessage>) -> bool {
    match r {
        None => cmd is Shutdown,
        Some(m) => match cmd {
            MatchmakingCommand::Register { display_name } => m.msg_type@ == "register"@
                && match m.payload {
                OutboundPayload::DisplayName(n) => n@ == or_default(display_name, ""@),
                _ => false,
            },
            MatchmakingCommand::ListLobbies => m.msg_type@ == "list_lobbies"@
                && m.payload is Empty,
            MatchmakingCommand::CreateLobby { max_peers } => m.msg_type@ == "create_lobby"@
                && m.payload == OutboundPayload::MaxPeers(max_peers),
            MatchmakingCommand::JoinLobby { lobby_id } => m.msg_type@ == "join_lobby"@
                && m.payload == OutboundPayload::LobbyId(lobby_id),
            MatchmakingCommand::LeaveLobby => m.msg_type@ == "leave"@ && m.payload is Empty,
            MatchmakingCommand::SendOffer(x) => m.msg_type@ == "offer"@ && sdp_payload_matches(
                m.payload,
                x,
                "offer"@,
            ),
            MatchmakingCommand::SendAnswer(x) => m.msg_type@ == "answer"@ && sdp_payload_matches(
                m.payload,
                x,
                "answer"@,
            ),
            MatchmakingCommand::SendIce(i) => m.msg_type@ == "ice"@ && m.payload == (
            OutboundPayload::Ice { target_session_id: i.target_session_id, candidate: i.candidate }),
            MatchmakingCommand::Shutdown => false,
        },
    }
}

/// The payload carries the SDP message `x` tagged `kind`.
pub open spec fn sdp_payload_matches(p: OutboundPayload, x: SdpPayload, kind: Seq<char>) -> bool {
    match p {
        OutboundPayload::Sdp { target_session_id, kind: k, sdp } => target_session_id
            == x.target_session_id && k@ == kind && sdp == x.sdp,
        _ => false,
    }
}

/// The message a command sends to the server.
pub fn command_to_envelope(cmd: MatchmakingCommand) -> (r: Option<OutboundMessage>)
    ensures
        command_message_matches(cmd, r),
{
    match cmd {
        MatchmakingCommand::Register { display_name } => {
            let n = text_or(&display_name, "");
            Some(
                OutboundMessage {
                    msg_type: String::from_str("register"),
                    payload: OutboundPayload::DisplayName(n),
                },
            )
        },
        MatchmakingCommand::ListLobbies => Some(
            OutboundMessage {
                msg_type: String::from_str("list_lobbies"),
                payload: OutboundPayload::Empty,
            },
        ),
        MatchmakingCommand::CreateLobby { max_peers } => Some(
            OutboundMessage {
                msg_type: String::from_str("create_lobby"),
                payload: OutboundPayload::MaxPeers(max_peers),
            },
        ),
        MatchmakingCommand::JoinLobby { lobby_id } => Some(
            OutboundMessage {
                msg_type: String::from_str("join_lobby"),
                payload: OutboundPayload::LobbyId(lobby_id),
            },
        ),
        MatchmakingCommand::LeaveLobby => Some(
            OutboundMessage { msg_type: String::from_str("leave"), payload: OutboundPayload::Empty },
        ),
        MatchmakingCommand::SendOffer(s) => Some(
            OutboundMessage {
                msg_type: String::from_str("offer"),
                payload: OutboundPayload::Sdp {
                    target_session_id: s.target_session_id,
                    kind: String::from_str("offer"),
                    sdp: s.sdp,
                },
            },
        ),
        MatchmakingCommand::SendAnswer(s) => Some(
            OutboundMessage {
                msg_type: String::from_str("answer"),
                payload: OutboundPayload::Sdp {
                    target_session_id: s.target_session_id,
                    kind: String::from_str("answer"),
                    sdp: s.sdp,
                },
            },
        ),
        MatchmakingCommand::SendIce(i) => Some(
            OutboundMessage {
                msg_type: String::from_str("ice"),
                payload: OutboundPayload::Ice {
                    target_session_id: i.target_session_id,
                    candidate: i.candidate,
                },
            },
        ),
        MatchmakingCommand::Shutdown => None,
    }
}

// ── The live connection ───────────────────────────────────────────────────

/// How one connection ended.
#[derive(Clone, Copy, Debug, PartialEq, Eq, Structural)]
pub enum LoopResult {
    /// The game asked to stop.
    Shutdown,
    /// The connection was lost or could not be made.
    Disconnected,
}

/// A frame read from the WebSocket.
#[derive(Clone, Debug, PartialEq, Eq)]
pub enum InboundFrame {
    /// A text frame holding a well-formed message: its type and payload.
    Message {
        /// The `type` field.
        msg_type: String,
        /// The payload fields.
        payload: ServerPayload,
    },
    /// A text frame that is not a well-formed message.
    Unrecognised,
    /// A ping with its data.
    Ping(Vec<u8>),
    /// A close frame, or the end of the stream.
    Closed,
    /// Any other frame (binary, pong).
    Other,
    /// A read error.
    ReadError,
}

/// What happened on a connection.
#[derive(Clone, Debug, PartialEq, Eq)]
pub enum ConnectionInput {
    /// Connecting succeeded.
    Connected,
    /// Connecting failed.
    ConnectFailed,
    /// A frame arrived.
    Frame(InboundFrame),
    /// The game sent a command.
    Command(MatchmakingCommand),
    /// The keepalive interval elapsed.
    PingDue,
    /// Sending a message (registration, command or ping) failed.
    SendFailed,
}

/// What the connection does next.
#[derive(Clone, Debug, PartialEq, Eq)]
pub enum ConnectionAction {
    /// Send this message; report `SendFailed` if that fails.
    Send(OutboundMessage),
    /// Answer a ping with this data (a failure is ignored).
    Pong(Vec<u8>),
    /// Deliver this event to the game.
    Emit(MatchmakingEvent),
    /// Nothing to do.
    Wait,
    /// End the connection with this result.
    Finish(LoopResult),
}

/// The registration message sent right after connecting.
pub open spec fn is_register_message(m: OutboundMessage, config: MatchmakingConfig) -> bool {
    m.msg_type@ == "register"@ && match m.payload {
        OutboundPayload::DisplayName(n) => n@ == or_default(config.display_name, ""@),
        _ => false,
    }
}

/// The reaction of a live connection to `input`.
pub open spec fn step_matches(config: MatchmakingConfig, input: ConnectionInput, a: ConnectionAction) -> bool {
    match input {
        ConnectionInput::Connected => a matches ConnectionAction::Send(m) && is_register_message(
            m,
            config,
        ),
        ConnectionInput::ConnectFailed => a == ConnectionAction::Finish(LoopResult::Disconnected),
        ConnectionInput::SendFailed => a == ConnectionAction::Finish(LoopResult::Disconnected),
        ConnectionInput::PingDue => a matches ConnectionAction::Send(m) && m.msg_type@ == "ping"@
            && m.payload is Empty,
        ConnectionInput::Command(cmd) => match cmd {
            MatchmakingCommand::Shutdown => a == ConnectionAction::Finish(LoopResult::Shutdown),
            _ => a matches ConnectionAction::Send(m) && command_message_matches(cmd, Some(m)),
        },
        ConnectionInput::Frame(f) => match f {
            InboundFrame::Message { msg_type, payload } => exists|e: Option<MatchmakingEvent>|
                #![trigger dispatch_matches(msg_type@, payload, e)]
                dispatch_matches(msg_type@, payload, e) && match e {
                    Some(ev) => a == ConnectionAction::Emit(ev),
                    None => a == ConnectionAction::Wait,
                },
            InboundFrame::Unrecognised => a == ConnectionAction::Wait,
            InboundFrame::Ping(d) => a == ConnectionAction::Pong(d),
            InboundFrame::Closed => a == ConnectionAction::Finish(LoopResult::Disconnected),
            InboundFrame::Other => a == ConnectionAction::Wait,
            InboundFrame::ReadError => a == ConnectionAction::Finish(LoopResult::Disconnected),
        },
    }
}

/// Decides how a connection reacts to one input: register once connected,
/// relay server messages to the game, answer pings, send commands and
/// keepalive pings, and end on a failed connect or send, a closed stream, a
/// read error, or a shutdown command.
pub fn connection_step(config: &MatchmakingConfig, input: ConnectionInput) -> (a: ConnectionAction)
    ensures
        step_matches(*config, input, a),
{
    match input {
        ConnectionInput::Connected => {
            let n = text_or(&config.display_name, "");
            ConnectionAction::Send(
                OutboundMessage {
                    msg_type: String::from_str("register"),
                    payload: OutboundPayload::DisplayName(n),
                },
            )
        },
        ConnectionInput::ConnectFailed => ConnectionAction::Finish(LoopResult::Disconnected),
        ConnectionInput::SendFailed => ConnectionAction::Finish(LoopResult::Disconnected),
        ConnectionInput::PingDue => ConnectionAction::Send(
            OutboundMessage { msg_type: String::from_str("ping"), payload: OutboundPayload::Empty },
        ),
        ConnectionInput::Command(cmd) => {
            let ghost c = cmd;
            match command_to_envelope(cmd) {
                Some(m) => ConnectionAction::Send(m),
                None => ConnectionAction::Finish(LoopResult::Shutdown),
            }
        },
        ConnectionInput::Frame(f) => match f {
            InboundFrame::Message { msg_type, payload } => {
                let ghost t = msg_type@;
                let ghost p = payload;
                let e = dispatch_server_message(msg_type.as_str(), payload);
                assert(dispatch_matches(t, p, e));
                match e {
                    Some(ev) => ConnectionAction::Emit(ev),
                    None => ConnectionAction::Wait,
                }
            },
            InboundFrame::Unrecognised => ConnectionAction::Wait,
            InboundFrame::Ping(d) => ConnectionAction::Pong(d),
            InboundFrame::Closed => ConnectionAction::Finish(LoopResult::Disconnected),
            InboundFrame::Other => ConnectionAction::Wait,
            InboundFrame::ReadError => ConnectionAction::Finish(LoopResult::Disconnected),
        },
    }
}

// ── Reconnecting ──────────────────────────────────────────────────────────

/// After a lost connection.
#[derive(Clone, Copy, Debug, PartialEq, Eq, Structural)]
pub enum Reconnect {
    /// Stop trying.
    GiveUp,
    /// Try again after this many milliseconds.
    RetryAfterMs(u64),
}

/// `2^k`.
pub open spec fn pow2_spec(k: nat) -> nat
    decreases k,
{
    if k == 0 {
        1
    } else {
        2 * pow2_spec((k - 1) as nat)
    }
}

/// The back-off exponent after the `attempt`-th lost connection:
/// `min(attempt, 6)`.
pub open spec fn backoff_exponent(attempt: u32) -> nat {
    if attempt < 6 {
        attempt as nat
    } else {
        6
    }
}

/// Whether the client gives up after the `attempt`-th lost connection: a
/// positive attempt limit has been reached.
pub open spec fn gives_up(config: MatchmakingConfig, attempt: u32) -> bool {
    config.max_reconnect_attempts > 0 && attempt >= config.max_reconnect_attempts
}

/// What to do after the `attempt`-th consecutive lost connection (counted
/// from 0): give up once a positive attempt limit is reached; otherwise
/// wait the base delay times `2^min(attempt, 6)`.
pub open spec fn reconnect_spec(config: MatchmakingConfig, attempt: u32) -> Reconnect {
    if gives_up(config, attempt) {
        Reconnect::GiveUp
    } else {
        Reconnect::RetryAfterMs((config.reconnect_base_delay_ms * pow2_spec(backoff_exponent(attempt))) as u64)
    }
}

/// Decides whether and when to reconnect after a lost connection.
pub fn reconnect_decision(config: &MatchmakingConfig, attempt: u32) -> (r: Reconnect)
    requires
        !gives_up(*config, attempt) ==> config.reconnect_base_delay_ms * pow2_spec(backoff_exponent(attempt))
            <= u64::MAX,
    ensures
        r == reconnect_spec(*config, attempt),
{
    if config.max_reconnect_attempts > 0 && attempt >= config.max_reconnect_attempts {
        return Reconnect::GiveUp;
    }
    let k: u32 = if attempt < 6 {
        attempt
    } else {
        6
    };
    let factor: u64 = if k == 0 {
        1
    } else if k == 1 {
        2
    } else if k == 2 {
        4
    } else if k == 3 {
        8
    } else if k == 4 {
        16
    } else if k == 5 {
        32
    } else {
        64
    };
    proof {
        reveal_with_fuel(pow2_spec, 7);
    }
    assert(factor == pow2_spec(k as nat));
    assert(k as nat == backoff_exponent(attempt));
    Reconnect::RetryAfterMs(config.reconnect_base_delay_ms * factor)
}

/// The back-off never waits more than 64 base delays, and a client with no
/// attempt limit never gives up.
pub proof fn lemma_backoff_bounded(config: MatchmakingConfig, attempt: u32)
    ensures
        reconnect_spec(config, attempt) matches Reconnect::RetryAfterMs(d) ==> d
            <= config.reconnect_base_delay_ms * 64 || config.reconnect_base_delay_ms * 64
            > u64::MAX,
        config.max_reconnect_attempts == 0 ==> reconnect_spec(config, attempt) is RetryAfterMs,
{
    reveal_with_fuel(pow2_spec, 7);
    let k: nat = if attempt < 6 {
        attempt as nat
    } else {
        6
    };
    assert(pow2_spec(k) <= 64);
    assert(config.reconnect_base_delay_ms * pow2_spec(k) <= config.reconnect_base_delay_ms * 64) by (nonlinear_arith)
        requires
            pow2_spec(k) <= 64,
    ;
}

/// The session id the game knows after `event`, given the one it knew.
pub fn session_after(current: Option<String>, event: &MatchmakingEvent) -> (r: Option<String>)
    ensures
        match *event {
            MatchmakingEvent::Registered { session_id, .. } => r matches Some(s) && s@
                == session_id@,
            _ => r == current,
        },
{
    match event {
        MatchmakingEvent::Registered { session_id, .. } => Some(session_id.clone()),
        _ => current,
    }
}

} // verus!
