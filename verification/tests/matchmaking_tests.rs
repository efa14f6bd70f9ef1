use apeiron_cipher::matchmaking::{
    command_to_envelope, connection_step, dispatch_server_message, reconnect_decision,
    session_after, ConnectionAction, ConnectionInput, IcePayload, InboundFrame, LobbyInfo,
    LoopResult, MatchmakingCommand, MatchmakingConfig, MatchmakingEvent, OutboundMessage,
    OutboundPayload, PeerInfo, Reconnect, RelayDelivery, SdpPayload, ServerPayload,
};

fn empty_payload() -> ServerPayload {
    ServerPayload {
        session_id: None,
        display_name: None,
        lobby_id: None,
        code: None,
        message: None,
        lobbies: None,
        peers: None,
        peer: None,
        relay: None,
    }
}

fn s(x: &str) -> Option<String> {
    Some(x.to_string())
}

#[test]
fn list_lobbies_command_envelope() {
    let env = command_to_envelope(MatchmakingCommand::ListLobbies).unwrap();
    assert_eq!(env.msg_type, "list_lobbies");
    assert_eq!(env.payload, OutboundPayload::Empty);
}

#[test]
fn create_lobby_command_encodes_max_peers() {
    let env = command_to_envelope(MatchmakingCommand::CreateLobby { max_peers: 4 }).unwrap();
    assert_eq!(env.msg_type, "create_lobby");
    assert_eq!(env.payload, OutboundPayload::MaxPeers(4));
}

#[test]
fn join_lobby_command_encodes_lobby_id() {
    let env = command_to_envelope(MatchmakingCommand::JoinLobby {
        lobby_id: "lobby-abc".to_owned(),
    })
    .unwrap();
    assert_eq!(env.msg_type, "join_lobby");
    assert_eq!(env.payload, OutboundPayload::LobbyId("lobby-abc".to_string()));
}

#[test]
fn shutdown_command_produces_no_envelope() {
    assert!(command_to_envelope(MatchmakingCommand::Shutdown).is_none());
}

#[test]
fn send_offer_command_shape() {
    let env = command_to_envelope(MatchmakingCommand::SendOffer(SdpPayload {
        target_session_id: "peer-1".to_owned(),
        sdp: "v=0\r\n...".to_owned(),
        kind: "offer".to_owned(),
    }))
    .unwrap();
    assert_eq!(env.msg_type, "offer");
    match env.payload {
        OutboundPayload::Sdp {
            target_session_id,
            kind,
            sdp,
        } => {
            assert_eq!(target_session_id, "peer-1");
            assert_eq!(kind, "offer");
            assert_eq!(sdp, "v=0\r\n...");
        }
        other => panic!("expected an SDP payload, got {other:?}"),
    }
}

#[test]
fn other_commands_have_their_wire_types() {
    let reg = command_to_envelope(MatchmakingCommand::Register { display_name: None }).unwrap();
    assert_eq!(reg.msg_type, "register");
    assert_eq!(reg.payload, OutboundPayload::DisplayName(String::new()));
    let leave = command_to_envelope(MatchmakingCommand::LeaveLobby).unwrap();
    assert_eq!(leave.msg_type, "leave");
    assert_eq!(leave.payload, OutboundPayload::Empty);
    let answer = command_to_envelope(MatchmakingCommand::SendAnswer(SdpPayload {
        target_session_id: "p".to_string(),
        sdp: "x".to_string(),
        kind: "ignored".to_string(),
    }))
    .unwrap();
    assert_eq!(answer.msg_type, "answer");
    assert_eq!(
        answer.payload,
        OutboundPayload::Sdp {
            target_session_id: "p".to_string(),
            kind: "answer".to_string(),
            sdp: "x".to_string(),
        }
    );
    let ice = command_to_envelope(MatchmakingCommand::SendIce(IcePayload {
        target_session_id: "p".to_string(),
        candidate: "{\"c\":1}".to_string(),
    }))
    .unwrap();
    assert_eq!(ice.msg_type, "ice");
    assert_eq!(
        ice.payload,
        OutboundPayload::Ice {
            target_session_id: "p".to_string(),
            candidate: "{\"c\":1}".to_string(),
        }
    );
}

#[test]
fn dispatch_registered() {
    let mut p = empty_payload();
    p.session_id = s("s1");
    p.display_name = s("Alice");
    let evt = dispatch_server_message("registered", p).unwrap();
    match evt {
        MatchmakingEvent::Registered {
            session_id,
            display_name,
        } => {
            assert_eq!(session_id, "s1");
            assert_eq!(display_name, "Alice");
        }
        other => panic!("expected Registered, got {other:?}"),
    }
}

#[test]
fn dispatch_lobby_list_empty() {
    let mut p = empty_payload();
    p.lobbies = Some(vec![]);
    let evt = dispatch_server_message("lobby_list", p).unwrap();
    match evt {
        MatchmakingEvent::LobbyList(list) => assert!(list.is_empty()),
        other => panic!("expected LobbyList, got {other:?}"),
    }
}

#[test]
fn dispatch_lobby_list_with_entries() {
    let mut p = empty_payload();
    p.lobbies = Some(vec![LobbyInfo {
        lobby_id: "lx".to_string(),
        display_name: "Host".to_string(),
        peer_count: 2,
        max_peers: 4,
    }]);
    let evt = dispatch_server_message("lobby_list", p).unwrap();
    match evt {
        MatchmakingEvent::LobbyList(list) => {
            assert_eq!(list.len(), 1);
            assert_eq!(list[0].lobby_id, "lx");
            assert_eq!(list[0].peer_count, 2);
            assert_eq!(list[0].max_peers, 4);
        }
        other => panic!("expected LobbyList, got {other:?}"),
    }
}

#[test]
fn dispatch_peer_joined() {
    let mut p = empty_payload();
    p.lobby_id = s("lobby-1");
    p.peer = Some(PeerInfo {
        session_id: "s2".to_string(),
        display_name: "Bob".to_string(),
    });
    let evt = dispatch_server_message("peer_joined", p).unwrap();
    match evt {
        MatchmakingEvent::PeerJoined { lobby_id, peer } => {
            assert_eq!(lobby_id, "lobby-1");
            assert_eq!(peer.session_id, "s2");
            assert_eq!(peer.display_name, "Bob");
        }
        other => panic!("expected PeerJoined, got {other:?}"),
    }
}

#[test]
fn dispatch_error() {
    let mut p = empty_payload();
    p.code = s("not_registered");
    p.message = s("Please register first");
    let evt = dispatch_server_message("error", p).unwrap();
    match evt {
        MatchmakingEvent::ServerError { code, message } => {
            assert_eq!(code, "not_registered");
            assert_eq!(message, "Please register first");
        }
        other => panic!("expected ServerError, got {other:?}"),
    }
}

#[test]
fn dispatch_error_without_fields_uses_defaults() {
    let evt = dispatch_server_message("error", empty_payload()).unwrap();
    assert_eq!(
        evt,
        MatchmakingEvent::ServerError {
            code: "unknown".to_string(),
            message: String::new(),
        }
    );
}

#[test]
fn dispatch_pong_returns_none() {
    assert!(dispatch_server_message("pong", empty_payload()).is_none());
}

#[test]
fn dispatch_unknown_type_returns_none() {
    assert!(dispatch_server_message("future_message_type_v99", empty_payload()).is_none());
}

#[test]
fn dispatch_relay_needs_a_decoded_delivery() {
    assert!(dispatch_server_message("relay", empty_payload()).is_none());
    let d = RelayDelivery {
        from_session_id: "a".to_string(),
        kind: "ice".to_string(),
        data: "{}".to_string(),
    };
    let mut p = empty_payload();
    p.relay = Some(d.clone());
    assert_eq!(
        dispatch_server_message("relay", p),
        Some(MatchmakingEvent::RelayReceived(d))
    );
}

#[test]
fn config_defaults_are_sane() {
    let cfg = MatchmakingConfig::default();
    assert!(cfg.server_url.starts_with("ws://"));
    assert!(cfg.reconnect_base_delay_ms / 1000 >= 1);
    assert!(cfg.ping_interval_ms / 1000 >= 10);
    assert_eq!(cfg.server_url, "ws://localhost:8080/ws");
    assert_eq!(cfg.max_reconnect_attempts, 0);
}

#[test]
fn connection_registers_then_relays_and_ends() {
    let mut cfg = MatchmakingConfig::default();
    cfg.display_name = s("Alice");
    assert_eq!(
        connection_step(&cfg, ConnectionInput::Connected),
        ConnectionAction::Send(OutboundMessage {
            msg_type: "register".to_string(),
            payload: OutboundPayload::DisplayName("Alice".to_string()),
        })
    );
    assert_eq!(
        connection_step(&cfg, ConnectionInput::PingDue),
        ConnectionAction::Send(OutboundMessage {
            msg_type: "ping".to_string(),
            payload: OutboundPayload::Empty,
        })
    );
    let mut p = empty_payload();
    p.lobby_id = s("L");
    assert_eq!(
        connection_step(
            &cfg,
            ConnectionInput::Frame(InboundFrame::Message {
                msg_type: "lobby_created".to_string(),
                payload: p,
            })
        ),
        ConnectionAction::Emit(MatchmakingEvent::LobbyCreated {
            lobby_id: "L".to_string()
        })
    );
    assert_eq!(
        connection_step(
            &cfg,
            ConnectionInput::Frame(InboundFrame::Message {
                msg_type: "pong".to_string(),
                payload: empty_payload(),
            })
        ),
        ConnectionAction::Wait
    );
    assert_eq!(
        connection_step(&cfg, ConnectionInput::Frame(InboundFrame::Ping(vec![1, 2]))),
        ConnectionAction::Pong(vec![1, 2])
    );
    assert_eq!(
        connection_step(&cfg, ConnectionInput::Frame(InboundFrame::Closed)),
        ConnectionAction::Finish(LoopResult::Disconnected)
    );
    assert_eq!(
        connection_step(&cfg, ConnectionInput::Command(MatchmakingCommand::Shutdown)),
        ConnectionAction::Finish(LoopResult::Shutdown)
    );
    assert_eq!(
        connection_step(&cfg, ConnectionInput::ConnectFailed),
        ConnectionAction::Finish(LoopResult::Disconnected)
    );
}

#[test]
fn reconnect_backs_off_exponentially_up_to_sixty_four_times() {
    let cfg = MatchmakingConfig::default();
    assert_eq!(reconnect_decision(&cfg, 0), Reconnect::RetryAfterMs(1000));
    assert_eq!(reconnect_decision(&cfg, 1), Reconnect::RetryAfterMs(2000));
    assert_eq!(reconnect_decision(&cfg, 5), Reconnect::RetryAfterMs(32_000));
    assert_eq!(reconnect_decision(&cfg, 6), Reconnect::RetryAfterMs(64_000));
    assert_eq!(reconnect_decision(&cfg, 100), Reconnect::RetryAfterMs(64_000));
    let mut limited = MatchmakingConfig::default();
    limited.max_reconnect_attempts = 3;
    assert_eq!(reconnect_decision(&limited, 2), Reconnect::RetryAfterMs(4000));
    assert_eq!(reconnect_decision(&limited, 3), Reconnect::GiveUp);
}

#[test]
fn session_id_follows_registration() {
    let reg = MatchmakingEvent::Registered {
        session_id: "s9".to_string(),
        display_name: "A".to_string(),
    };
    assert_eq!(session_after(None, &reg), s("s9"));
    assert_eq!(session_after(s("old"), &MatchmakingEvent::Disconnected), s("old"));
}
