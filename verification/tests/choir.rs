use soloband::choir::{
    choir_ws_url, instance_name_from_fullname, join_outcome, member_exit_reason, member_on_frame,
    resolve_match, resolved_choir, server_step, unix_ms_from_elapsed, unix_time_ms, ClientFrame, CommandMessage,
    JoinReply, JoinRequest, JoinResponse, MemberAction, MemberExit, ServerAction, ServerFrame,
    ServerPhase,
};

#[test]
fn protocol_constructors() {
    let j = JoinRequest::new("Tenors".to_string(), "pw".to_string());
    assert_eq!((j.typ.as_str(), j.choir_name.as_str(), j.password.as_str()), ("join", "Tenors", "pw"));
    let ok = JoinResponse::ok();
    assert_eq!((ok.typ.as_str(), ok.message), ("join_ok", None));
    let err = JoinResponse::err("nope".to_string());
    assert_eq!((err.typ.as_str(), err.message.as_deref()), ("join_err", Some("nope")));
    let c = CommandMessage::new("play", 1234);
    assert_eq!((c.typ.as_str(), c.command.as_str(), c.execute_at), ("command", "play", 1234));
}

#[test]
fn discovered_choir_names_and_urls() {
    assert_eq!(instance_name_from_fullname("Tenors._solobandchoir._tcp.local."), "Tenors");
    assert_eq!(instance_name_from_fullname("NoDots"), "NoDots");
    assert_eq!(instance_name_from_fullname(""), "");
    assert_eq!(choir_ws_url("host-1.local.", 8080), "ws://host-1.local:8080");
    assert_eq!(choir_ws_url("10.0.0.2", 0), "ws://10.0.0.2:0");
    let r = resolved_choir("Altos._solobandchoir._tcp.local.", "phone.local.", 65535);
    assert_eq!((r.choir_name.as_str(), r.ws_url.as_str()), ("Altos", "ws://phone.local:65535"));
    assert_eq!(
        resolve_match("Altos._x._tcp.local.", "h.", 12, "Altos"),
        Some("ws://h:12".to_string())
    );
    assert_eq!(resolve_match("Altos._x._tcp.local.", "h.", 12, "Tenors"), None);
}

fn text_join(name: &str, password: &str, typ: &str) -> ClientFrame {
    let mut req = JoinRequest::new(name.to_string(), password.to_string());
    req.typ = typ.to_string();
    ClientFrame::Text { join: Some(req), command: None }
}

fn reply_of(a: &ServerAction) -> (String, Option<String>) {
    match a {
        ServerAction::Reply(r) => (r.typ.clone(), r.message.clone()),
        _ => panic!("expected a reply"),
    }
}

#[test]
fn server_join_exchange() {
    let (p, a) = server_step(ServerPhase::AwaitingJoin, "Choir", "secret", &ClientFrame::Text { join: None, command: None });
    assert_eq!(p, ServerPhase::AwaitingJoin);
    assert_eq!(reply_of(&a), ("join_err".to_string(), Some("invalid message".to_string())));
    let (p, a) = server_step(ServerPhase::AwaitingJoin, "Choir", "secret", &text_join("Choir", "secret", "hello"));
    assert_eq!(p, ServerPhase::AwaitingJoin);
    assert_eq!(reply_of(&a).1.as_deref(), Some("first message must be join"));
    let (p, a) = server_step(ServerPhase::AwaitingJoin, "Choir", "secret", &text_join("Choir", "wrong", "join"));
    assert_eq!(p, ServerPhase::AwaitingJoin);
    assert_eq!(reply_of(&a).1.as_deref(), Some("invalid choir name or password"));
    let (p, a) = server_step(ServerPhase::AwaitingJoin, "Choir", "secret", &text_join("Choir", "secret", "join"));
    assert_eq!(p, ServerPhase::Relaying);
    assert_eq!(reply_of(&a), ("join_ok".to_string(), None));
    let (p, a) = server_step(ServerPhase::AwaitingJoin, "Choir", "secret", &ClientFrame::Other);
    assert_eq!(p, ServerPhase::AwaitingJoin);
    assert!(matches!(a, ServerAction::Continue));
    let (p, a) = server_step(ServerPhase::AwaitingJoin, "Choir", "secret", &ClientFrame::End);
    assert_eq!(p, ServerPhase::Relaying);
    assert!(matches!(a, ServerAction::Continue));
}

#[test]
fn server_relays_commands_and_disconnects() {
    let cmd = CommandMessage::new("pause", 99);
    let (p, a) = server_step(
        ServerPhase::Relaying,
        "C",
        "p",
        &ClientFrame::Text { join: None, command: Some(cmd) },
    );
    assert_eq!(p, ServerPhase::Relaying);
    match a {
        ServerAction::Broadcast(c) => assert_eq!((c.command.as_str(), c.execute_at), ("pause", 99)),
        _ => panic!("expected a broadcast"),
    }
    let mut other = CommandMessage::new("play", 1);
    other.typ = "chat".to_string();
    let (_, a) = server_step(ServerPhase::Relaying, "C", "p", &ClientFrame::Text { join: None, command: Some(other) });
    assert!(matches!(a, ServerAction::Continue));
    let (_, a) = server_step(ServerPhase::Relaying, "C", "p", &ClientFrame::Close { detail: "None".to_string() });
    match a {
        ServerAction::Disconnect { reason } => assert_eq!(reason, "Close frame: None"),
        _ => panic!("expected a disconnect"),
    }
    let (_, a) = server_step(ServerPhase::Relaying, "C", "p", &ClientFrame::ReadError { detail: "reset".to_string() });
    match a {
        ServerAction::Disconnect { reason } => assert_eq!(reason, "WebSocket read error: reset"),
        _ => panic!("expected a disconnect"),
    }
    let (_, a) = server_step(ServerPhase::Relaying, "C", "p", &ClientFrame::End);
    match a {
        ServerAction::Disconnect { reason } => assert_eq!(reason, "stream ended (client closed or TCP closed)"),
        _ => panic!("expected a disconnect"),
    }
}

#[test]
fn member_join_and_receive() {
    assert_eq!(join_outcome(&JoinReply::Missing), Err("no join response".to_string()));
    assert_eq!(join_outcome(&JoinReply::Text(None)), Err("invalid join response".to_string()));
    assert_eq!(join_outcome(&JoinReply::Text(Some(JoinResponse::ok()))), Ok(()));
    assert_eq!(
        join_outcome(&JoinReply::Text(Some(JoinResponse::err("full".to_string())))),
        Err("full".to_string())
    );
    let mut bare = JoinResponse::ok();
    bare.typ = "join_err".to_string();
    assert_eq!(join_outcome(&JoinReply::Text(Some(bare))), Err("join failed".to_string()));
    match member_on_frame(&ServerFrame::Text(Some(CommandMessage::new("next", 5)))) {
        MemberAction::Deliver(s) => assert_eq!((s.command.as_str(), s.execute_at_ms), ("next", 5)),
        _ => panic!("expected a delivery"),
    }
    assert!(matches!(member_on_frame(&ServerFrame::Text(None)), MemberAction::Continue));
    assert!(matches!(member_on_frame(&ServerFrame::Close), MemberAction::Stop));
    assert!(matches!(member_on_frame(&ServerFrame::Error), MemberAction::Stop));
    assert!(matches!(member_on_frame(&ServerFrame::Other), MemberAction::Continue));
    assert_eq!(member_exit_reason(MemberExit::Shutdown), "shutdown received (clientLeave called)");
    assert!(unix_time_ms() > 1_600_000_000_000);
}

#[test]
fn commands_are_relayed_only_after_join() {
    let command = || ClientFrame::Text { join: None, command: Some(CommandMessage::new("play", 5)) };
    let frames = vec![command(), text_join("C", "p", "join"), command()];
    let mut phase = ServerPhase::AwaitingJoin;
    let mut kinds = Vec::new();
    for f in &frames {
        let (next, action) = server_step(phase, "C", "p", f);
        phase = next;
        kinds.push(match action {
            ServerAction::Reply(r) => r.typ,
            ServerAction::Broadcast(c) => format!("broadcast {}", c.command),
            ServerAction::Continue => "continue".to_string(),
            ServerAction::Disconnect { reason } => reason,
        });
    }
    assert_eq!(kinds, vec!["join_err", "join_ok", "broadcast play"]);
    // a failed read before any join ends the join exchange: what follows is relayed
    let (phase, a) = server_step(ServerPhase::AwaitingJoin, "C", "p", &ClientFrame::ReadError { detail: "x".to_string() });
    assert!(matches!(a, ServerAction::Continue));
    let (_, a) = server_step(phase, "C", "p", &command());
    assert!(matches!(a, ServerAction::Broadcast(_)));
}

#[test]
fn unix_ms_from_elapsed_truncates_and_defaults() {
    assert_eq!(unix_ms_from_elapsed(Some(1_700_000_000_123)), 1_700_000_000_123);
    assert_eq!(unix_ms_from_elapsed(None), 0);
    assert_eq!(unix_ms_from_elapsed(Some(1u128 << 63)), i64::MIN);
}
