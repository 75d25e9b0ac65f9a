use signal_relay::envelope::{ClientContent, ClientMessage, Command, GroupStateUpdate};
use signal_relay::room::{CommandOutcome, RoomCommand, RouteStatus, Roster};
use signal_relay::session::route_request;
use signal_relay::user::{IdentityError, User};
use tokio::sync::mpsc;

fn user(id: &str, name: &str) -> User {
    User { id: id.to_string(), name: name.to_string() }
}

fn join(roster: &mut Roster, id: &str, name: &str) -> (CommandOutcome, mpsc::Receiver<ClientMessage>) {
    let (tx, rx) = mpsc::channel(8);
    let out = roster.apply_command(RoomCommand::JoinRoom(user(id, name), tx));
    (out, rx)
}

fn snapshot_pairs(s: &GroupStateUpdate) -> Vec<(String, String)> {
    s.members.iter().map(|e| (e.user_id.clone(), e.state.name.clone())).collect()
}

#[test]
fn join_notifies_with_full_snapshot() {
    let mut roster = Roster::new();
    let (out_a, _rx_a) = join(&mut roster, "a", "Alice");
    let snap = out_a.notify.expect("join must notify");
    assert_eq!(snapshot_pairs(&snap), vec![("a".to_string(), "Alice".to_string())]);
    assert!(matches!(out_a.route, RouteStatus::NotRouted));

    let (out_b, _rx_b) = join(&mut roster, "b", "Bob");
    let snap = out_b.notify.expect("join must notify");
    assert_eq!(
        snapshot_pairs(&snap),
        vec![("a".to_string(), "Alice".to_string()), ("b".to_string(), "Bob".to_string())]
    );
}

#[test]
fn duplicate_join_replaces_last_writer_wins() {
    let mut roster = Roster::new();
    let (_o1, _rx1) = join(&mut roster, "a", "Alice");
    let (o2, _rx2) = join(&mut roster, "a", "Alicia");
    let snap = o2.notify.expect("join must notify");
    assert_eq!(snapshot_pairs(&snap), vec![("a".to_string(), "Alicia".to_string())]);
}

#[test]
fn route_delivers_exactly_one_message() {
    let mut roster = Roster::new();
    let (_oa, mut rx_a) = join(&mut roster, "a", "Alice");
    let (_ob, mut rx_b) = join(&mut roster, "b", "Bob");

    let out = roster.apply_command(RoomCommand::UserCommand {
        from_user_id: "a".to_string(),
        to_user_id: "b".to_string(),
        cmd: Command::Offer("sdp-1".to_string()),
    });
    assert!(out.notify.is_none());
    match out.route {
        RouteStatus::Delivered { to_user, accepted, .. } => {
            assert_eq!(to_user, "b");
            assert!(accepted);
        }
        _ => panic!("expected delivery"),
    }

    let got = rx_b.try_recv().expect("b must receive the message");
    assert_eq!(got.from_user.as_deref(), Some("a"));
    match got.content {
        Some(ClientContent::Command(Command::Offer(sdp))) => assert_eq!(sdp, "sdp-1"),
        _ => panic!("expected a relayed offer"),
    }
    assert!(rx_b.try_recv().is_err(), "exactly one message for b");
    assert!(rx_a.try_recv().is_err(), "a receives nothing");
}

#[test]
fn route_to_missing_target_is_dropped() {
    let mut roster = Roster::new();
    let (_oa, mut rx_a) = join(&mut roster, "a", "Alice");
    let out = roster.apply_command(RoomCommand::UserCommand {
        from_user_id: "a".to_string(),
        to_user_id: "z".to_string(),
        cmd: Command::Answer("sdp-2".to_string()),
    });
    assert!(matches!(out.route, RouteStatus::TargetAbsent));
    assert!(out.notify.is_none());
    assert!(rx_a.try_recv().is_err());
    assert!(roster.contains(&"a".to_string()), "room state untouched");
}

#[test]
fn leave_removes_and_notifies() {
    let mut roster = Roster::new();
    let (_oa, _rx_a) = join(&mut roster, "a", "Alice");
    let (_ob, _rx_b) = join(&mut roster, "b", "Bob");
    let out = roster.apply_command(RoomCommand::LeaveRoom { user_id: "b".to_string() });
    let snap = out.notify.expect("leave of a member must notify");
    assert_eq!(snapshot_pairs(&snap), vec![("a".to_string(), "Alice".to_string())]);
    assert!(!roster.contains(&"b".to_string()));
}

#[test]
fn leave_of_absent_user_is_a_noop() {
    let mut roster = Roster::new();
    let (_oa, _rx_a) = join(&mut roster, "a", "Alice");
    let out = roster.apply_command(RoomCommand::LeaveRoom { user_id: "ghost".to_string() });
    assert!(out.notify.is_none(), "no notification when nothing changed");
    assert!(matches!(out.route, RouteStatus::NotRouted));
    assert!(roster.contains(&"a".to_string()));

    let removed = roster.leave(&"ghost".to_string());
    assert!(!removed);
}

#[test]
fn full_channel_drops_without_blocking() {
    let mut roster = Roster::new();
    let (tx, _rx) = mpsc::channel(1);
    let _ = roster.apply_command(RoomCommand::JoinRoom(user("b", "Bob"), tx));
    let send = |roster: &mut Roster| {
        roster.apply_command(RoomCommand::UserCommand {
            from_user_id: "a".to_string(),
            to_user_id: "b".to_string(),
            cmd: Command::IceCandidate("cand".to_string()),
        })
    };
    let first = send(&mut roster);
    match first.route {
        RouteStatus::Delivered { accepted, .. } => assert!(accepted),
        _ => panic!("expected delivery"),
    }
    let second = send(&mut roster);
    match second.route {
        RouteStatus::Delivered { accepted, .. } => assert!(!accepted, "full channel drops"),
        _ => panic!("expected delivery attempt"),
    }
}

#[test]
fn self_route_is_rejected() {
    let alice = user("a", "Alice");
    let msg = signal_relay::envelope::ServerMessage {
        to_user: Some("a".to_string()),
        content: Some(Command::Offer("sdp".to_string())),
    };
    assert!(route_request(&alice, msg).is_none());
}

#[test]
fn route_request_builds_relay_command() {
    let alice = user("a", "Alice");
    let msg = signal_relay::envelope::ServerMessage {
        to_user: Some("b".to_string()),
        content: Some(Command::Offer("sdp".to_string())),
    };
    match route_request(&alice, msg) {
        Some(RoomCommand::UserCommand { from_user_id, to_user_id, cmd }) => {
            assert_eq!(from_user_id, "a");
            assert_eq!(to_user_id, "b");
            assert!(matches!(cmd, Command::Offer(s) if s == "sdp"));
        }
        _ => panic!("expected a routed command"),
    }

    let no_target = signal_relay::envelope::ServerMessage {
        to_user: None,
        content: Some(Command::Offer("sdp".to_string())),
    };
    assert!(route_request(&alice, no_target).is_none());

    let no_content =
        signal_relay::envelope::ServerMessage { to_user: Some("b".to_string()), content: None };
    assert!(route_request(&alice, no_content).is_none());
}

#[test]
fn resolve_requires_both_headers() {
    match User::resolve(None, Some("Alice".to_string())) {
        Err(IdentityError::MissingId) => {}
        _ => panic!("expected missing id"),
    }
    match User::resolve(Some("a".to_string()), None) {
        Err(IdentityError::MissingName) => {}
        _ => panic!("expected missing name"),
    }
    let u = User::resolve(Some("a".to_string()), Some("Alice".to_string())).unwrap();
    assert_eq!(u.id, "a");
    assert_eq!(u.name, "Alice");
}

#[test]
fn abrupt_disconnect_scenario() {
    let mut roster = Roster::new();
    let (_oa, _rx_a) = join(&mut roster, "a", "Alice");
    let (ob, rx_b) = join(&mut roster, "b", "Bob");
    assert!(ob.notify.is_some());
    // b's connection drops: the session's one cleanup duty is a leave
    drop(rx_b);
    let out = roster.apply_command(RoomCommand::LeaveRoom { user_id: "b".to_string() });
    let snap = out.notify.expect("remaining members get a fresh snapshot");
    assert_eq!(snapshot_pairs(&snap), vec![("a".to_string(), "Alice".to_string())]);
}
