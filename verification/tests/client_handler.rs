use guess_server::client_handler::{close_client, handle_client, ClientState, ClientStep};
use guess_server::codec::{encode, Message};
use guess_server::game::SessionStatus;
use guess_server::registry::{ConnectionHandle, Server};

const SECRET: &str = "secret";

fn handle(token: u64) -> ConnectionHandle {
    ConnectionHandle { token }
}

fn password(text: &str) -> Vec<u8> {
    encode(&Message::PasswordResponse { password: text.to_string() })
}

fn sign_in(server: &mut Server, token: u64) -> u32 {
    let step = handle_client(server, ClientState::AwaitingInit, handle(token), SECRET, &[0x01]);
    assert_eq!(step.state, ClientState::AwaitingPassword);
    let step = handle_client(server, step.state, handle(token), SECRET, &password("secret"));
    match step.state {
        ClientState::Authenticated { id } => id,
        other => panic!("not admitted: {:?}", other),
    }
}

fn assert_silent(step: &ClientStep, state: ClientState) {
    assert_eq!(step.state, state);
    assert!(step.reply.is_none());
    assert!(step.to_opponent.is_none());
    assert!(step.session.is_none());
}

#[test]
fn init_is_answered_with_ok() {
    let mut server = Server::new();
    let step = handle_client(&mut server, ClientState::AwaitingInit, handle(1), SECRET, &[0x01]);
    assert_eq!(step.state, ClientState::AwaitingPassword);
    assert_eq!(step.reply, Some(vec![0x01, 0x00]));
    assert!(step.to_opponent.is_none());
    assert!(step.session.is_none());
    assert_eq!(server.list(0), Vec::<u32>::new());
}

#[test]
fn another_first_message_closes_the_connection() {
    let mut server = Server::new();
    for frame in [password("secret"), vec![0x04], vec![], vec![0x01, 0x00], vec![0x42]] {
        let step =
            handle_client(&mut server, ClientState::AwaitingInit, handle(1), SECRET, &frame);
        assert_silent(&step, ClientState::Closed);
    }
    assert_eq!(server.list(0), Vec::<u32>::new());
    assert_eq!(server.register(handle(5)), Some(1));
}

#[test]
fn right_password_is_assigned_the_next_id() {
    let mut server = Server::new();
    let step = handle_client(
        &mut server,
        ClientState::AwaitingPassword,
        handle(11),
        SECRET,
        &password("secret"),
    );
    assert_eq!(step.state, ClientState::Authenticated { id: 1 });
    assert_eq!(step.reply, Some(vec![0x03, 0, 0, 0, 1]));
    assert_eq!(server.resolve(1), Some(handle(11)));
    let step = handle_client(
        &mut server,
        ClientState::AwaitingPassword,
        handle(12),
        SECRET,
        &password("  secret\r\n"),
    );
    assert_eq!(step.state, ClientState::Authenticated { id: 2 });
    assert_eq!(step.reply, Some(vec![0x03, 0, 0, 0, 2]));
    assert_eq!(server.resolve(2), Some(handle(12)));
}

#[test]
fn wrong_password_is_rejected_and_not_registered() {
    let mut server = Server::new();
    for text in ["", "Secret", "secret1", "sec ret", "s"] {
        let step = handle_client(
            &mut server,
            ClientState::AwaitingPassword,
            handle(1),
            SECRET,
            &password(text),
        );
        assert_eq!(step.state, ClientState::Rejected);
        assert_eq!(step.reply, Some(vec![0xff, 0x01]));
        assert!(step.to_opponent.is_none());
        assert!(step.session.is_none());
    }
    assert_eq!(server.list(0), Vec::<u32>::new());
    let step =
        handle_client(&mut server, ClientState::Rejected, handle(1), SECRET, &password("secret"));
    assert_silent(&step, ClientState::Rejected);
    assert_eq!(sign_in(&mut server, 2), 1);
}

#[test]
fn malformed_password_closes_the_connection() {
    let mut server = Server::new();
    for frame in [vec![0x02, 0xff], vec![0x01], vec![], vec![0x99, 1]] {
        let step =
            handle_client(&mut server, ClientState::AwaitingPassword, handle(1), SECRET, &frame);
        assert_silent(&step, ClientState::Closed);
    }
    assert_eq!(server.resolve(1), None);
}

#[test]
fn opponents_are_the_others() {
    let mut server = Server::new();
    let a = sign_in(&mut server, 1);
    let step = handle_client(&mut server, ClientState::Authenticated { id: a }, handle(1), SECRET, &[0x04]);
    assert_eq!(step.reply, Some(vec![0x05, 0, 0, 0, 0]));
    let b = sign_in(&mut server, 2);
    let c = sign_in(&mut server, 3);
    assert_eq!((a, b, c), (1, 2, 3));
    let step = handle_client(&mut server, ClientState::Authenticated { id: a }, handle(1), SECRET, &[0x04]);
    assert_eq!(step.state, ClientState::Authenticated { id: 1 });
    assert_eq!(step.reply, Some(vec![0x05, 0, 0, 0, 2, 0, 0, 0, 2, 0, 0, 0, 3]));
    assert!(step.to_opponent.is_none());
    assert!(step.session.is_none());
    let step = handle_client(&mut server, ClientState::Authenticated { id: b }, handle(2), SECRET, &[0x04]);
    assert_eq!(step.reply, Some(vec![0x05, 0, 0, 0, 2, 0, 0, 0, 1, 0, 0, 0, 3]));
    close_client(&mut server, ClientState::Authenticated { id: c });
    let step = handle_client(&mut server, ClientState::Authenticated { id: b }, handle(2), SECRET, &[0x04]);
    assert_eq!(step.reply, Some(vec![0x05, 0, 0, 0, 1, 0, 0, 0, 1]));
}

#[test]
fn match_with_unregistered_opponent_is_refused() {
    let mut server = Server::new();
    let a = sign_in(&mut server, 1);
    let state = ClientState::Authenticated { id: a };
    let request = encode(&Message::RequestMatch { opponent_id: 7, word: "apple".to_string() });
    let step = handle_client(&mut server, state, handle(1), SECRET, &request);
    assert_eq!(step.state, state);
    assert_eq!(step.reply, Some(vec![0xff, 0x02]));
    assert!(step.to_opponent.is_none());
    assert!(step.session.is_none());
    let step = handle_client(&mut server, step.state, handle(1), SECRET, &[0x04]);
    assert_eq!(step.reply, Some(vec![0x05, 0, 0, 0, 0]));
}

#[test]
fn match_with_registered_opponent_starts_a_session() {
    let mut server = Server::new();
    let a = sign_in(&mut server, 1);
    let _b = sign_in(&mut server, 2);
    let c = sign_in(&mut server, 3);
    let request = encode(&Message::RequestMatch { opponent_id: c, word: "apple".to_string() });
    let step =
        handle_client(&mut server, ClientState::Authenticated { id: a }, handle(1), SECRET, &request);
    assert_eq!(step.state, ClientState::InSession { id: 1 });
    assert_eq!(step.reply, Some(vec![0x07]));
    let confirm = step.to_opponent.expect("the opponent is told");
    assert_eq!(confirm.to, 3);
    assert_eq!(confirm.frame, vec![0x07]);
    let session = step.session.expect("a session starts");
    assert_eq!(session.hinter_id(), 1);
    assert_eq!(session.guesser_id(), 3);
    assert_eq!(session.attempts_used(), 0);
    assert_eq!(session.max_attempts(), 10);
    assert_eq!(session.status(), SessionStatus::Active);
    assert!(!session.is_terminal());
    assert_eq!(server.resolve(1), Some(handle(1)));
    assert_eq!(server.resolve(3), Some(handle(3)));
}

#[test]
fn a_playing_client_is_not_served_commands() {
    let mut server = Server::new();
    let a = sign_in(&mut server, 1);
    let state = ClientState::InSession { id: a };
    for frame in [vec![0x04], vec![0x09, b'x'], vec![0x08, b'x'], vec![]] {
        let step = handle_client(&mut server, state, handle(1), SECRET, &frame);
        assert_silent(&step, state);
    }
    assert_eq!(server.resolve(a), Some(handle(1)));
}

#[test]
fn other_messages_are_passed_over() {
    let mut server = Server::new();
    let a = sign_in(&mut server, 1);
    let state = ClientState::Authenticated { id: a };
    for frame in [vec![0x09, b'x'], vec![0x08, b'x'], vec![0x01], vec![0x0b], vec![0x63, 1, 2]] {
        let step = handle_client(&mut server, state, handle(1), SECRET, &frame);
        assert_silent(&step, state);
    }
    assert_eq!(server.resolve(a), Some(handle(1)));
}

#[test]
fn malformed_command_closes_and_unregisters() {
    let mut server = Server::new();
    let a = sign_in(&mut server, 1);
    let b = sign_in(&mut server, 2);
    let step = handle_client(
        &mut server,
        ClientState::Authenticated { id: a },
        handle(1),
        SECRET,
        &[0x06, 0, 0, 0, 2, 0, 0, 0, 9, b'a'],
    );
    assert_silent(&step, ClientState::Closed);
    assert_eq!(server.resolve(a), None);
    assert_eq!(server.resolve(b), Some(handle(2)));
    let step = handle_client(&mut server, ClientState::Closed, handle(1), SECRET, &[0x04]);
    assert_silent(&step, ClientState::Closed);
}

#[test]
fn close_client_unregisters_once() {
    let mut server = Server::new();
    let a = sign_in(&mut server, 1);
    let b = sign_in(&mut server, 2);
    assert_eq!(close_client(&mut server, ClientState::AwaitingPassword), ClientState::Closed);
    assert_eq!(server.list(0), vec![1, 2]);
    assert_eq!(close_client(&mut server, ClientState::Authenticated { id: a }), ClientState::Closed);
    assert_eq!(server.list(0), vec![2]);
    assert_eq!(close_client(&mut server, ClientState::InSession { id: b }), ClientState::Closed);
    assert_eq!(close_client(&mut server, ClientState::InSession { id: b }), ClientState::Closed);
    assert_eq!(server.list(0), Vec::<u32>::new());
    assert_eq!(sign_in(&mut server, 3), 3);
}

#[test]
fn session_membership_changes_the_state() {
    let free = ClientState::Authenticated { id: 4 };
    let busy = ClientState::InSession { id: 4 };
    assert_eq!(free.enter_session(), busy);
    assert_eq!(busy.enter_session(), busy);
    assert_eq!(busy.leave_session(), free);
    assert_eq!(free.leave_session(), free);
    assert_eq!(ClientState::Rejected.enter_session(), ClientState::Rejected);
    assert_eq!(ClientState::AwaitingInit.leave_session(), ClientState::AwaitingInit);
    assert_eq!(free.client_id(), Some(4));
    assert_eq!(busy.client_id(), Some(4));
    assert_eq!(ClientState::Closed.client_id(), None);
    assert_eq!(ClientState::AwaitingPassword.client_id(), None);
}
