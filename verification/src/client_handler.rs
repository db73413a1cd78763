//! The life of one connection before a game: the handshake, then the
//! matchmaking commands, one frame at a time.

use vstd::prelude::*;
use vstd::string::*;
use crate::codec::{decode, decoding, encode, encoding, ErrorCode, Message, MessageView, ProtocolError};
use crate::constants::INIT_OK;
use crate::game::{delivery_view, start_guessing_game, Delivery, GameSession, SessionView};
use crate::registry::{ConnectionHandle, Registry, Server};
use crate::text::{trim, trimmed};

verus! {

/// Where a connection stands.
#[derive(Clone, Copy, Debug, PartialEq, Eq, Structural)]
pub enum ClientState {
    /// Nothing was received yet: the init signal is due.
    AwaitingInit,
    /// The init signals were exchanged: the password is due.
    AwaitingPassword,
    /// The client is registered under `id` and may send commands.
    Authenticated { id: u32 },
    /// The client plays: its frames belong to its session.
    InSession { id: u32 },
    /// The password was wrong.
    Rejected,
    /// The connection broke the protocol or is gone.
    Closed,
}

impl ClientState {
    /// The id under which the connection is registered, if it is.
    pub open spec fn spec_client_id(self) -> Option<u32> {
        match self {
            ClientState::Authenticated { id } => Some(id),
            ClientState::InSession { id } => Some(id),
            _ => None,
        }
    }

    /// The state once the client was taken into a session by another
    /// client's match request.
    pub open spec fn spec_enter_session(self) -> ClientState {
        match self {
            ClientState::Authenticated { id } => ClientState::InSession { id },
            _ => self,
        }
    }

    /// The state once the client's session has ended: it may send commands
    /// again.
    pub open spec fn spec_leave_session(self) -> ClientState {
        match self {
            ClientState::InSession { id } => ClientState::Authenticated { id },
            _ => self,
        }
    }

    #[verifier::when_used_as_spec(spec_client_id)]
    pub fn client_id(self) -> (r: Option<u32>)
        ensures
            r == self.spec_client_id(),
    {
        match self {
            ClientState::Authenticated { id } => Some(id),
            ClientState::InSession { id } => Some(id),
            _ => None,
        }
    }

    #[verifier::when_used_as_spec(spec_enter_session)]
    pub fn enter_session(self) -> (r: ClientState)
        ensures
            r == self.spec_enter_session(),
    {
        match self {
            ClientState::Authenticated { id } => ClientState::InSession { id },
            _ => self,
        }
    }

    #[verifier::when_used_as_spec(spec_leave_session)]
    pub fn leave_session(self) -> (r: ClientState)
        ensures
            r == self.spec_leave_session(),
    {
        match self {
            ClientState::InSession { id } => ClientState::Authenticated { id },
            _ => self,
        }
    }
}

/// What one frame makes of a connection.
#[derive(Debug)]
pub struct ClientStep {
    /// The state of the connection from now on.
    pub state: ClientState,
    /// A frame for the connection itself.
    pub reply: Option<Vec<u8>>,
    /// A frame for the opponent named in a match request.
    pub to_opponent: Option<Delivery>,
    /// The session that a confirmed match creates.
    pub session: Option<GameSession>,
}

/// A step, and the directory after it, as a mathematical value.
pub ghost struct ClientStepView {
    pub registry: Registry,
    pub state: ClientState,
    pub reply: Option<Seq<u8>>,
    pub to_opponent: Option<(u32, Seq<u8>)>,
    pub session: Option<SessionView>,
}

impl ClientStepView {
    /// A step that sends nothing.
    pub open spec fn silent(registry: Registry, state: ClientState) -> ClientStepView {
        ClientStepView { registry, state, reply: None, to_opponent: None, session: None }
    }

    /// A step that answers the connection and nobody else.
    pub open spec fn reply(registry: Registry, state: ClientState, frame: Seq<u8>)
        -> ClientStepView {
        ClientStepView { registry, state, reply: Some(frame), to_opponent: None, session: None }
    }
}

impl ClientStep {
    /// The step as a mathematical value, beside the directory it left.
    pub open spec fn view_with(&self, registry: Registry) -> ClientStepView {
        ClientStepView {
            registry,
            state: self.state,
            reply: match self.reply {
                Some(f) => Some(f@),
                None => None,
            },
            to_opponent: delivery_view(self.to_opponent),
            session: match self.session {
                Some(s) => Some(s@),
                None => None,
            },
        }
    }
}

/// Whether `listing` may stand in the answer to `frame`: where a registered
/// client asks for its opponents, it holds the other registered ids, each
/// once, in any order; on every other frame it is empty.
pub open spec fn is_listing(reg: Registry, state: ClientState, frame: Seq<u8>, listing: Seq<u32>)
    -> bool {
    match state {
        ClientState::Authenticated { id } if reg.resolve(id) is Some && decoding(frame)
            == Ok::<MessageView, ProtocolError>(MessageView::RequestOpponents) => {
            listing.no_duplicates() && listing.to_set() == reg.opponents(id)
        },
        _ => listing.len() == 0,
    }
}

/// The handshake's first step: only the init signal is in order.
pub open spec fn init_step(reg: Registry, frame: Seq<u8>) -> ClientStepView {
    match decoding(frame) {
        Ok(MessageView::Init) => ClientStepView::reply(
            reg,
            ClientState::AwaitingPassword,
            encoding(MessageView::InitReply { status: INIT_OK }),
        ),
        _ => ClientStepView::silent(reg, ClientState::Closed),
    }
}

/// The handshake's second step: the trimmed password is held against the
/// secret, and only a match is registered.
pub open spec fn password_step(
    reg: Registry,
    handle: ConnectionHandle,
    secret: Seq<char>,
    frame: Seq<u8>,
) -> ClientStepView {
    match decoding(frame) {
        Ok(MessageView::PasswordResponse { password }) => if trim(password) != secret {
            ClientStepView::reply(
                reg,
                ClientState::Rejected,
                encoding(MessageView::Error { code: ErrorCode::BadPassword }),
            )
        } else if reg.has_room() {
            ClientStepView::reply(
                reg.register(handle),
                ClientState::Authenticated { id: reg.next_id as u32 },
                encoding(MessageView::AssignId { id: reg.next_id as u32 }),
            )
        } else {
            ClientStepView::silent(reg, ClientState::Closed)
        },
        _ => ClientStepView::silent(reg, ClientState::Closed),
    }
}

/// One command of the registered client `id`.
pub open spec fn command_step(reg: Registry, id: u32, frame: Seq<u8>, listing: Seq<u32>)
    -> ClientStepView {
    let state = ClientState::Authenticated { id };
    if reg.resolve(id) is None {
        ClientStepView::silent(reg, ClientState::Closed)
    } else {
        match decoding(frame) {
            Ok(MessageView::RequestOpponents) => ClientStepView::reply(
                reg,
                state,
                encoding(MessageView::OpponentsResponse { ids: listing }),
            ),
            Ok(MessageView::RequestMatch { opponent_id, word }) => if reg.resolve(opponent_id)
                is Some {
                ClientStepView {
                    registry: reg,
                    state: ClientState::InSession { id },
                    reply: Some(encoding(MessageView::MatchConfirm)),
                    to_opponent: Some((opponent_id, encoding(MessageView::MatchConfirm))),
                    session: Some(SessionView::start(id, opponent_id, word)),
                }
            } else {
                ClientStepView::reply(
                    reg,
                    state,
                    encoding(MessageView::Error { code: ErrorCode::OpponentNotFound }),
                )
            },
            Ok(_) => ClientStepView::silent(reg, state),
            Err(ProtocolError::UnknownTag { .. }) => ClientStepView::silent(reg, state),
            Err(_) => ClientStepView::silent(reg.unregister(id), ClientState::Closed),
        }
    }
}

/// What the frame `frame` makes of a connection in `state`.
pub open spec fn client_step(
    reg: Registry,
    state: ClientState,
    handle: ConnectionHandle,
    secret: Seq<char>,
    frame: Seq<u8>,
    listing: Seq<u32>,
) -> ClientStepView {
    match state {
        ClientState::AwaitingInit => init_step(reg, frame),
        ClientState::AwaitingPassword => password_step(reg, handle, secret, frame),
        ClientState::Authenticated { id } => command_step(reg, id, frame, listing),
        _ => ClientStepView::silent(reg, state),
    }
}

/// The directory after a connection in `state` is gone.
pub open spec fn registry_after_close(reg: Registry, state: ClientState) -> Registry {
    match state {
        ClientState::Authenticated { id } => reg.unregister(id),
        ClientState::InSession { id } => reg.unregister(id),
        _ => reg,
    }
}

/// Whether `frame` is a password response whose trimmed text is `secret`.
pub open spec fn is_right_password(frame: Seq<u8>, secret: Seq<char>) -> bool {
    match decoding(frame) {
        Ok(MessageView::PasswordResponse { password }) => trim(password) == secret,
        _ => false,
    }
}

/// Whether `frame` is a password response whose trimmed text is not `secret`.
pub open spec fn is_wrong_password(frame: Seq<u8>, secret: Seq<char>) -> bool {
    match decoding(frame) {
        Ok(MessageView::PasswordResponse { password }) => trim(password) != secret,
        _ => false,
    }
}

/// A wrong password is answered with the bad-password error and nothing
/// else. The connection is rejected, the directory and its counter stay as
/// they were, and whatever the rejected connection sends afterwards changes
/// nothing: no id is ever assigned for the attempt.
pub proof fn lemma_wrong_password(
    reg: Registry,
    handle: ConnectionHandle,
    secret: Seq<char>,
    frame: Seq<u8>,
    later: Seq<u8>,
    listing: Seq<u32>,
)
    requires
        is_wrong_password(frame, secret),
    ensures
        client_step(reg, ClientState::AwaitingPassword, handle, secret, frame, listing)
            == ClientStepView::reply(reg, ClientState::Rejected, seq![0xffu8, 0x01u8]),
        client_step(reg, ClientState::Rejected, handle, secret, later, listing)
            == ClientStepView::silent(reg, ClientState::Rejected),
{
    assert(encoding(MessageView::Error { code: ErrorCode::BadPassword }) =~= seq![0xffu8, 0x01u8]);
}

/// A client is registered by the handshake exactly when it sends the right
/// password while the password is due and an id is left; it then gets the
/// directory's next id, which the reply carries. No other step of a
/// connection registers anybody.
pub proof fn lemma_registered_iff_authenticated(
    reg: Registry,
    state: ClientState,
    handle: ConnectionHandle,
    secret: Seq<char>,
    frame: Seq<u8>,
    listing: Seq<u32>,
)
    requires
        reg.valid(),
    ensures
        ({
            let step = client_step(reg, state, handle, secret, frame, listing);
            let admitted = state == ClientState::AwaitingPassword && is_right_password(
                frame,
                secret,
            ) && reg.has_room();
            &&& admitted ==> step == ClientStepView::reply(
                reg.register(handle),
                ClientState::Authenticated { id: reg.next_id as u32 },
                encoding(MessageView::AssignId { id: reg.next_id as u32 }),
            )
            &&& !admitted ==> step.registry.next_id == reg.next_id
            &&& !admitted ==> step.registry.clients.dom().subset_of(reg.clients.dom())
            &&& step.state is Authenticated ==> admitted || step.state == state
        }),
{
}

/// The answer to a request for opponents never holds the asking client's own
/// id and holds exactly the other ids registered at that moment, each once;
/// the request changes nothing.
pub proof fn lemma_opponents_listed(
    reg: Registry,
    id: u32,
    handle: ConnectionHandle,
    secret: Seq<char>,
    frame: Seq<u8>,
    listing: Seq<u32>,
)
    requires
        reg.resolve(id) is Some,
        decoding(frame) == Ok::<MessageView, ProtocolError>(MessageView::RequestOpponents),
        is_listing(reg, ClientState::Authenticated { id }, frame, listing),
    ensures
        client_step(reg, ClientState::Authenticated { id }, handle, secret, frame, listing)
            == ClientStepView::reply(
            reg,
            ClientState::Authenticated { id },
            encoding(MessageView::OpponentsResponse { ids: listing }),
        ),
        !listing.contains(id),
        listing.no_duplicates(),
        forall|other: u32|
            listing.contains(other) <==> other != id && reg.clients.dom().contains(other),
{
    assert forall|other: u32| listing.contains(other) <==> other != id
        && reg.clients.dom().contains(other) by {
        assert(listing.contains(other) <==> listing.to_set().contains(other));
    }
}

/// A match request that names a client which is not registered is answered
/// with the opponent-not-found error. No session starts, nobody else hears
/// of it, the directory stays as it was, and the requester stays
/// authenticated, free to ask again.
pub proof fn lemma_match_unregistered(
    reg: Registry,
    id: u32,
    handle: ConnectionHandle,
    secret: Seq<char>,
    frame: Seq<u8>,
    listing: Seq<u32>,
    opponent_id: u32,
    word: Seq<char>,
)
    requires
        reg.resolve(id) is Some,
        decoding(frame) == Ok::<MessageView, ProtocolError>(
            MessageView::RequestMatch { opponent_id, word },
        ),
        reg.resolve(opponent_id) is None,
    ensures
        client_step(reg, ClientState::Authenticated { id }, handle, secret, frame, listing)
            == ClientStepView::reply(
            reg,
            ClientState::Authenticated { id },
            seq![0xffu8, 0x02u8],
        ),
{
    assert(encoding(MessageView::Error { code: ErrorCode::OpponentNotFound }) =~= seq![
        0xffu8,
        0x02u8,
    ]);
}

/// A match request that names a registered client is confirmed to the
/// requester and to that client, and creates one session: the requester is
/// its hinter, the named client its guesser, the word its target, and no
/// attempt is used yet. The requester's connection leaves the command loop.
pub proof fn lemma_match_registered(
    reg: Registry,
    id: u32,
    handle: ConnectionHandle,
    secret: Seq<char>,
    frame: Seq<u8>,
    listing: Seq<u32>,
    opponent_id: u32,
    word: Seq<char>,
)
    requires
        reg.resolve(id) is Some,
        decoding(frame) == Ok::<MessageView, ProtocolError>(
            MessageView::RequestMatch { opponent_id, word },
        ),
        reg.resolve(opponent_id) is Some,
    ensures
        ({
            let step = client_step(
                reg,
                ClientState::Authenticated { id },
                handle,
                secret,
                frame,
                listing,
            );
            &&& step.registry == reg
            &&& step.state == ClientState::InSession { id }
            &&& step.reply == Some(seq![0x07u8])
            &&& step.to_opponent == Some((opponent_id, seq![0x07u8]))
            &&& step.session == Some(SessionView::start(id, opponent_id, word))
            &&& step.session->0.valid()
            &&& step.session->0.secret_word == word
            &&& client_step(step.registry, step.state, handle, secret, frame, listing)
                == ClientStepView::silent(reg, step.state)
        }),
{
    assert(encoding(MessageView::MatchConfirm) =~= seq![0x07u8]);
}

/// A session is created by a step of a connection only where a registered
/// client names a registered opponent in a match request.
pub proof fn lemma_session_only_from_match(
    reg: Registry,
    state: ClientState,
    handle: ConnectionHandle,
    secret: Seq<char>,
    frame: Seq<u8>,
    listing: Seq<u32>,
)
    ensures
        ({
            let step = client_step(reg, state, handle, secret, frame, listing);
            step.session is Some || step.to_opponent is Some ==> {
                &&& state is Authenticated
                &&& reg.resolve(state->Authenticated_id) is Some
                &&& decoding(frame) is Ok
                &&& decoding(frame)->Ok_0 is RequestMatch
                &&& reg.resolve(decoding(frame)->Ok_0->RequestMatch_opponent_id) is Some
            }
        }),
{
}

fn silent(state: ClientState) -> (step: ClientStep)
    ensures
        forall|reg: Registry| #[trigger] step.view_with(reg) == ClientStepView::silent(reg, state),
{
    ClientStep { state, reply: None, to_opponent: None, session: None }
}

fn reply(state: ClientState, m: &Message) -> (step: ClientStep)
    requires
        crate::codec::encodable(m@),
    ensures
        forall|reg: Registry| #[trigger]
            step.view_with(reg) == ClientStepView::reply(reg, state, encoding(m@)),
{
    ClientStep { state, reply: Some(encode(m)), to_opponent: None, session: None }
}

fn on_init(frame: &[u8]) -> (step: ClientStep)
    ensures
        forall|reg: Registry| #[trigger] step.view_with(reg) == init_step(reg, frame@),
{
    match decode(frame) {
        Ok(Message::Init) => reply(
            ClientState::AwaitingPassword,
            &Message::InitReply { status: INIT_OK },
        ),
        _ => silent(ClientState::Closed),
    }
}

fn on_password(server: &mut Server, handle: ConnectionHandle, secret: &str, frame: &[u8]) -> (step:
    ClientStep)
    requires
        old(server).wf(),
    ensures
        final(server).wf(),
        step.view_with(final(server)@) == password_step(old(server)@, handle, secret@, frame@),
{
    match decode(frame) {
        Ok(Message::PasswordResponse { password }) => {
            let given = trimmed(password.as_str());
            let wanted = secret.to_owned();
            if given != wanted {
                reply(ClientState::Rejected, &Message::Error { code: ErrorCode::BadPassword })
            } else {
                match server.register(handle) {
                    Some(id) => reply(ClientState::Authenticated { id }, &Message::AssignId { id }),
                    None => silent(ClientState::Closed),
                }
            }
        },
        _ => silent(ClientState::Closed),
    }
}

fn on_command(server: &mut Server, id: u32, frame: &[u8]) -> (step: ClientStep)
    requires
        old(server).wf(),
    ensures
        final(server).wf(),
        exists|listing: Seq<u32>| #[trigger]
            is_listing(old(server)@, ClientState::Authenticated { id }, frame@, listing) && step.view_with(
                final(server)@,
            ) == command_step(old(server)@, id, frame@, listing),
{
    let state = ClientState::Authenticated { id };
    let ghost reg = server@;
    proof {
        server.lemma_valid();
    }
    let ghost mut listing: Seq<u32> = Seq::empty();
    let step = if server.resolve(id).is_none() {
        silent(ClientState::Closed)
    } else {
        match decode(frame) {
            Ok(Message::RequestOpponents) => {
                let ids = server.list(id);
                proof {
                    listing = ids@;
                }
                reply(state, &Message::OpponentsResponse { ids })
            },
            Ok(Message::RequestMatch { opponent_id, word }) => {
                match start_guessing_game(server, id, opponent_id, word) {
                    Some(session) => ClientStep {
                        state: ClientState::InSession { id },
                        reply: Some(encode(&Message::MatchConfirm)),
                        to_opponent: Some(
                            Delivery { to: opponent_id, frame: encode(&Message::MatchConfirm) },
                        ),
                        session: Some(session),
                    },
                    None => reply(state, &Message::Error { code: ErrorCode::OpponentNotFound }),
                }
            },
            Ok(_) => silent(state),
            Err(ProtocolError::UnknownTag { .. }) => silent(state),
            Err(_) => {
                server.unregister(id);
                silent(ClientState::Closed)
            },
        }
    };
    assert(is_listing(reg, state, frame@, listing));
    assert(step.view_with(server@) == command_step(reg, id, frame@, listing));
    step
}

/// Serves one frame of a connection: the handshake while the client is not
/// yet admitted, the matchmaking commands once it is. A client that plays, was
/// rejected or is gone gets nothing.
///
/// The password is compared after trimming, letter for letter, with `secret`.
/// Only a match registers the client, under the next id, which the reply
/// carries; when no id is left the connection is closed instead. A request for opponents is answered with the other registered
/// ids. A match request is confirmed to both clients, and creates the session
/// with the requester as hinter, exactly when the opponent is registered.
pub fn handle_client(
    server: &mut Server,
    state: ClientState,
    handle: ConnectionHandle,
    secret: &str,
    frame: &[u8],
) -> (step: ClientStep)
    requires
        old(server).wf(),
    ensures
        final(server).wf(),
        exists|listing: Seq<u32>| #[trigger]
            is_listing(old(server)@, state, frame@, listing) && step.view_with(final(server)@)
                == client_step(old(server)@, state, handle, secret@, frame@, listing),
{
    let ghost none: Seq<u32> = Seq::empty();
    match state {
        ClientState::AwaitingInit => {
            let step = on_init(frame);
            assert(is_listing(server@, state, frame@, none));
            step
        },
        ClientState::AwaitingPassword => {
            let step = on_password(server, handle, secret, frame);
            assert(is_listing(old(server)@, state, frame@, none));
            step
        },
        ClientState::Authenticated { id } => on_command(server, id, frame),
        _ => {
            let step = silent(state);
            assert(is_listing(server@, state, frame@, none));
            step
        },
    }
}

/// Takes a connection that closed or failed out of the directory.
pub fn close_client(server: &mut Server, state: ClientState) -> (next: ClientState)
    requires
        old(server).wf(),
    ensures
        final(server).wf(),
        next == ClientState::Closed,
        final(server)@ == registry_after_close(old(server)@, state),
{
    match state {
        ClientState::Authenticated { id } => {
            server.unregister(id);
        },
        ClientState::InSession { id } => {
            server.unregister(id);
        },
        _ => {},
    }
    ClientState::Closed
}

} // verus!
