//! The game session of one matched pair: the secret word, the attempt
//! counter and the two roles. Each incoming frame is one step of the session.

use vstd::prelude::*;
use vstd::slice::*;
use vstd::string::*;
use crate::codec::{
    decode, decoding, encode, encoding, lemma_encode_decode, Message, MessageView, ProtocolError,
};
use crate::constants::MAX_ATTEMPTS;
use crate::registry::Server;
use crate::text::{trim, trimmed};

verus! {

/// Where a session stands.
#[derive(Clone, Copy, Debug, PartialEq, Eq, Structural)]
pub enum SessionStatus {
    /// Guesses are still accepted.
    Active,
    /// The word was guessed.
    Won,
    /// The attempt budget is used up.
    Exhausted,
    /// A participant's connection failed or broke the protocol.
    Aborted,
}

/// A frame and the client it is for.
#[derive(Debug)]
pub struct Delivery {
    pub to: u32,
    pub frame: Vec<u8>,
}

/// What one step of a session asks the caller to do.
#[derive(Debug)]
pub struct SessionStep {
    /// A frame for the guesser's connection.
    pub to_guesser: Option<Delivery>,
    /// A frame for the hinter's connection.
    pub to_hinter: Option<Delivery>,
    /// Whether this step ended the session.
    pub ended: bool,
}

/// A session step as a mathematical value.
pub ghost struct SessionStepView {
    pub to_guesser: Option<(u32, Seq<u8>)>,
    pub to_hinter: Option<(u32, Seq<u8>)>,
    pub ended: bool,
}

/// An optional delivery as a mathematical value.
pub open spec fn delivery_view(d: Option<Delivery>) -> Option<(u32, Seq<u8>)> {
    match d {
        Some(d) => Some((d.to, d.frame@)),
        None => None,
    }
}

impl View for SessionStep {
    type V = SessionStepView;

    open spec fn view(&self) -> SessionStepView {
        SessionStepView {
            to_guesser: delivery_view(self.to_guesser),
            to_hinter: delivery_view(self.to_hinter),
            ended: self.ended,
        }
    }
}

impl SessionStepView {
    /// The step that sends nothing and ends nothing.
    pub open spec fn nothing() -> SessionStepView {
        SessionStepView { to_guesser: None, to_hinter: None, ended: false }
    }
}

/// The frame that reports a guess as right or wrong.
pub open spec fn progress_frame(correct: bool) -> Seq<u8> {
    encoding(MessageView::ProgressUpdate { correct })
}

/// A session as a mathematical value.
pub ghost struct SessionView {
    pub hinter_id: u32,
    pub guesser_id: u32,
    pub secret_word: Seq<char>,
    pub attempts_used: nat,
    pub max_attempts: nat,
    pub status: SessionStatus,
}

impl SessionView {
    /// The session of a fresh match: no attempt used yet.
    pub open spec fn start(hinter_id: u32, guesser_id: u32, word: Seq<char>) -> SessionView {
        SessionView {
            hinter_id,
            guesser_id,
            secret_word: word,
            attempts_used: 0,
            max_attempts: MAX_ATTEMPTS as nat,
            status: SessionStatus::Active,
        }
    }

    /// The counter stays within the budget, and an active session has an
    /// attempt left.
    pub open spec fn valid(self) -> bool {
        &&& self.max_attempts == MAX_ATTEMPTS
        &&& self.attempts_used <= self.max_attempts
        &&& self.status == SessionStatus::Active ==> self.attempts_used < self.max_attempts
    }

    pub open spec fn is_terminal(self) -> bool {
        self.status != SessionStatus::Active
    }

    /// A participant's connection closed, failed or sent a malformed frame.
    pub open spec fn on_disconnect(self) -> (SessionView, SessionStepView) {
        if self.is_terminal() {
            (self, SessionStepView::nothing())
        } else {
            (
                SessionView { status: SessionStatus::Aborted, ..self },
                SessionStepView { to_guesser: None, to_hinter: None, ended: true },
            )
        }
    }

    /// One guess against an active session: the attempt is counted, the
    /// trimmed guess is compared to the word letter for letter.
    pub open spec fn on_guess(self, guess: Seq<char>) -> (SessionView, SessionStepView) {
        let used = self.attempts_used + 1;
        if trim(guess) == self.secret_word {
            (
                SessionView { attempts_used: used, status: SessionStatus::Won, ..self },
                SessionStepView {
                    to_guesser: Some((self.guesser_id, progress_frame(true))),
                    to_hinter: None,
                    ended: true,
                },
            )
        } else if used >= self.max_attempts {
            (
                SessionView { attempts_used: used, status: SessionStatus::Exhausted, ..self },
                SessionStepView {
                    to_guesser: Some((self.guesser_id, progress_frame(false))),
                    to_hinter: None,
                    ended: true,
                },
            )
        } else {
            (
                SessionView { attempts_used: used, ..self },
                SessionStepView {
                    to_guesser: Some((self.guesser_id, progress_frame(false))),
                    to_hinter: Some((self.hinter_id, progress_frame(false))),
                    ended: false,
                },
            )
        }
    }

    /// A frame read from the guesser's connection.
    pub open spec fn on_guesser_frame(self, frame: Seq<u8>) -> (SessionView, SessionStepView) {
        if self.is_terminal() {
            (self, SessionStepView::nothing())
        } else {
            match decoding(frame) {
                Ok(MessageView::GuessWord { guess }) => self.on_guess(guess),
                Ok(_) => (self, SessionStepView::nothing()),
                Err(ProtocolError::UnknownTag { .. }) => (self, SessionStepView::nothing()),
                Err(_) => self.on_disconnect(),
            }
        }
    }

    /// A frame read from the hinter's connection.
    pub open spec fn on_hinter_frame(self, frame: Seq<u8>) -> (SessionView, SessionStepView) {
        if self.is_terminal() {
            (self, SessionStepView::nothing())
        } else {
            match decoding(frame) {
                Ok(MessageView::Hint { .. }) => (
                    self,
                    SessionStepView {
                        to_guesser: Some((self.guesser_id, frame)),
                        to_hinter: None,
                        ended: false,
                    },
                ),
                Ok(_) => (self, SessionStepView::nothing()),
                Err(ProtocolError::UnknownTag { .. }) => (self, SessionStepView::nothing()),
                Err(_) => self.on_disconnect(),
            }
        }
    }
}

/// What can happen to a session.
pub ghost enum SessionEvent {
    /// A frame arrived on the hinter's connection.
    HinterFrame { frame: Seq<u8> },
    /// A frame arrived on the guesser's connection.
    GuesserFrame { frame: Seq<u8> },
    /// A participant's connection closed or failed.
    Disconnect,
}

impl SessionView {
    /// The session after `event`, and what the event asks to be done.
    pub open spec fn on_event(self, event: SessionEvent) -> (SessionView, SessionStepView) {
        match event {
            SessionEvent::HinterFrame { frame } => self.on_hinter_frame(frame),
            SessionEvent::GuesserFrame { frame } => self.on_guesser_frame(frame),
            SessionEvent::Disconnect => self.on_disconnect(),
        }
    }

    /// The session after the events were applied one after the other.
    pub open spec fn after(self, events: Seq<SessionEvent>) -> SessionView
        decreases events.len(),
    {
        if events.len() == 0 {
            self
        } else {
            self.on_event(events[0]).0.after(events.drop_first())
        }
    }

    /// How many of the events told the guesser of success.
    pub open spec fn successes(self, events: Seq<SessionEvent>) -> nat
        decreases events.len(),
    {
        if events.len() == 0 {
            0
        } else {
            let (next, step) = self.on_event(events[0]);
            (if step.to_guesser == Some((self.guesser_id, progress_frame(true))) {
                1nat
            } else {
                0nat
            }) + next.successes(events.drop_first())
        }
    }

    /// How many of the events ended the session.
    pub open spec fn endings(self, events: Seq<SessionEvent>) -> nat
        decreases events.len(),
    {
        if events.len() == 0 {
            0
        } else {
            let (next, step) = self.on_event(events[0]);
            (if step.ended {
                1nat
            } else {
                0nat
            }) + next.endings(events.drop_first())
        }
    }
}

/// Whether `frame` is a guess whose trimmed text is not `word`.
pub open spec fn is_wrong_guess(frame: Seq<u8>, word: Seq<char>) -> bool {
    match decoding(frame) {
        Ok(MessageView::GuessWord { guess }) => trim(guess) != word,
        _ => false,
    }
}

/// Whether `frame` is a guess whose trimmed text is `word`.
pub open spec fn is_right_guess(frame: Seq<u8>, word: Seq<char>) -> bool {
    match decoding(frame) {
        Ok(MessageView::GuessWord { guess }) => trim(guess) == word,
        _ => false,
    }
}

/// The two progress frames differ.
pub proof fn lemma_progress_frames_differ()
    ensures
        progress_frame(true) != progress_frame(false),
        progress_frame(true) == seq![0x0au8, 1u8],
        progress_frame(false) == seq![0x0au8, 0u8],
{
    assert(progress_frame(true)[1] == 1u8);
    assert(progress_frame(false)[1] == 0u8);
}

/// Every event keeps a session valid, its roles and its word as they were,
/// and its counter from falling. A step ends the session only by taking it
/// from active to ended, and a session that has ended stays as it is and
/// sends nothing. Whatever is sent goes to the session's own guesser or
/// hinter.
pub proof fn lemma_event_step(s: SessionView, event: SessionEvent)
    requires
        s.valid(),
    ensures
        ({
            let (next, step) = s.on_event(event);
            &&& next.valid()
            &&& next.hinter_id == s.hinter_id
            &&& next.guesser_id == s.guesser_id
            &&& next.secret_word == s.secret_word
            &&& s.attempts_used <= next.attempts_used <= s.attempts_used + 1
            &&& step.ended <==> !s.is_terminal() && next.is_terminal()
            &&& s.is_terminal() ==> next == s && step == SessionStepView::nothing()
            &&& step.to_guesser matches Some(d) ==> d.0 == s.guesser_id
            &&& step.to_hinter matches Some(d) ==> d.0 == s.hinter_id
        }),
{
}

/// Over any run of events, frames and failures of both participants in any
/// order, a session ends at most once; and it has ended exactly when one of
/// the events ended it or it had ended before.
pub proof fn lemma_ends_at_most_once(s: SessionView, events: Seq<SessionEvent>)
    requires
        s.valid(),
    ensures
        s.endings(events) <= 1,
        s.is_terminal() ==> s.endings(events) == 0 && s.after(events) == s,
        !s.is_terminal() ==> (s.endings(events) == 1 <==> s.after(events).is_terminal()),
        s.after(events).valid(),
    decreases events.len(),
{
    if events.len() > 0 {
        lemma_event_step(s, events[0]);
        lemma_ends_at_most_once(s.on_event(events[0]).0, events.drop_first());
    }
}

/// Over any run of events the guesser is told of success at most once, and
/// only by an event that ended the session.
pub proof fn lemma_success_at_most_once(s: SessionView, events: Seq<SessionEvent>)
    requires
        s.valid(),
    ensures
        s.successes(events) <= s.endings(events) <= 1,
        s.successes(events) == 1 ==> s.after(events).status == SessionStatus::Won,
    decreases events.len(),
{
    lemma_ends_at_most_once(s, events);
    if events.len() > 0 {
        lemma_progress_frames_differ();
        lemma_event_step(s, events[0]);
        let next = s.on_event(events[0]).0;
        let rest = events.drop_first();
        lemma_success_at_most_once(next, rest);
        lemma_ends_at_most_once(next, rest);
        match events[0] {
            SessionEvent::HinterFrame { frame } => {
                if s.on_hinter_frame(frame).1.to_guesser is Some {
                    assert(frame[0] == 0x09u8);
                    assert(progress_frame(true)[0] == 0x0au8);
                }
            },
            _ => {},
        }
    }
}

/// The guesser is told of success exactly when the session is active and
/// the frame is a guess whose trimmed text is the word, letter for letter.
/// That guess is answered once, ends the session as won, and nothing goes to
/// the hinter.
pub proof fn lemma_success_iff_right_guess(s: SessionView, frame: Seq<u8>)
    requires
        s.valid(),
    ensures
        ({
            let (next, step) = s.on_guesser_frame(frame);
            let right = !s.is_terminal() && is_right_guess(frame, s.secret_word);
            &&& step.to_guesser == Some((s.guesser_id, progress_frame(true))) <==> right
            &&& next.status == SessionStatus::Won <==> right || s.status == SessionStatus::Won
            &&& right ==> step.ended && step.to_hinter is None && next.attempts_used
                == s.attempts_used + 1
        }),
{
    lemma_progress_frames_differ();
}

/// A wrong guess against an active session is counted and answered with a
/// failure. While attempts are left the hinter is told too, under the
/// session's own hinter id; the guess that uses the last attempt ends the
/// session as exhausted.
pub proof fn lemma_wrong_guess(s: SessionView, frame: Seq<u8>)
    requires
        s.valid(),
        !s.is_terminal(),
        is_wrong_guess(frame, s.secret_word),
    ensures
        ({
            let (next, step) = s.on_guesser_frame(frame);
            let last = s.attempts_used + 1 == s.max_attempts;
            &&& next.attempts_used == s.attempts_used + 1
            &&& step.to_guesser == Some((s.guesser_id, progress_frame(false)))
            &&& last ==> next.status == SessionStatus::Exhausted && step.ended && step.to_hinter
                is None
            &&& !last ==> next.status == SessionStatus::Active && !step.ended && step.to_hinter
                == Some((s.hinter_id, progress_frame(false)))
        }),
{
}

/// The session after the guesser's frames were handled one after the other.
pub open spec fn after_guesses(s: SessionView, frames: Seq<Seq<u8>>) -> SessionView
    decreases frames.len(),
{
    if frames.len() == 0 {
        s
    } else {
        after_guesses(s.on_guesser_frame(frames[0]).0, frames.drop_first())
    }
}

/// Wrong guesses in a row are counted one by one: the session stays active
/// while fewer were made than the budget allows, and the one that uses up the
/// budget ends it as exhausted.
pub proof fn lemma_wrong_guesses_counted(s: SessionView, frames: Seq<Seq<u8>>)
    requires
        s.valid(),
        !s.is_terminal(),
        s.attempts_used + frames.len() <= s.max_attempts,
        forall|i: int| 0 <= i < frames.len() ==> is_wrong_guess(#[trigger] frames[i], s.secret_word),
    ensures
        after_guesses(s, frames).attempts_used == s.attempts_used + frames.len(),
        after_guesses(s, frames).status == if s.attempts_used + frames.len() < s.max_attempts {
            SessionStatus::Active
        } else {
            SessionStatus::Exhausted
        },
    decreases frames.len(),
{
    if frames.len() > 0 {
        lemma_wrong_guess(s, frames[0]);
        let next = s.on_guesser_frame(frames[0]).0;
        let rest = frames.drop_first();
        assert forall|i: int| 0 <= i < rest.len() implies is_wrong_guess(
            #[trigger] rest[i],
            next.secret_word,
        ) by {
            assert(rest[i] == frames[i + 1]);
        }
        if rest.len() > 0 {
            lemma_wrong_guesses_counted(next, rest);
        }
    }
}

/// Ten wrong guesses in a row against a new session end it as exhausted,
/// without success, and whatever the guesser sends after that is not
/// evaluated: the session stays as it is and nothing is sent.
pub proof fn lemma_budget_exhausted(
    hinter_id: u32,
    guesser_id: u32,
    word: Seq<char>,
    frames: Seq<Seq<u8>>,
    later: Seq<u8>,
)
    requires
        frames.len() == MAX_ATTEMPTS,
        forall|i: int| 0 <= i < frames.len() ==> is_wrong_guess(#[trigger] frames[i], word),
    ensures
        ({
            let end = after_guesses(SessionView::start(hinter_id, guesser_id, word), frames);
            &&& end.status == SessionStatus::Exhausted
            &&& end.attempts_used == MAX_ATTEMPTS
            &&& end.on_guesser_frame(later) == (end, SessionStepView::nothing())
        }),
{
    lemma_wrong_guesses_counted(SessionView::start(hinter_id, guesser_id, word), frames);
}

/// A hint goes to the guesser of the hinter's own session, as it came, and
/// to nobody else; nothing that the hinter sends reaches the hinter, changes
/// the counter or wins the game.
pub proof fn lemma_hint_routing(s: SessionView, frame: Seq<u8>)
    requires
        s.valid(),
    ensures
        ({
            let (next, step) = s.on_hinter_frame(frame);
            &&& step.to_hinter is None
            &&& step.to_guesser is Some <==> !s.is_terminal() && decoding(frame) is Ok
                && decoding(frame)->Ok_0 is Hint
            &&& step.to_guesser is Some ==> step.to_guesser == Some((s.guesser_id, frame))
            &&& step.to_guesser matches Some(d) ==> d.1 == encoding(decoding(frame)->Ok_0)
            &&& next.attempts_used == s.attempts_used
            &&& next.status == s.status || next.status == SessionStatus::Aborted
        }),
{
    if decoding(frame) is Ok {
        lemma_encode_decode(frame);
    }
}

/// The state that the hinter's and the guesser's loops share.
#[derive(Debug)]
pub struct GameSession {
    hinter_id: u32,
    guesser_id: u32,
    secret_word: String,
    attempts_used: u32,
    max_attempts: u32,
    status: SessionStatus,
}

impl View for GameSession {
    type V = SessionView;

    closed spec fn view(&self) -> SessionView {
        SessionView {
            hinter_id: self.hinter_id,
            guesser_id: self.guesser_id,
            secret_word: self.secret_word@,
            attempts_used: self.attempts_used as nat,
            max_attempts: self.max_attempts as nat,
            status: self.status,
        }
    }
}

fn nothing() -> (step: SessionStep)
    ensures
        step@ == SessionStepView::nothing(),
{
    SessionStep { to_guesser: None, to_hinter: None, ended: false }
}

fn progress(to: u32, correct: bool) -> (d: Option<Delivery>)
    ensures
        delivery_view(d) == Some((to, progress_frame(correct))),
{
    Some(Delivery { to, frame: encode(&Message::ProgressUpdate { correct }) })
}

impl GameSession {
    pub open spec fn wf(&self) -> bool {
        self@.valid()
    }

    /// The client that supplied the word and sends the hints.
    pub fn hinter_id(&self) -> (r: u32)
        ensures
            r == self@.hinter_id,
    {
        self.hinter_id
    }

    /// The client that guesses.
    pub fn guesser_id(&self) -> (r: u32)
        ensures
            r == self@.guesser_id,
    {
        self.guesser_id
    }

    /// The number of guesses counted so far.
    pub fn attempts_used(&self) -> (r: u32)
        ensures
            r == self@.attempts_used,
    {
        self.attempts_used
    }

    /// The number of guesses the session accepts.
    pub fn max_attempts(&self) -> (r: u32)
        ensures
            r == self@.max_attempts,
    {
        self.max_attempts
    }

    pub fn status(&self) -> (r: SessionStatus)
        ensures
            r == self@.status,
    {
        self.status
    }

    /// Whether the session has ended.
    pub fn is_terminal(&self) -> (r: bool)
        ensures
            r == self@.is_terminal(),
    {
        match self.status {
            SessionStatus::Active => false,
            _ => true,
        }
    }

    /// Ends the session because a participant's connection closed or failed.
    /// Only the call that finds the session active ends it.
    pub fn disconnect(&mut self) -> (step: SessionStep)
        requires
            old(self).wf(),
        ensures
            final(self).wf(),
            final(self)@ == old(self)@.on_disconnect().0,
            step@ == old(self)@.on_disconnect().1,
    {
        if self.is_terminal() {
            nothing()
        } else {
            self.status = SessionStatus::Aborted;
            SessionStep { to_guesser: None, to_hinter: None, ended: true }
        }
    }

    /// Counts and judges one guess.
    fn guess(&mut self, guess: &str) -> (step: SessionStep)
        requires
            old(self).wf(),
            !old(self)@.is_terminal(),
        ensures
            final(self).wf(),
            final(self)@ == old(self)@.on_guess(guess@).0,
            step@ == old(self)@.on_guess(guess@).1,
    {
        let normalized = trimmed(guess);
        self.attempts_used = self.attempts_used + 1;
        if normalized == self.secret_word {
            self.status = SessionStatus::Won;
            SessionStep { to_guesser: progress(self.guesser_id, true), to_hinter: None, ended: true }
        } else if self.attempts_used >= self.max_attempts {
            self.status = SessionStatus::Exhausted;
            SessionStep {
                to_guesser: progress(self.guesser_id, false),
                to_hinter: None,
                ended: true,
            }
        } else {
            SessionStep {
                to_guesser: progress(self.guesser_id, false),
                to_hinter: progress(self.hinter_id, false),
                ended: false,
            }
        }
    }

    /// One step of the guesser's loop: a guess is counted and answered, any
    /// other message is passed over, a malformed frame ends the session.
    /// Once the session has ended nothing is evaluated any more.
    pub fn handle_guesser_frame(&mut self, frame: &[u8]) -> (step: SessionStep)
        requires
            old(self).wf(),
        ensures
            final(self).wf(),
            final(self)@ == old(self)@.on_guesser_frame(frame@).0,
            step@ == old(self)@.on_guesser_frame(frame@).1,
    {
        if self.is_terminal() {
            return nothing();
        }
        match decode(frame) {
            Ok(Message::GuessWord { guess }) => self.guess(guess.as_str()),
            Ok(_) => nothing(),
            Err(ProtocolError::UnknownTag { .. }) => nothing(),
            Err(_) => self.disconnect(),
        }
    }

    /// One step of the hinter's loop: a hint goes to the session's guesser
    /// as it came, any other message is passed over, a malformed frame ends
    /// the session.
    pub fn handle_hinter_frame(&mut self, frame: &[u8]) -> (step: SessionStep)
        requires
            old(self).wf(),
        ensures
            final(self).wf(),
            final(self)@ == old(self)@.on_hinter_frame(frame@).0,
            step@ == old(self)@.on_hinter_frame(frame@).1,
    {
        if self.is_terminal() {
            return nothing();
        }
        match decode(frame) {
            Ok(Message::Hint { .. }) => SessionStep {
                to_guesser: Some(Delivery { to: self.guesser_id, frame: slice_to_vec(frame) }),
                to_hinter: None,
                ended: false,
            },
            Ok(_) => nothing(),
            Err(ProtocolError::UnknownTag { .. }) => nothing(),
            Err(_) => self.disconnect(),
        }
    }
}

/// Creates the session of a match between two registered clients: the first
/// is the hinter, the second the guesser, `word_to_guess` the target. There is
/// no session when either of them is not registered.
pub fn start_guessing_game(
    server: &Server,
    client_a_id: u32,
    client_b_id: u32,
    word_to_guess: String,
) -> (r: Option<GameSession>)
    requires
        server.wf(),
    ensures
        r is Some <==> server@.resolve(client_a_id) is Some && server@.resolve(client_b_id) is Some,
        r is Some ==> r->0.wf() && r->0@ == SessionView::start(
            client_a_id,
            client_b_id,
            word_to_guess@,
        ),
{
    if server.resolve(client_a_id).is_none() || server.resolve(client_b_id).is_none() {
        return None;
    }
    Some(
        GameSession {
            hinter_id: client_a_id,
            guesser_id: client_b_id,
            secret_word: word_to_guess,
            attempts_used: 0,
            max_attempts: MAX_ATTEMPTS,
            status: SessionStatus::Active,
        },
    )
}

} // verus!
