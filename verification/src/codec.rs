//! The tagged wire format: one tag byte, then a payload whose layout the tag
//! fixes. A frame holds exactly one message.

use vstd::prelude::*;
use vstd::slice::*;
use vstd::string::*;
use vstd::utf8::*;
use crate::constants::{
    ERR_BAD_PASSWORD, ERR_OPPONENT_NOT_FOUND, MSG_ASSIGN_ID, MSG_ERROR, MSG_GUESS_WORD, MSG_HINT,
    MSG_INIT, MSG_MATCH_CONFIRM, MSG_OPPONENTS_RESPONSE, MSG_PASSWORD_RESPONSE,
    MSG_PROGRESS_UPDATE, MSG_REQUEST_MATCH, MSG_REQUEST_OPPONENTS, MSG_TEXT,
};
use crate::text::string_from_utf8;

verus! {

/// Why a frame is not a message.
#[derive(Clone, Copy, Debug, PartialEq, Eq, Structural)]
pub enum ProtocolError {
    /// The frame holds no byte at all.
    Empty,
    /// The first byte is not a tag of the protocol.
    UnknownTag { tag: u8 },
    /// The payload ends before the fields of its tag do.
    Truncated,
    /// Bytes follow the last field of a fixed-size payload.
    TrailingBytes,
    /// A text field is not well-formed UTF-8.
    InvalidUtf8,
    /// A status or code byte holds a value the protocol does not define.
    InvalidValue,
}

/// The reasons the server reports with an error message.
#[derive(Clone, Copy, Debug, PartialEq, Eq, Structural)]
pub enum ErrorCode {
    BadPassword,
    OpponentNotFound,
}

impl ErrorCode {
    /// The byte that stands for this code on the wire.
    pub open spec fn spec_byte(self) -> u8 {
        match self {
            ErrorCode::BadPassword => ERR_BAD_PASSWORD,
            ErrorCode::OpponentNotFound => ERR_OPPONENT_NOT_FOUND,
        }
    }

    #[verifier::when_used_as_spec(spec_byte)]
    pub fn byte(self) -> (r: u8)
        ensures
            r == self.spec_byte(),
    {
        match self {
            ErrorCode::BadPassword => ERR_BAD_PASSWORD,
            ErrorCode::OpponentNotFound => ERR_OPPONENT_NOT_FOUND,
        }
    }
}

/// A message of the protocol.
#[derive(Clone, Debug, PartialEq, Eq)]
pub enum Message {
    /// The client's init signal.
    Init,
    /// The server's answer to the init signal.
    InitReply { status: u8 },
    PasswordResponse { password: String },
    AssignId { id: u32 },
    RequestOpponents,
    OpponentsResponse { ids: Vec<u32> },
    RequestMatch { opponent_id: u32, word: String },
    MatchConfirm,
    GuessWord { guess: String },
    Hint { hint: String },
    ProgressUpdate { correct: bool },
    /// Reserved.
    Text { text: String },
    Error { code: ErrorCode },
}

/// A message as a mathematical value: text as characters, lists as sequences.
pub ghost enum MessageView {
    Init,
    InitReply { status: u8 },
    PasswordResponse { password: Seq<char> },
    AssignId { id: u32 },
    RequestOpponents,
    OpponentsResponse { ids: Seq<u32> },
    RequestMatch { opponent_id: u32, word: Seq<char> },
    MatchConfirm,
    GuessWord { guess: Seq<char> },
    Hint { hint: Seq<char> },
    ProgressUpdate { correct: bool },
    Text { text: Seq<char> },
    Error { code: ErrorCode },
}

impl View for Message {
    type V = MessageView;

    open spec fn view(&self) -> MessageView {
        match *self {
            Message::Init => MessageView::Init,
            Message::InitReply { status } => MessageView::InitReply { status },
            Message::PasswordResponse { password } => MessageView::PasswordResponse {
                password: password@,
            },
            Message::AssignId { id } => MessageView::AssignId { id },
            Message::RequestOpponents => MessageView::RequestOpponents,
            Message::OpponentsResponse { ids } => MessageView::OpponentsResponse { ids: ids@ },
            Message::RequestMatch { opponent_id, word } => MessageView::RequestMatch {
                opponent_id,
                word: word@,
            },
            Message::MatchConfirm => MessageView::MatchConfirm,
            Message::GuessWord { guess } => MessageView::GuessWord { guess: guess@ },
            Message::Hint { hint } => MessageView::Hint { hint: hint@ },
            Message::ProgressUpdate { correct } => MessageView::ProgressUpdate { correct },
            Message::Text { text } => MessageView::Text { text: text@ },
            Message::Error { code } => MessageView::Error { code },
        }
    }
}

/// The four bytes of `x`, most significant first.
pub open spec fn be32(x: u32) -> Seq<u8> {
    seq![
        (x / 0x100_0000) as u8,
        ((x / 0x1_0000) % 0x100) as u8,
        ((x / 0x100) % 0x100) as u8,
        (x % 0x100) as u8,
    ]
}

/// The number whose big-endian bytes stand at `at` in `b`.
pub open spec fn be32_at(b: Seq<u8>, at: int) -> u32 {
    (b[at] * 0x100_0000 + b[at + 1] * 0x1_0000 + b[at + 2] * 0x100 + b[at + 3]) as u32
}

/// The ids one after the other, four bytes each.
pub open spec fn id_bytes(ids: Seq<u32>) -> Seq<u8> {
    Seq::new(4 * ids.len(), |j: int| be32(ids[j / 4])[j % 4])
}

/// The `n` ids that stand in `b` from `at` on.
pub open spec fn ids_at(b: Seq<u8>, at: int, n: nat) -> Seq<u32> {
    Seq::new(n, |i: int| be32_at(b, at + 4 * i))
}

/// The text that a payload of UTF-8 bytes holds.
pub open spec fn text_of(body: Seq<u8>) -> Result<Seq<char>, ProtocolError> {
    if valid_utf8(body) {
        Ok(decode_utf8(body))
    } else {
        Err(ProtocolError::InvalidUtf8)
    }
}

/// Whether the lengths that `m` carries fit their four-byte fields.
pub open spec fn encodable(m: MessageView) -> bool {
    match m {
        MessageView::OpponentsResponse { ids } => ids.len() <= u32::MAX,
        MessageView::RequestMatch { opponent_id, word } => encode_utf8(word).len() <= u32::MAX,
        _ => true,
    }
}

/// The frame that carries `m`.
pub open spec fn encoding(m: MessageView) -> Seq<u8> {
    match m {
        MessageView::Init => seq![MSG_INIT],
        MessageView::InitReply { status } => seq![MSG_INIT, status],
        MessageView::PasswordResponse { password } => seq![MSG_PASSWORD_RESPONSE] + encode_utf8(
            password,
        ),
        MessageView::AssignId { id } => seq![MSG_ASSIGN_ID] + be32(id),
        MessageView::RequestOpponents => seq![MSG_REQUEST_OPPONENTS],
        MessageView::OpponentsResponse { ids } => seq![MSG_OPPONENTS_RESPONSE] + be32(
            ids.len() as u32,
        ) + id_bytes(ids),
        MessageView::RequestMatch { opponent_id, word } => seq![MSG_REQUEST_MATCH] + be32(
            opponent_id,
        ) + be32(encode_utf8(word).len() as u32) + encode_utf8(word),
        MessageView::MatchConfirm => seq![MSG_MATCH_CONFIRM],
        MessageView::GuessWord { guess } => seq![MSG_GUESS_WORD] + encode_utf8(guess),
        MessageView::Hint { hint } => seq![MSG_HINT] + encode_utf8(hint),
        MessageView::ProgressUpdate { correct } => seq![
            MSG_PROGRESS_UPDATE,
            if correct {
                1u8
            } else {
                0u8
            },
        ],
        MessageView::Text { text } => seq![MSG_TEXT] + encode_utf8(text),
        MessageView::Error { code } => seq![MSG_ERROR, code.spec_byte()],
    }
}

/// A payload that must be empty.
pub open spec fn no_payload(body: Seq<u8>, m: MessageView) -> Result<MessageView, ProtocolError> {
    if body.len() == 0 {
        Ok(m)
    } else {
        Err(ProtocolError::TrailingBytes)
    }
}

/// The length check of a payload that is exactly one byte.
pub open spec fn one_byte(body: Seq<u8>) -> Result<u8, ProtocolError> {
    if body.len() == 0 {
        Err(ProtocolError::Truncated)
    } else if body.len() > 1 {
        Err(ProtocolError::TrailingBytes)
    } else {
        Ok(body[0])
    }
}

/// The message that the payload `body` holds under `tag`.
pub open spec fn payload_decoding(tag: u8, body: Seq<u8>) -> Result<MessageView, ProtocolError> {
    if tag == MSG_INIT {
        if body.len() == 0 {
            Ok(MessageView::Init)
        } else if body.len() == 1 {
            Ok(MessageView::InitReply { status: body[0] })
        } else {
            Err(ProtocolError::TrailingBytes)
        }
    } else if tag == MSG_PASSWORD_RESPONSE {
        match text_of(body) {
            Ok(password) => Ok(MessageView::PasswordResponse { password }),
            Err(e) => Err(e),
        }
    } else if tag == MSG_ASSIGN_ID {
        if body.len() < 4 {
            Err(ProtocolError::Truncated)
        } else if body.len() > 4 {
            Err(ProtocolError::TrailingBytes)
        } else {
            Ok(MessageView::AssignId { id: be32_at(body, 0) })
        }
    } else if tag == MSG_REQUEST_OPPONENTS {
        no_payload(body, MessageView::RequestOpponents)
    } else if tag == MSG_OPPONENTS_RESPONSE {
        if body.len() < 4 {
            Err(ProtocolError::Truncated)
        } else if body.len() < 4 + 4 * be32_at(body, 0) {
            Err(ProtocolError::Truncated)
        } else if body.len() > 4 + 4 * be32_at(body, 0) {
            Err(ProtocolError::TrailingBytes)
        } else {
            Ok(MessageView::OpponentsResponse { ids: ids_at(body, 4, be32_at(body, 0) as nat) })
        }
    } else if tag == MSG_REQUEST_MATCH {
        if body.len() < 8 {
            Err(ProtocolError::Truncated)
        } else if body.len() < 8 + be32_at(body, 4) {
            Err(ProtocolError::Truncated)
        } else if body.len() > 8 + be32_at(body, 4) {
            Err(ProtocolError::TrailingBytes)
        } else {
            match text_of(body.subrange(8, body.len() as int)) {
                Ok(word) => Ok(MessageView::RequestMatch { opponent_id: be32_at(body, 0), word }),
                Err(e) => Err(e),
            }
        }
    } else if tag == MSG_MATCH_CONFIRM {
        no_payload(body, MessageView::MatchConfirm)
    } else if tag == MSG_GUESS_WORD {
        match text_of(body) {
            Ok(guess) => Ok(MessageView::GuessWord { guess }),
            Err(e) => Err(e),
        }
    } else if tag == MSG_HINT {
        match text_of(body) {
            Ok(hint) => Ok(MessageView::Hint { hint }),
            Err(e) => Err(e),
        }
    } else if tag == MSG_PROGRESS_UPDATE {
        match one_byte(body) {
            Ok(b) => if b == 0 {
                Ok(MessageView::ProgressUpdate { correct: false })
            } else if b == 1 {
                Ok(MessageView::ProgressUpdate { correct: true })
            } else {
                Err(ProtocolError::InvalidValue)
            },
            Err(e) => Err(e),
        }
    } else if tag == MSG_TEXT {
        match text_of(body) {
            Ok(text) => Ok(MessageView::Text { text }),
            Err(e) => Err(e),
        }
    } else if tag == MSG_ERROR {
        match one_byte(body) {
            Ok(b) => if b == ERR_BAD_PASSWORD {
                Ok(MessageView::Error { code: ErrorCode::BadPassword })
            } else if b == ERR_OPPONENT_NOT_FOUND {
                Ok(MessageView::Error { code: ErrorCode::OpponentNotFound })
            } else {
                Err(ProtocolError::InvalidValue)
            },
            Err(e) => Err(e),
        }
    } else {
        Err(ProtocolError::UnknownTag { tag })
    }
}

/// The message that the frame `bytes` holds, or why it holds none.
pub open spec fn decoding(bytes: Seq<u8>) -> Result<MessageView, ProtocolError> {
    if bytes.len() == 0 {
        Err(ProtocolError::Empty)
    } else {
        payload_decoding(bytes[0], bytes.subrange(1, bytes.len() as int))
    }
}

/// What `decode` returned stands for what `decoding` says.
pub open spec fn same_result(
    r: Result<Message, ProtocolError>,
    d: Result<MessageView, ProtocolError>,
) -> bool {
    match r {
        Ok(m) => d == Ok::<MessageView, ProtocolError>(m@),
        Err(e) => d == Err::<MessageView, ProtocolError>(e),
    }
}

/// Appends the big-endian bytes of `x` to `out`.
pub fn put_be32(out: &mut Vec<u8>, x: u32)
    ensures
        final(out)@ == old(out)@ + be32(x),
{
    out.push((x / 0x100_0000) as u8);
    out.push(((x / 0x1_0000) % 0x100) as u8);
    out.push(((x / 0x100) % 0x100) as u8);
    out.push((x % 0x100) as u8);
    assert(out@ =~= old(out)@ + be32(x));
}

/// Reads the big-endian number that stands at `at` in `b`.
pub fn get_be32(b: &[u8], at: usize) -> (r: u32)
    requires
        at + 4 <= b@.len(),
    ensures
        r == be32_at(b@, at as int),
{
    let b0: u32 = b[at] as u32;
    let b1: u32 = b[at + 1] as u32;
    let b2: u32 = b[at + 2] as u32;
    let b3: u32 = b[at + 3] as u32;
    b0 * 0x100_0000 + b1 * 0x1_0000 + b2 * 0x100 + b3
}

/// Appends `bytes` to `out`.
pub fn put_bytes(out: &mut Vec<u8>, bytes: &[u8])
    ensures
        final(out)@ == old(out)@ + bytes@,
{
    let mut i: usize = 0;
    while i < bytes.len()
        invariant
            i <= bytes@.len(),
            out@ == old(out)@ + bytes@.subrange(0, i as int),
        decreases bytes@.len() - i,
    {
        out.push(bytes[i]);
        i += 1;
        assert(out@ =~= old(out)@ + bytes@.subrange(0, i as int));
    }
    assert(bytes@.subrange(0, i as int) =~= bytes@);
}

/// Reading back four bytes written by `be32` gives the number again.
pub proof fn lemma_be32_round_trip(x: u32, b: Seq<u8>, at: int)
    requires
        0 <= at,
        at + 4 <= b.len(),
        b.subrange(at, at + 4) == be32(x),
    ensures
        be32_at(b, at) == x,
{
    let w = b.subrange(at, at + 4);
    assert(b[at] == w[0] && b[at + 1] == w[1] && b[at + 2] == w[2] && b[at + 3] == w[3]);
}

/// Reading back the ids written by `id_bytes` gives the ids again.
pub proof fn lemma_id_bytes_round_trip(ids: Seq<u32>, b: Seq<u8>, at: int)
    requires
        0 <= at,
        at + 4 * ids.len() <= b.len(),
        b.subrange(at, at + 4 * (ids.len() as int)) == id_bytes(ids),
    ensures
        ids_at(b, at, ids.len()) == ids,
{
    let w = b.subrange(at, at + 4 * (ids.len() as int));
    assert forall|i: int| 0 <= i < ids.len() implies be32_at(b, at + 4 * i) == ids[i] by {
        let k = 4 * i;
        assert(b[at + k] == w[k] && b[at + k + 1] == w[k + 1] && b[at + k + 2] == w[k + 2] && b[at
            + k + 3] == w[k + 3]);
        assert(w[k] == be32(ids[i])[0]);
        assert(w[k + 1] == be32(ids[i])[1]);
        assert(w[k + 2] == be32(ids[i])[2]);
        assert(w[k + 3] == be32(ids[i])[3]);
    }
    assert(ids_at(b, at, ids.len()) =~= ids);
}

/// Decoding the frame of a message gives the message back.
pub proof fn lemma_decode_encode(m: MessageView)
    requires
        encodable(m),
    ensures
        decoding(encoding(m)) == Ok::<MessageView, ProtocolError>(m),
{
    broadcast use {encode_utf8_valid_utf8, encode_utf8_decode_utf8};

    let frame = encoding(m);
    let body = frame.subrange(1, frame.len() as int);
    match m {
        MessageView::PasswordResponse { password } => {
            assert(body =~= encode_utf8(password));
        },
        MessageView::GuessWord { guess } => {
            assert(body =~= encode_utf8(guess));
        },
        MessageView::Hint { hint } => {
            assert(body =~= encode_utf8(hint));
        },
        MessageView::Text { text } => {
            assert(body =~= encode_utf8(text));
        },
        MessageView::AssignId { id } => {
            assert(body =~= be32(id));
            assert(body.subrange(0, 4) =~= be32(id));
            lemma_be32_round_trip(id, body, 0);
        },
        MessageView::OpponentsResponse { ids } => {
            let n = ids.len() as u32;
            assert(body =~= be32(n) + id_bytes(ids));
            assert(body.subrange(0, 4) =~= be32(n));
            lemma_be32_round_trip(n, body, 0);
            assert(body.subrange(4, 4 + 4 * (ids.len() as int)) =~= id_bytes(ids));
            lemma_id_bytes_round_trip(ids, body, 4);
        },
        MessageView::RequestMatch { opponent_id, word } => {
            let text = encode_utf8(word);
            let n = text.len() as u32;
            assert(body =~= be32(opponent_id) + be32(n) + text);
            assert(body.subrange(0, 4) =~= be32(opponent_id));
            assert(body.subrange(4, 8) =~= be32(n));
            lemma_be32_round_trip(opponent_id, body, 0);
            lemma_be32_round_trip(n, body, 4);
            assert(body.subrange(8, body.len() as int) =~= text);
        },
        MessageView::InitReply { status } => {
            assert(body =~= seq![status]);
        },
        MessageView::ProgressUpdate { correct } => {
            assert(body.len() == 1);
        },
        MessageView::Error { code } => {
            assert(body.len() == 1);
        },
        _ => {
            assert(body.len() == 0);
        },
    }
}

/// Writing the number read at `at` gives the four bytes that stand there.
pub proof fn lemma_be32_at_round_trip(b: Seq<u8>, at: int)
    requires
        0 <= at,
        at + 4 <= b.len(),
    ensures
        be32(be32_at(b, at)) == b.subrange(at, at + 4),
{
    assert(be32(be32_at(b, at)) =~= b.subrange(at, at + 4));
}

/// Writing the ids read from `at` on gives the bytes that stand there.
pub proof fn lemma_ids_at_round_trip(b: Seq<u8>, at: int, n: nat)
    requires
        0 <= at,
        at + 4 * n <= b.len(),
    ensures
        id_bytes(ids_at(b, at, n)) == b.subrange(at, at + 4 * (n as int)),
{
    let ids = ids_at(b, at, n);
    let w = b.subrange(at, at + 4 * (n as int));
    assert forall|j: int| 0 <= j < 4 * n implies id_bytes(ids)[j] == w[j] by {
        let i = j / 4;
        lemma_be32_at_round_trip(b, at + 4 * i);
        assert(b.subrange(at + 4 * i, at + 4 * i + 4)[j % 4] == b[at + 4 * i + j % 4]);
    }
    assert(id_bytes(ids) =~= w);
}

/// A frame that holds a message is the frame of that message: no two frames
/// decode to the same message.
pub proof fn lemma_encode_decode(bytes: Seq<u8>)
    requires
        decoding(bytes) is Ok,
    ensures
        encodable(decoding(bytes)->Ok_0),
        encoding(decoding(bytes)->Ok_0) == bytes,
{
    broadcast use decode_utf8_encode_utf8;

    let tag = bytes[0];
    let body = bytes.subrange(1, bytes.len() as int);
    let m = decoding(bytes)->Ok_0;
    assert(bytes =~= seq![tag] + body);
    if tag == MSG_ASSIGN_ID {
        lemma_be32_at_round_trip(body, 0);
        assert(body.subrange(0, 4) =~= body);
    } else if tag == MSG_OPPONENTS_RESPONSE {
        let n = be32_at(body, 0);
        lemma_be32_at_round_trip(body, 0);
        lemma_ids_at_round_trip(body, 4, n as nat);
        assert(body =~= body.subrange(0, 4) + body.subrange(4, 4 + 4 * (n as int)));
        assert(ids_at(body, 4, n as nat).len() == n);
    } else if tag == MSG_REQUEST_MATCH {
        let text = body.subrange(8, body.len() as int);
        lemma_be32_at_round_trip(body, 0);
        lemma_be32_at_round_trip(body, 4);
        assert(text.len() == be32_at(body, 4));
        assert(body =~= body.subrange(0, 4) + body.subrange(4, 8) + text);
    } else if tag == MSG_PROGRESS_UPDATE || tag == MSG_ERROR || tag == MSG_INIT {
        if body.len() == 1 {
            assert(body =~= seq![body[0]]);
        }
    }
    assert(encoding(m) =~= seq![tag] + body);
}

/// Two messages with the same frame are the same message.
pub proof fn lemma_encoding_injective(a: MessageView, b: MessageView)
    requires
        encodable(a),
        encodable(b),
        encoding(a) == encoding(b),
    ensures
        a == b,
{
    lemma_decode_encode(a);
    lemma_decode_encode(b);
}

/// The frame that carries `m`.
pub fn encode(m: &Message) -> (out: Vec<u8>)
    requires
        encodable(m@),
    ensures
        out@ == encoding(m@),
{
    let mut out: Vec<u8> = Vec::new();
    match m {
        Message::Init => {
            out.push(MSG_INIT);
        },
        Message::InitReply { status } => {
            out.push(MSG_INIT);
            out.push(*status);
        },
        Message::PasswordResponse { password } => {
            out.push(MSG_PASSWORD_RESPONSE);
            put_bytes(&mut out, password.as_str().as_bytes());
        },
        Message::AssignId { id } => {
            out.push(MSG_ASSIGN_ID);
            put_be32(&mut out, *id);
        },
        Message::RequestOpponents => {
            out.push(MSG_REQUEST_OPPONENTS);
        },
        Message::OpponentsResponse { ids } => {
            out.push(MSG_OPPONENTS_RESPONSE);
            put_be32(&mut out, ids.len() as u32);
            let ghost head = out@;
            let mut i: usize = 0;
            while i < ids.len()
                invariant
                    i <= ids@.len(),
                    out@ == head + id_bytes(ids@.subrange(0, i as int)),
                decreases ids@.len() - i,
            {
                put_be32(&mut out, ids[i]);
                i += 1;
                assert(out@ =~= head + id_bytes(ids@.subrange(0, i as int))) by {
                    let a = id_bytes(ids@.subrange(0, i - 1));
                    let c = id_bytes(ids@.subrange(0, i as int));
                    assert(c =~= a + be32(ids@[i - 1]));
                }
            }
            assert(ids@.subrange(0, i as int) =~= ids@);
        },
        Message::RequestMatch { opponent_id, word } => {
            out.push(MSG_REQUEST_MATCH);
            put_be32(&mut out, *opponent_id);
            let bytes = word.as_str().as_bytes();
            put_be32(&mut out, bytes.len() as u32);
            put_bytes(&mut out, bytes);
        },
        Message::MatchConfirm => {
            out.push(MSG_MATCH_CONFIRM);
        },
        Message::GuessWord { guess } => {
            out.push(MSG_GUESS_WORD);
            put_bytes(&mut out, guess.as_str().as_bytes());
        },
        Message::Hint { hint } => {
            out.push(MSG_HINT);
            put_bytes(&mut out, hint.as_str().as_bytes());
        },
        Message::ProgressUpdate { correct } => {
            out.push(MSG_PROGRESS_UPDATE);
            out.push(if *correct { 1u8 } else { 0u8 });
        },
        Message::Text { text } => {
            out.push(MSG_TEXT);
            put_bytes(&mut out, text.as_str().as_bytes());
        },
        Message::Error { code } => {
            out.push(MSG_ERROR);
            out.push(code.byte());
        },
    }
    assert(out@ =~= encoding(m@));
    out
}

/// The text that the payload `body` holds.
pub fn decode_text(body: &[u8]) -> (r: Result<String, ProtocolError>)
    ensures
        match r {
            Ok(s) => text_of(body@) == Ok::<Seq<char>, ProtocolError>(s@),
            Err(e) => text_of(body@) == Err::<Seq<char>, ProtocolError>(e),
        },
{
    match string_from_utf8(slice_to_vec(body)) {
        Some(s) => Ok(s),
        None => Err(ProtocolError::InvalidUtf8),
    }
}

/// The `n` ids that stand in `body` from its fifth byte on.
fn decode_ids(body: &[u8], n: u32) -> (ids: Vec<u32>)
    requires
        body@.len() == 4 + 4 * n,
    ensures
        ids@ == ids_at(body@, 4, n as nat),
{
    let mut ids: Vec<u32> = Vec::new();
    let len: usize = body.len();
    let mut i: usize = 0;
    while i < n as usize
        invariant
            i <= n,
            len == 4 + 4 * n,
            body@.len() == len,
            ids@ == ids_at(body@, 4, i as nat),
        decreases n - i,
    {
        let id = get_be32(body, 4 + 4 * i);
        ids.push(id);
        i += 1;
        assert(ids@ =~= ids_at(body@, 4, i as nat));
    }
    ids
}

/// Reads the frame `bytes` as one message.
pub fn decode(bytes: &[u8]) -> (r: Result<Message, ProtocolError>)
    ensures
        same_result(r, decoding(bytes@)),
{
    if bytes.len() == 0 {
        return Err(ProtocolError::Empty);
    }
    let tag = bytes[0];
    let body = slice_subrange(bytes, 1, bytes.len());
    let len = body.len();
    if tag == MSG_INIT {
        if len == 0 {
            Ok(Message::Init)
        } else if len == 1 {
            Ok(Message::InitReply { status: body[0] })
        } else {
            Err(ProtocolError::TrailingBytes)
        }
    } else if tag == MSG_PASSWORD_RESPONSE {
        match decode_text(body) {
            Ok(password) => Ok(Message::PasswordResponse { password }),
            Err(e) => Err(e),
        }
    } else if tag == MSG_ASSIGN_ID {
        if len < 4 {
            Err(ProtocolError::Truncated)
        } else if len > 4 {
            Err(ProtocolError::TrailingBytes)
        } else {
            Ok(Message::AssignId { id: get_be32(body, 0) })
        }
    } else if tag == MSG_REQUEST_OPPONENTS {
        if len == 0 {
            Ok(Message::RequestOpponents)
        } else {
            Err(ProtocolError::TrailingBytes)
        }
    } else if tag == MSG_OPPONENTS_RESPONSE {
        if len < 4 {
            return Err(ProtocolError::Truncated);
        }
        let n = get_be32(body, 0);
        let need: u64 = 4 + 4 * (n as u64);
        if (len as u64) < need {
            Err(ProtocolError::Truncated)
        } else if (len as u64) > need {
            Err(ProtocolError::TrailingBytes)
        } else {
            Ok(Message::OpponentsResponse { ids: decode_ids(body, n) })
        }
    } else if tag == MSG_REQUEST_MATCH {
        if len < 8 {
            return Err(ProtocolError::Truncated);
        }
        let opponent_id = get_be32(body, 0);
        let need: u64 = 8 + (get_be32(body, 4) as u64);
        if (len as u64) < need {
            Err(ProtocolError::Truncated)
        } else if (len as u64) > need {
            Err(ProtocolError::TrailingBytes)
        } else {
            match decode_text(slice_subrange(body, 8, len)) {
                Ok(word) => Ok(Message::RequestMatch { opponent_id, word }),
                Err(e) => Err(e),
            }
        }
    } else if tag == MSG_MATCH_CONFIRM {
        if len == 0 {
            Ok(Message::MatchConfirm)
        } else {
            Err(ProtocolError::TrailingBytes)
        }
    } else if tag == MSG_GUESS_WORD {
        match decode_text(body) {
            Ok(guess) => Ok(Message::GuessWord { guess }),
            Err(e) => Err(e),
        }
    } else if tag == MSG_HINT {
        match decode_text(body) {
            Ok(hint) => Ok(Message::Hint { hint }),
            Err(e) => Err(e),
        }
    } else if tag == MSG_PROGRESS_UPDATE {
        if len == 0 {
            Err(ProtocolError::Truncated)
        } else if len > 1 {
            Err(ProtocolError::TrailingBytes)
        } else if body[0] == 0 {
            Ok(Message::ProgressUpdate { correct: false })
        } else if body[0] == 1 {
            Ok(Message::ProgressUpdate { correct: true })
        } else {
            Err(ProtocolError::InvalidValue)
        }
    } else if tag == MSG_TEXT {
        match decode_text(body) {
            Ok(text) => Ok(Message::Text { text }),
            Err(e) => Err(e),
        }
    } else if tag == MSG_ERROR {
        if len == 0 {
            Err(ProtocolError::Truncated)
        } else if len > 1 {
            Err(ProtocolError::TrailingBytes)
        } else if body[0] == ERR_BAD_PASSWORD {
            Ok(Message::Error { code: ErrorCode::BadPassword })
        } else if body[0] == ERR_OPPONENT_NOT_FOUND {
            Ok(Message::Error { code: ErrorCode::OpponentNotFound })
        } else {
            Err(ProtocolError::InvalidValue)
        }
    } else {
        Err(ProtocolError::UnknownTag { tag })
    }
}

} // verus!
