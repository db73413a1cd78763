//! Message tags and protocol constants.

use vstd::prelude::*;

verus! {

pub const MSG_INIT: u8 = 0x01;

pub const MSG_PASSWORD_RESPONSE: u8 = 0x02;

pub const MSG_ASSIGN_ID: u8 = 0x03;

pub const MSG_REQUEST_OPPONENTS: u8 = 0x04;

pub const MSG_OPPONENTS_RESPONSE: u8 = 0x05;

pub const MSG_REQUEST_MATCH: u8 = 0x06;

pub const MSG_MATCH_CONFIRM: u8 = 0x07;

pub const MSG_GUESS_WORD: u8 = 0x08;

pub const MSG_HINT: u8 = 0x09;

pub const MSG_PROGRESS_UPDATE: u8 = 0x0a;

pub const MSG_TEXT: u8 = 0x0b;

pub const MSG_ERROR: u8 = 0xff;

/// Status byte of the server's reply to the init signal.
pub const INIT_OK: u8 = 0x00;

/// Error code sent when the shared secret does not match.
pub const ERR_BAD_PASSWORD: u8 = 0x01;

/// Error code sent when a match names a client that is not registered.
pub const ERR_OPPONENT_NOT_FOUND: u8 = 0x02;

/// Number of guesses a session accepts.
pub const MAX_ATTEMPTS: u32 = 10;

} // verus!
