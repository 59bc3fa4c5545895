//! Session state: either no session, or a connected session holding the
//! derived keys together with a connection phase and a pairing phase.  The
//! codec reads this state but never writes it.

use vstd::prelude::*;

use crate::sgcrypto::Crypto;

verus! {

/// Error returned when a packet kind is not legal in the current state.
#[derive(Clone, Copy, Debug, PartialEq, Eq, Structural)]
pub enum InvalidState {
    /// The operation needed a disconnected session.
    Connected,
    /// The operation needed a connected session.
    Disconnected,
}

/// The phase of the connection handshake.
#[derive(Clone, Copy, Debug, PartialEq, Eq, Structural)]
pub enum ConnectionState {
    Disconnected,
    Connecting,
    Connected,
    Error,
    Disconnecting,
    Reconnecting,
}

/// Whether the client has paired with the console.
#[derive(Clone, Copy, Debug, PartialEq, Eq, Structural)]
pub enum PairingState {
    NotPaired,
    Paired,
}

/// The data a connected session carries.
pub struct State {
    pub connection_state: ConnectionState,
    pub pairing_state: PairingState,
    pub crypto: Crypto,
}

/// The session state the codec is handed on each call.
pub enum SGState {
    Disconnected,
    Connected(State),
}

impl SGState {
    /// Hands back the connected session data, or `InvalidState::Disconnected`.
    pub fn ensure_connected(&self) -> (r: Result<&State, InvalidState>)
        ensures
            r is Ok <==> self is Connected,
            r matches Ok(st) ==> self matches SGState::Connected(s) && *st == s,
            r matches Err(e) ==> e == InvalidState::Disconnected,
    {
        match *self {
            SGState::Disconnected => Err(InvalidState::Disconnected),
            SGState::Connected(ref state) => Ok(state),
        }
    }

    /// Checks that no session is connected, or `InvalidState::Connected`.
    pub fn ensure_disconnected(&self) -> (r: Result<(), InvalidState>)
        ensures
            r is Ok <==> self is Disconnected,
            r matches Err(e) ==> e == InvalidState::Connected,
    {
        match *self {
            SGState::Disconnected => Ok(()),
            SGState::Connected(_) => Err(InvalidState::Connected),
        }
    }
}

} // verus!
