//! What the session tells a peer's connection to do.

use vstd::prelude::*;

use crate::peer::message::Message;

verus! {

/// An order for a peer's connection.
#[derive(Debug)]
pub enum PeerCommand {
    /// Send this message.
    SendMessage(Message),
    /// Close the connection.
    Disconnect,
}

} // verus!
