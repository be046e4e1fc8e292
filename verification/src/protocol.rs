//! The wire protocol's logical message schema: four message kinds, a hard
//! ceiling on the encoded size of every message, and the two conditions under
//! which a packet is refused.

use vstd::prelude::*;

verus! {

/// Every encoded message must be strictly smaller than this many bytes.
pub const MAX_PACKET_SIZE: usize = 2048;

/// The four logical message kinds carried over the datagram transport.
#[derive(Debug, Clone, PartialEq, Eq)]
pub enum Packets {
    LoginReq(LoginReqPacket),
    ChatReq(ChatReqPacket),
    ChatNotify(ChatNotifyPacket),
    Ping,
}

/// Sent once by a client on startup to register a display name.
#[derive(Debug, Clone, PartialEq, Eq)]
pub struct LoginReqPacket {
    pub name: String,
}

/// Sent by a client for each outgoing chat message.
#[derive(Debug, Clone, PartialEq, Eq)]
pub struct ChatReqPacket {
    pub contents: String,
}

/// Sent by the server to every session when relaying a chat message.
#[derive(Debug, Clone, PartialEq, Eq)]
pub struct ChatNotifyPacket {
    pub name: String,
    pub contents: String,
}

/// Why a packet was refused: undecodable bytes on the way in, or an encoding
/// that would reach the size ceiling on the way out.
#[derive(Debug, Clone, Copy, PartialEq, Eq, Structural)]
pub enum ChatError {
    MalformedMessage,
    OversizedMessage,
}

/// Mathematical model of a protocol message: each string field as its
/// character sequence.
pub enum PacketModel {
    Login { name: Seq<char> },
    Chat { contents: Seq<char> },
    Notify { name: Seq<char>, contents: Seq<char> },
    Ping,
}

impl View for Packets {
    type V = PacketModel;

    open spec fn view(&self) -> PacketModel {
        match self {
            Packets::LoginReq(p) => PacketModel::Login { name: p.name@ },
            Packets::ChatReq(p) => PacketModel::Chat { contents: p.contents@ },
            Packets::ChatNotify(p) => PacketModel::Notify {
                name: p.name@,
                contents: p.contents@,
            },
            Packets::Ping => PacketModel::Ping,
        }
    }
}

} // verus!
