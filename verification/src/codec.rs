//! Wire codec: a length-prefixed binary encoding of the four message kinds.
//!
//! Layout: one tag byte, then each string field as a 4-byte little-endian
//! byte count followed by that many bytes of UTF-8. Encoding refuses any
//! message whose encoding would reach [`MAX_PACKET_SIZE`]; decoding accepts
//! exactly the well-formed encodings and refuses everything else.

use vstd::prelude::*;
use vstd::bytes::{spec_u32_from_le_bytes, spec_u32_to_le_bytes, u32_from_le_bytes, u32_to_le_bytes};
use vstd::bytes::lemma_auto_spec_u32_to_from_le_bytes;
use vstd::slice::{slice_index_get, slice_subrange, slice_to_vec};
use vstd::string::StrSliceExecFns;
use vstd::utf8::{decode_utf8, encode_utf8, valid_utf8};
use vstd::utf8::{encode_utf8_decode_utf8, encode_utf8_valid_utf8};
use crate::protocol::{ChatError, ChatNotifyPacket, ChatReqPacket, LoginReqPacket, MAX_PACKET_SIZE};
use crate::protocol::{PacketModel, Packets};

verus! {

pub const TAG_LOGIN: u8 = 1;

pub const TAG_CHAT: u8 = 2;

pub const TAG_NOTIFY: u8 = 3;

pub const TAG_PING: u8 = 4;

/// A string field on the wire: byte count, then the UTF-8 bytes.
pub open spec fn spec_encode_str(s: Seq<char>) -> Seq<u8> {
    spec_u32_to_le_bytes(encode_utf8(s).len() as u32) + encode_utf8(s)
}

/// The encoding of a whole message.
pub open spec fn spec_encode(m: PacketModel) -> Seq<u8> {
    match m {
        PacketModel::Login { name } => seq![TAG_LOGIN] + spec_encode_str(name),
        PacketModel::Chat { contents } => seq![TAG_CHAT] + spec_encode_str(contents),
        PacketModel::Notify { name, contents } => seq![TAG_NOTIFY] + spec_encode_str(name)
            + spec_encode_str(contents),
        PacketModel::Ping => seq![TAG_PING],
    }
}

/// A message is encodable when each string field's byte count fits the
/// 4-byte length prefix.
pub open spec fn encodable(m: PacketModel) -> bool {
    match m {
        PacketModel::Login { name } => encode_utf8(name).len() < 0x1_0000_0000,
        PacketModel::Chat { contents } => encode_utf8(contents).len() < 0x1_0000_0000,
        PacketModel::Notify { name, contents } => encode_utf8(name).len() < 0x1_0000_0000
            && encode_utf8(contents).len() < 0x1_0000_0000,
        PacketModel::Ping => true,
    }
}

/// Bytes consumed by the string field at the front of `b`.
pub open spec fn spec_field_len(b: Seq<u8>) -> int
    recommends
        b.len() >= 4,
{
    4 + spec_u32_from_le_bytes(b.take(4))
}

/// Whether `b` starts with a well-formed string field.
pub open spec fn spec_field_valid(b: Seq<u8>) -> bool {
    &&& b.len() >= 4
    &&& spec_field_len(b) <= b.len()
    &&& valid_utf8(b.subrange(4, spec_field_len(b)))
}

/// The characters of the string field at the front of `b`.
pub open spec fn spec_field_chars(b: Seq<u8>) -> Seq<char>
    recommends
        spec_field_valid(b),
{
    decode_utf8(b.subrange(4, spec_field_len(b)))
}

/// The message that `b` decodes to, if any: `b` must be exactly one
/// well-formed encoding, with nothing trailing.
pub open spec fn spec_decode(b: Seq<u8>) -> Option<PacketModel> {
    if b.len() == 0 {
        None
    } else {
        let rest = b.skip(1);
        if b[0] == TAG_PING {
            if b.len() == 1 {
                Some(PacketModel::Ping)
            } else {
                None
            }
        } else if b[0] == TAG_LOGIN {
            if spec_field_valid(rest) && rest.len() == spec_field_len(rest) {
                Some(PacketModel::Login { name: spec_field_chars(rest) })
            } else {
                None
            }
        } else if b[0] == TAG_CHAT {
            if spec_field_valid(rest) && rest.len() == spec_field_len(rest) {
                Some(PacketModel::Chat { contents: spec_field_chars(rest) })
            } else {
                None
            }
        } else if b[0] == TAG_NOTIFY {
            if spec_field_valid(rest) {
                let rest2 = rest.skip(spec_field_len(rest));
                if spec_field_valid(rest2) && rest2.len() == spec_field_len(rest2) {
                    Some(PacketModel::Notify {
                        name: spec_field_chars(rest),
                        contents: spec_field_chars(rest2),
                    })
                } else {
                    None
                }
            } else {
                None
            }
        } else {
            None
        }
    }
}

/// Relies on std's `String::from_utf8`: it succeeds exactly on valid UTF-8
/// input and then returns the string whose bytes are that input.
#[verifier::external_body]
fn bytes_to_string(v: Vec<u8>) -> (r: Option<String>)
    ensures
        r is Some <==> valid_utf8(v@),
        (match r {
            Some(s) => s@ == decode_utf8(v@),
            None => true,
        }),
{
    String::from_utf8(v).ok()
}

/// Append one string field (length prefix, then UTF-8 bytes) to `out`;
/// refuse a field whose byte count alone reaches the packet ceiling.
fn push_str_field(out: &mut Vec<u8>, s: &str) -> (ok: bool)
    ensures
        ok ==> {
            &&& encode_utf8(s@).len() < MAX_PACKET_SIZE
            &&& final(out)@ == old(out)@ + spec_encode_str(s@)
        },
        !ok ==> {
            &&& encode_utf8(s@).len() >= MAX_PACKET_SIZE
            &&& final(out)@ == old(out)@
        },
{
    let bytes = s.as_bytes_vec();
    if bytes.len() >= MAX_PACKET_SIZE {
        return false;
    }
    let mut len_bytes = u32_to_le_bytes(bytes.len() as u32);
    let mut bytes = bytes;
    out.append(&mut len_bytes);
    out.append(&mut bytes);
    proof {
        assert(final(out)@ =~= old(out)@ + spec_encode_str(s@));
    }
    true
}

/// Encode a message for transmission. Succeeds exactly when the encoding is
/// strictly smaller than [`MAX_PACKET_SIZE`]; an oversized message is
/// refused, never truncated.
pub fn encode(p: &Packets) -> (r: Result<Vec<u8>, ChatError>)
    ensures
        (match r {
            Ok(bytes) => {
                &&& bytes@ == spec_encode(p@)
                &&& bytes@.len() < MAX_PACKET_SIZE
            },
            Err(e) => {
                &&& e == ChatError::OversizedMessage
                &&& spec_encode(p@).len() >= MAX_PACKET_SIZE
            },
        }),
{
    let mut out: Vec<u8> = Vec::new();
    match p {
        Packets::LoginReq(l) => {
            out.push(TAG_LOGIN);
            if !push_str_field(&mut out, l.name.as_str()) {
                return Err(ChatError::OversizedMessage);
            }
            proof {
                assert(out@ =~= spec_encode(p@));
            }
        },
        Packets::ChatReq(c) => {
            out.push(TAG_CHAT);
            if !push_str_field(&mut out, c.contents.as_str()) {
                return Err(ChatError::OversizedMessage);
            }
            proof {
                assert(out@ =~= spec_encode(p@));
            }
        },
        Packets::ChatNotify(n) => {
            out.push(TAG_NOTIFY);
            if !push_str_field(&mut out, n.name.as_str()) {
                return Err(ChatError::OversizedMessage);
            }
            if !push_str_field(&mut out, n.contents.as_str()) {
                return Err(ChatError::OversizedMessage);
            }
            proof {
                assert(out@ =~= spec_encode(p@));
            }
        },
        Packets::Ping => {
            out.push(TAG_PING);
            proof {
                assert(out@ =~= spec_encode(p@));
            }
        },
    }
    if out.len() >= MAX_PACKET_SIZE {
        Err(ChatError::OversizedMessage)
    } else {
        Ok(out)
    }
}

/// Read the string field that starts at `start`, returning the string and
/// the offset just past it.
fn read_str_field(buf: &[u8], start: usize) -> (r: Option<(String, usize)>)
    requires
        start <= buf@.len(),
    ensures
        (match r {
            Some(p) => {
                &&& spec_field_valid(buf@.skip(start as int))
                &&& p.0@ == spec_field_chars(buf@.skip(start as int))
                &&& p.1 == start + spec_field_len(buf@.skip(start as int))
                &&& start + 4 <= p.1 <= buf@.len()
            },
            None => !spec_field_valid(buf@.skip(start as int)),
        }),
{
    let ghost tail = buf@.skip(start as int);
    if buf.len() - start < 4 {
        return None;
    }
    let len_slice = slice_subrange(buf, start, start + 4);
    proof {
        assert(len_slice@ =~= tail.take(4));
    }
    let n32 = u32_from_le_bytes(len_slice);
    let n = n32 as usize;
    if n > buf.len() - start - 4 {
        return None;
    }
    let payload = slice_to_vec(slice_subrange(buf, start + 4, start + 4 + n));
    proof {
        assert(payload@ =~= tail.subrange(4, spec_field_len(tail)));
    }
    match bytes_to_string(payload) {
        Some(s) => Some((s, start + 4 + n)),
        None => None,
    }
}

/// Decode one datagram. Succeeds exactly on the well-formed encodings;
/// anything else is refused as malformed and never reaches the registry.
pub fn decode(buf: &[u8]) -> (r: Result<Packets, ChatError>)
    ensures
        (match r {
            Ok(p) => spec_decode(buf@) == Some(p@),
            Err(e) => {
                &&& e == ChatError::MalformedMessage
                &&& spec_decode(buf@) is None
            },
        }),
{
    if buf.len() == 0 {
        return Err(ChatError::MalformedMessage);
    }
    let tag = *slice_index_get(buf, 0);
    if tag == TAG_PING {
        if buf.len() == 1 {
            Ok(Packets::Ping)
        } else {
            Err(ChatError::MalformedMessage)
        }
    } else if tag == TAG_LOGIN {
        match read_str_field(buf, 1) {
            Some((name, end)) => {
                if end == buf.len() {
                    Ok(Packets::LoginReq(LoginReqPacket { name }))
                } else {
                    Err(ChatError::MalformedMessage)
                }
            },
            None => Err(ChatError::MalformedMessage),
        }
    } else if tag == TAG_CHAT {
        match read_str_field(buf, 1) {
            Some((contents, end)) => {
                if end == buf.len() {
                    Ok(Packets::ChatReq(ChatReqPacket { contents }))
                } else {
                    Err(ChatError::MalformedMessage)
                }
            },
            None => Err(ChatError::MalformedMessage),
        }
    } else if tag == TAG_NOTIFY {
        match read_str_field(buf, 1) {
            Some((name, end)) => {
                proof {
                    assert(buf@.skip(1).skip(spec_field_len(buf@.skip(1))) =~= buf@.skip(
                        end as int,
                    ));
                }
                match read_str_field(buf, end) {
                    Some((contents, end2)) => {
                        if end2 == buf.len() {
                            Ok(Packets::ChatNotify(ChatNotifyPacket { name, contents }))
                        } else {
                            Err(ChatError::MalformedMessage)
                        }
                    },
                    None => Err(ChatError::MalformedMessage),
                }
            },
            None => Err(ChatError::MalformedMessage),
        }
    } else {
        Err(ChatError::MalformedMessage)
    }
}

/// Law: decoding the encoding of any encodable message yields that message
/// back, every string field preserved exactly.
pub proof fn lemma_round_trip(m: PacketModel)
    requires
        encodable(m),
    ensures
        spec_decode(spec_encode(m)) == Some(m),
{
    lemma_auto_spec_u32_to_from_le_bytes();
    broadcast use encode_utf8_valid_utf8;
    broadcast use encode_utf8_decode_utf8;

    match m {
        PacketModel::Login { name } => {
            lemma_field_round_trip(name);
            let b = spec_encode(m);
            assert(b[0] == TAG_LOGIN);
            assert(b.skip(1) =~= spec_encode_str(name));
        },
        PacketModel::Chat { contents } => {
            lemma_field_round_trip(contents);
            let b = spec_encode(m);
            assert(b[0] == TAG_CHAT);
            assert(b.skip(1) =~= spec_encode_str(contents));
        },
        PacketModel::Notify { name, contents } => {
            lemma_field_round_trip(name);
            lemma_field_round_trip(contents);
            let b = spec_encode(m);
            assert(b[0] == TAG_NOTIFY);
            let rest = b.skip(1);
            assert(rest.take(4) =~= spec_u32_to_le_bytes(encode_utf8(name).len() as u32));
            assert(spec_field_len(rest) == 4 + encode_utf8(name).len());
            assert(rest.subrange(4, spec_field_len(rest)) =~= encode_utf8(name));
            assert(spec_field_valid(rest));
            assert(spec_field_chars(rest) == name);
            assert(rest.skip(spec_field_len(rest)) =~= spec_encode_str(contents));
        },
        PacketModel::Ping => {
            let b = spec_encode(m);
            assert(b[0] == TAG_PING);
        },
    }
}

/// A single string field, standing alone, parses back to its characters.
proof fn lemma_field_round_trip(s: Seq<char>)
    requires
        encode_utf8(s).len() < 0x1_0000_0000,
    ensures
        spec_field_valid(spec_encode_str(s)),
        spec_field_len(spec_encode_str(s)) == spec_encode_str(s).len(),
        spec_field_chars(spec_encode_str(s)) == s,
{
    lemma_auto_spec_u32_to_from_le_bytes();
    broadcast use encode_utf8_valid_utf8;
    broadcast use encode_utf8_decode_utf8;

    let b = spec_encode_str(s);
    assert(b.take(4) =~= spec_u32_to_le_bytes(encode_utf8(s).len() as u32));
    assert(spec_u32_from_le_bytes(b.take(4)) == encode_utf8(s).len());
    assert(b.subrange(4, spec_field_len(b)) =~= encode_utf8(s));
}

} // verus!
