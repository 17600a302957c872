//! The peer wire grammar: a handshake check and the length-delimited
//! messages of the protocol. A frame's body (the bytes after the four-byte
//! length prefix) is parsed here; any malformed body is a protocol
//! violation, which always closes the connection.
use vstd::prelude::*;
use crate::entities::ViolationReason;

verus! {

/// A parsed peer wire message.
#[derive(PartialEq, Eq, Debug)]
pub enum Message {
    KeepAlive,
    Choke,
    Unchoke,
    Interested,
    NotInterested,
    Have { piece: u32 },
    Bitfield { bytes: Vec<u8> },
    Request { piece: u32, offset: u32, length: u32 },
    Piece { piece: u32, offset: u32, data: Vec<u8> },
    Cancel { piece: u32, offset: u32, length: u32 },
}

/// The mathematical shape of a message: integers and byte sequences.
pub enum MessageModel {
    KeepAlive,
    Choke,
    Unchoke,
    Interested,
    NotInterested,
    Have { piece: int },
    Bitfield { bytes: Seq<u8> },
    Request { piece: int, offset: int, length: int },
    Piece { piece: int, offset: int, data: Seq<u8> },
    Cancel { piece: int, offset: int, length: int },
}

impl View for Message {
    type V = MessageModel;

    open spec fn view(&self) -> MessageModel {
        match self {
            Message::KeepAlive => MessageModel::KeepAlive,
            Message::Choke => MessageModel::Choke,
            Message::Unchoke => MessageModel::Unchoke,
            Message::Interested => MessageModel::Interested,
            Message::NotInterested => MessageModel::NotInterested,
            Message::Have { piece } => MessageModel::Have { piece: *piece as int },
            Message::Bitfield { bytes } => MessageModel::Bitfield { bytes: bytes@ },
            Message::Request { piece, offset, length } => MessageModel::Request {
                piece: *piece as int,
                offset: *offset as int,
                length: *length as int,
            },
            Message::Piece { piece, offset, data } => MessageModel::Piece {
                piece: *piece as int,
                offset: *offset as int,
                data: data@,
            },
            Message::Cancel { piece, offset, length } => MessageModel::Cancel {
                piece: *piece as int,
                offset: *offset as int,
                length: *length as int,
            },
        }
    }
}

/// The big-endian 32-bit integer spelled by `bytes[i..i+4]`.
pub open spec fn be32_at(bytes: Seq<u8>, i: int) -> int {
    (bytes[i] as int) * 0x1000000 + (bytes[i + 1] as int) * 0x10000 + (bytes[i + 2] as int) * 0x100
        + (bytes[i + 3] as int)
}

/// What a message body parses to, by the wire grammar: an empty body is a
/// keep-alive; otherwise the first byte is the message identifier and the
/// rest is its payload, whose length must match exactly.
pub open spec fn spec_parse(bytes: Seq<u8>) -> Result<MessageModel, ViolationReason> {
    if bytes.len() == 0 {
        Ok(MessageModel::KeepAlive)
    } else {
        let id = bytes[0];
        if id == 0 {
            if bytes.len() == 1 {
                Ok(MessageModel::Choke)
            } else {
                Err(ViolationReason::PayloadLengthMismatch)
            }
        } else if id == 1 {
            if bytes.len() == 1 {
                Ok(MessageModel::Unchoke)
            } else {
                Err(ViolationReason::PayloadLengthMismatch)
            }
        } else if id == 2 {
            if bytes.len() == 1 {
                Ok(MessageModel::Interested)
            } else {
                Err(ViolationReason::PayloadLengthMismatch)
            }
        } else if id == 3 {
            if bytes.len() == 1 {
                Ok(MessageModel::NotInterested)
            } else {
                Err(ViolationReason::PayloadLengthMismatch)
            }
        } else if id == 4 {
            if bytes.len() == 5 {
                Ok(MessageModel::Have { piece: be32_at(bytes, 1) })
            } else {
                Err(ViolationReason::PayloadLengthMismatch)
            }
        } else if id == 5 {
            Ok(MessageModel::Bitfield { bytes: bytes.subrange(1, bytes.len() as int) })
        } else if id == 6 {
            if bytes.len() == 13 {
                Ok(MessageModel::Request {
                    piece: be32_at(bytes, 1),
                    offset: be32_at(bytes, 5),
                    length: be32_at(bytes, 9),
                })
            } else {
                Err(ViolationReason::PayloadLengthMismatch)
            }
        } else if id == 7 {
            if bytes.len() >= 9 {
                Ok(MessageModel::Piece {
                    piece: be32_at(bytes, 1),
                    offset: be32_at(bytes, 5),
                    data: bytes.subrange(9, bytes.len() as int),
                })
            } else {
                Err(ViolationReason::PayloadLengthMismatch)
            }
        } else if id == 8 {
            if bytes.len() == 13 {
                Ok(MessageModel::Cancel {
                    piece: be32_at(bytes, 1),
                    offset: be32_at(bytes, 5),
                    length: be32_at(bytes, 9),
                })
            } else {
                Err(ViolationReason::PayloadLengthMismatch)
            }
        } else {
            Err(ViolationReason::UnknownMessageId)
        }
    }
}

/// A parse result, seen mathematically.
pub open spec fn parse_view(r: Result<Message, ViolationReason>) -> Result<
    MessageModel,
    ViolationReason,
> {
    match r {
        Ok(m) => Ok(m@),
        Err(e) => Err(e),
    }
}

fn read_be32(bytes: &Vec<u8>, i: usize) -> (r: u32)
    requires
        i + 4 <= bytes@.len(),
    ensures
        r as int == be32_at(bytes@, i as int),
{
    // binding the length tells the verifier the indices fit in usize
    let n = bytes.len();
    (bytes[i] as u32) * 0x1000000 + (bytes[i + 1] as u32) * 0x10000 + (bytes[i + 2] as u32) * 0x100
        + (bytes[i + 3] as u32)
}

fn copy_tail(bytes: &Vec<u8>, from: usize) -> (r: Vec<u8>)
    requires
        from <= bytes@.len(),
    ensures
        r@ == bytes@.subrange(from as int, bytes@.len() as int),
{
    let n = bytes.len();
    let mut out: Vec<u8> = Vec::new();
    let mut i: usize = from;
    while i < n
        invariant
            from <= i <= n,
            n == bytes@.len(),
            out@.len() == i - from,
            forall|j: int| 0 <= j < out@.len() ==> out@[j] == bytes@[from + j],
        decreases n - i,
    {
        out.push(bytes[i]);
        i = i + 1;
    }
    proof {
        assert(out@ =~= bytes@.subrange(from as int, bytes@.len() as int));
    }
    out
}

/// Parse one frame body into a message, exactly as the wire grammar says;
/// a body the grammar refuses comes back as the violation that closes the
/// connection.
pub fn parse_message(body: &Vec<u8>) -> (r: Result<Message, ViolationReason>)
    ensures
        parse_view(r) == spec_parse(body@),
{
    let n = body.len();
    if n == 0 {
        return Ok(Message::KeepAlive);
    }
    let id = body[0];
    if id == 0 {
        if n == 1 {
            Ok(Message::Choke)
        } else {
            Err(ViolationReason::PayloadLengthMismatch)
        }
    } else if id == 1 {
        if n == 1 {
            Ok(Message::Unchoke)
        } else {
            Err(ViolationReason::PayloadLengthMismatch)
        }
    } else if id == 2 {
        if n == 1 {
            Ok(Message::Interested)
        } else {
            Err(ViolationReason::PayloadLengthMismatch)
        }
    } else if id == 3 {
        if n == 1 {
            Ok(Message::NotInterested)
        } else {
            Err(ViolationReason::PayloadLengthMismatch)
        }
    } else if id == 4 {
        if n == 5 {
            Ok(Message::Have { piece: read_be32(body, 1) })
        } else {
            Err(ViolationReason::PayloadLengthMismatch)
        }
    } else if id == 5 {
        Ok(Message::Bitfield { bytes: copy_tail(body, 1) })
    } else if id == 6 {
        if n == 13 {
            Ok(Message::Request {
                piece: read_be32(body, 1),
                offset: read_be32(body, 5),
                length: read_be32(body, 9),
            })
        } else {
            Err(ViolationReason::PayloadLengthMismatch)
        }
    } else if id == 7 {
        if n >= 9 {
            Ok(Message::Piece {
                piece: read_be32(body, 1),
                offset: read_be32(body, 5),
                data: copy_tail(body, 9),
            })
        } else {
            Err(ViolationReason::PayloadLengthMismatch)
        }
    } else if id == 8 {
        if n == 13 {
            Ok(Message::Cancel {
                piece: read_be32(body, 1),
                offset: read_be32(body, 5),
                length: read_be32(body, 9),
            })
        } else {
            Err(ViolationReason::PayloadLengthMismatch)
        }
    } else {
        Err(ViolationReason::UnknownMessageId)
    }
}

fn push_be32(out: &mut Vec<u8>, x: u32)
    ensures
        final(out)@.len() == old(out)@.len() + 4,
        forall|j: int| 0 <= j < old(out)@.len() ==> final(out)@[j] == old(out)@[j],
        be32_at(final(out)@, old(out)@.len() as int) == x as int,
{
    let b0 = (x / 0x1000000) as u8;
    let b1 = ((x / 0x10000) % 0x100) as u8;
    let b2 = ((x / 0x100) % 0x100) as u8;
    let b3 = (x % 0x100) as u8;
    out.push(b0);
    out.push(b1);
    out.push(b2);
    out.push(b3);
    proof {
        lemma_be32_digits(x as int);
    }
}

/// A 32-bit value is the weighted sum of its four big-endian digits.
proof fn lemma_be32_digits(x: int) by (nonlinear_arith)
    requires
        0 <= x < 0x100000000,
    ensures
        (x / 0x1000000) * 0x1000000 + ((x / 0x10000) % 0x100) * 0x10000 + ((x / 0x100) % 0x100)
            * 0x100 + x % 0x100 == x,
        0 <= x / 0x1000000 < 0x100,
{
}

fn push_all(out: &mut Vec<u8>, bytes: &Vec<u8>)
    ensures
        final(out)@ == old(out)@ + bytes@,
{
    let n = bytes.len();
    let mut i: usize = 0;
    while i < n
        invariant
            i <= n,
            n == bytes@.len(),
            out@ == old(out)@ + bytes@.subrange(0, i as int),
        decreases n - i,
    {
        out.push(bytes[i]);
        proof {
            assert(out@ =~= old(out)@ + bytes@.subrange(0, i + 1));
        }
        i = i + 1;
    }
    proof {
        assert(out@ =~= old(out)@ + bytes@);
    }
}

/// Encode a message as one frame body, the exact inverse of the wire
/// grammar: parsing the encoding yields the message back (round trip).
pub fn encode_message(m: &Message) -> (r: Vec<u8>)
    ensures
        spec_parse(r@) == Ok::<MessageModel, ViolationReason>(m@),
{
    let mut out: Vec<u8> = Vec::new();
    match m {
        Message::KeepAlive => {},
        Message::Choke => {
            out.push(0);
        },
        Message::Unchoke => {
            out.push(1);
        },
        Message::Interested => {
            out.push(2);
        },
        Message::NotInterested => {
            out.push(3);
        },
        Message::Have { piece } => {
            out.push(4);
            push_be32(&mut out, *piece);
        },
        Message::Bitfield { bytes } => {
            out.push(5);
            push_all(&mut out, bytes);
            proof {
                assert(out@.subrange(1, out@.len() as int) =~= bytes@);
            }
        },
        Message::Request { piece, offset, length } => {
            out.push(6);
            push_be32(&mut out, *piece);
            push_be32(&mut out, *offset);
            push_be32(&mut out, *length);
        },
        Message::Piece { piece, offset, data } => {
            out.push(7);
            push_be32(&mut out, *piece);
            push_be32(&mut out, *offset);
            push_all(&mut out, data);
            proof {
                assert(out@.subrange(9, out@.len() as int) =~= data@);
            }
        },
        Message::Cancel { piece, offset, length } => {
            out.push(8);
            push_be32(&mut out, *piece);
            push_be32(&mut out, *offset);
            push_be32(&mut out, *length);
        },
    }
    out
}

/// Whether two byte strings are the same.
fn bytes_equal(a: &Vec<u8>, b: &Vec<u8>) -> (r: bool)
    ensures
        r == (a@ == b@),
{
    if a.len() != b.len() {
        return false;
    }
    let n = a.len();
    let mut i: usize = 0;
    while i < n
        invariant
            i <= n,
            n == a@.len(),
            n == b@.len(),
            forall|j: int| 0 <= j < i ==> a@[j] == b@[j],
        decreases n - i,
    {
        if a[i] != b[i] {
            return false;
        }
        i = i + 1;
    }
    proof {
        assert(a@ =~= b@);
    }
    true
}

/// Validate the identifying fields of a received handshake: the protocol
/// identifier must be the expected one and the info-hash must match the
/// torrent's. A mismatch fails the handshake and closes the connection.
pub fn handshake_ok(
    received_protocol: &Vec<u8>,
    expected_protocol: &Vec<u8>,
    received_info_hash: &Vec<u8>,
    expected_info_hash: &Vec<u8>,
) -> (r: bool)
    ensures
        r == (received_protocol@ == expected_protocol@ && received_info_hash@
            == expected_info_hash@),
{
    let proto = bytes_equal(received_protocol, expected_protocol);
    let hash = bytes_equal(received_info_hash, expected_info_hash);
    proto && hash
}

} // verus!
