//! Segment framing: the fixed header, the four commands, and the byte layout of
//! a segment on the wire.
//!
//! A segment is a 28-byte header followed, for a data segment only, by its
//! payload. Every integer of the header is stored little-endian.
use crate::wire::{bytes16, bytes32, le16, le32, lemma_le16_of_bytes16, lemma_le32_of_bytes32};
use vstd::prelude::*;

verus! {

/// Number of bytes in a segment header.
pub const MSG_OVERHEAD: usize = 28;

/// Largest payload, in bytes, that a segment may declare.
pub const MSS_MAX: u32 = 1500;

/// Command code of an acknowledgment.
pub const CMD_ACK: u8 = 1;

/// Command code of a data segment.
pub const CMD_PSH: u8 = 2;

/// Command code of a window probe.
pub const CMD_WASK: u8 = 3;

/// Command code of a window announcement.
pub const CMD_WINS: u8 = 4;

/// What a segment asks of its receiver.
#[derive(Debug, PartialEq, Eq, Clone, Copy, Structural)]
pub enum MessageCmd {
    /// Acknowledges one data segment.
    Ack,
    /// Carries application data.
    Psh,
    /// Asks the peer for its receive window.
    Wask,
    /// Announces the sender's receive window.
    Wins,
    /// Any code that is not one of the four commands.
    Inv,
}

impl MessageCmd {
    /// The command that a code on the wire stands for.
    pub open spec fn of(item: u8) -> MessageCmd {
        if item == CMD_ACK {
            MessageCmd::Ack
        } else if item == CMD_PSH {
            MessageCmd::Psh
        } else if item == CMD_WASK {
            MessageCmd::Wask
        } else if item == CMD_WINS {
            MessageCmd::Wins
        } else {
            MessageCmd::Inv
        }
    }
}

impl From<u8> for MessageCmd {
    fn from(item: u8) -> (r: Self) {
        match item {
            1 => Self::Ack,
            2 => Self::Psh,
            3 => Self::Wask,
            4 => Self::Wins,
            _ => Self::Inv,
        }
    }
}

impl vstd::std_specs::convert::FromSpecImpl<u8> for MessageCmd {
    open spec fn obeys_from_spec() -> bool {
        true
    }

    open spec fn from_spec(item: u8) -> Self {
        MessageCmd::of(item)
    }
}

/// The fixed part of every segment.
#[derive(Debug, PartialEq, Eq, Clone, Copy, Structural)]
pub struct Header {
    /// Connection identifier.
    pub conv: u32,
    /// Command code.
    pub cmd: u8,
    /// Fragment countdown: 0 on the last segment of a message.
    pub frg: u8,
    /// Receive window that the sender advertises, in segments.
    pub wnd: u16,
    /// Sender's clock when the segment was sent.
    pub ts: u32,
    /// Sequence number.
    pub sn: u32,
    /// Every sequence number below this one has been received by the sender.
    pub una: u32,
    /// Payload length in bytes.
    pub len: u32,
    /// Reserved word that closes the header.
    pub opt: u32,
}

impl Header {
    /// The command is one of the four, the payload length is within bounds, and
    /// only a data segment declares a payload.
    pub open spec fn valid(self) -> bool {
        &&& MessageCmd::of(self.cmd) != MessageCmd::Inv
        &&& self.len <= MSS_MAX
        &&& (self.cmd != CMD_PSH ==> self.len == 0)
    }

    /// Tells whether the header can open a segment.
    pub fn is_valid(&self) -> (r: bool)
        ensures
            r == self.valid(),
    {
        if let MessageCmd::Inv = MessageCmd::from(self.cmd) {
            return false;
        }
        if self.len > MSS_MAX {
            return false;
        }
        self.cmd == CMD_PSH || self.len == 0
    }
}

/// The 28 bytes that stand for a header on the wire.
pub open spec fn header_bytes(h: Header) -> Seq<u8> {
    bytes32(h.conv) + seq![h.cmd, h.frg] + bytes16(h.wnd) + bytes32(h.ts) + bytes32(h.sn)
        + bytes32(h.una) + bytes32(h.len) + bytes32(h.opt)
}

/// The header that the first 28 bytes of `b` stand for.
pub open spec fn header_at(b: Seq<u8>) -> Header
    recommends
        b.len() >= MSG_OVERHEAD,
{
    Header {
        conv: le32(b, 0) as u32,
        cmd: b[4],
        frg: b[5],
        wnd: le16(b, 6) as u16,
        ts: le32(b, 8) as u32,
        sn: le32(b, 12) as u32,
        una: le32(b, 16) as u32,
        len: le32(b, 20) as u32,
        opt: le32(b, 24) as u32,
    }
}

/// A segment as a mathematical value: its header and its payload.
pub struct Segment {
    pub header: Header,
    pub data: Seq<u8>,
}

impl Segment {
    /// The header is valid and declares exactly the payload that is present.
    pub open spec fn valid(self) -> bool {
        &&& self.header.valid()
        &&& self.data.len() == self.header.len
    }

    /// The segment on the wire.
    pub open spec fn bytes(self) -> Seq<u8> {
        header_bytes(self.header) + self.data
    }
}

/// A decoded segment, by command.
#[derive(Debug, PartialEq, Eq)]
pub enum Message {
    /// An acknowledgment.
    Ack(Header),
    /// A data segment with its payload.
    Psh(Header, Vec<u8>),
    /// A request for the peer's window.
    Wack(Header),
    /// An announcement of the sender's window.
    Wins(Header),
}

impl View for Message {
    type V = Segment;

    open spec fn view(&self) -> Segment {
        match self {
            Message::Ack(h) => Segment { header: *h, data: Seq::empty() },
            Message::Psh(h, d) => Segment { header: *h, data: d@ },
            Message::Wack(h) => Segment { header: *h, data: Seq::empty() },
            Message::Wins(h) => Segment { header: *h, data: Seq::empty() },
        }
    }
}

/// Why a byte string is not a segment.
#[derive(Debug, PartialEq, Eq, Clone, Copy, Structural)]
pub enum ParseError {
    /// Fewer bytes than a header.
    NotAvailable,
    /// The header contradicts itself or the bytes that follow it.
    InvalidHeader,
    /// The header is sound but its command is none of the four.
    InvalidCmd,
}

/// Length of the segment that opens `b`, or 0 where `b` opens with none: it is
/// shorter than a header, declares too long a payload, or ends before the
/// declared payload does.
pub open spec fn frame_len(b: Seq<u8>) -> nat {
    if b.len() < MSG_OVERHEAD {
        0
    } else if header_at(b).len > MSS_MAX {
        0
    } else if b.len() < MSG_OVERHEAD + header_at(b).len {
        0
    } else {
        (MSG_OVERHEAD + header_at(b).len) as nat
    }
}

/// The segment that opens `b`, or the reason why there is none.
pub open spec fn decode(b: Seq<u8>) -> Result<Segment, ParseError> {
    if b.len() < MSG_OVERHEAD {
        Err(ParseError::NotAvailable)
    } else {
        let h = header_at(b);
        if h.len > MSS_MAX || b.len() < MSG_OVERHEAD + h.len {
            Err(ParseError::InvalidHeader)
        } else if MessageCmd::of(h.cmd) == MessageCmd::Inv {
            Err(ParseError::InvalidCmd)
        } else if h.cmd != CMD_PSH && h.len != 0 {
            Err(ParseError::InvalidHeader)
        } else {
            Ok(
                Segment {
                    header: h,
                    data: b.subrange(MSG_OVERHEAD as int, MSG_OVERHEAD + h.len),
                },
            )
        }
    }
}

/// The bytes of several segments, one after the other.
pub open spec fn stream(segs: Seq<Segment>) -> Seq<u8>
    decreases segs.len(),
{
    if segs.len() == 0 {
        Seq::empty()
    } else {
        segs[0].bytes() + stream(segs.skip(1))
    }
}

/// The segments that reading `b` front to back yields: a segment with an
/// unknown command is stepped over, and reading stops at the first place that
/// opens with no complete segment or with an inconsistent header.
pub open spec fn segments_in(b: Seq<u8>) -> Seq<Segment>
    decreases b.len(),
{
    let n = frame_len(b);
    if n == 0 {
        Seq::empty()
    } else {
        match decode(b) {
            Ok(s) => seq![s] + segments_in(b.skip(n as int)),
            Err(ParseError::InvalidCmd) => segments_in(b.skip(n as int)),
            Err(_) => Seq::empty(),
        }
    }
}

/// A header takes 28 bytes, and reading them back gives the header, whatever
/// follows them.
pub proof fn lemma_header_at_bytes(h: Header, rest: Seq<u8>)
    ensures
        header_bytes(h).len() == MSG_OVERHEAD,
        header_at(header_bytes(h) + rest) == h,
{
    let b = header_bytes(h) + rest;
    assert(header_bytes(h).len() == 28);
    assert(b.subrange(0, 4) =~= bytes32(h.conv));
    assert(b.subrange(6, 8) =~= bytes16(h.wnd));
    assert(b.subrange(8, 12) =~= bytes32(h.ts));
    assert(b.subrange(12, 16) =~= bytes32(h.sn));
    assert(b.subrange(16, 20) =~= bytes32(h.una));
    assert(b.subrange(20, 24) =~= bytes32(h.len));
    assert(b.subrange(24, 28) =~= bytes32(h.opt));
    lemma_le32_of_bytes32(b, 0, h.conv);
    lemma_le16_of_bytes16(b, 6, h.wnd);
    lemma_le32_of_bytes32(b, 8, h.ts);
    lemma_le32_of_bytes32(b, 12, h.sn);
    lemma_le32_of_bytes32(b, 16, h.una);
    lemma_le32_of_bytes32(b, 20, h.len);
    lemma_le32_of_bytes32(b, 24, h.opt);
    assert(b[4] == h.cmd);
    assert(b[5] == h.frg);
}

/// Round trip: the bytes of a valid segment decode to that segment, and frame
/// as exactly those bytes, whatever follows them.
pub proof fn lemma_round_trip(s: Segment, rest: Seq<u8>)
    requires
        s.valid(),
    ensures
        s.bytes().len() == MSG_OVERHEAD + s.data.len(),
        frame_len(s.bytes() + rest) == s.bytes().len(),
        decode(s.bytes() + rest) == Ok::<Segment, ParseError>(s),
        (s.bytes() + rest).skip(s.bytes().len() as int) == rest,
{
    let b = s.bytes() + rest;
    lemma_header_at_bytes(s.header, s.data + rest);
    assert(b =~= header_bytes(s.header) + (s.data + rest));
    assert(b.subrange(MSG_OVERHEAD as int, MSG_OVERHEAD + s.header.len) =~= s.data);
    assert(b.skip(s.bytes().len() as int) =~= rest);
}

/// Framing: reading the bytes of any sequence of valid segments, written one
/// after the other, yields exactly that sequence, in order.
pub proof fn lemma_stream_recovered(segs: Seq<Segment>)
    requires
        forall|i: int| 0 <= i < segs.len() ==> (#[trigger] segs[i]).valid(),
    ensures
        segments_in(stream(segs)) == segs,
    decreases segs.len(),
{
    if segs.len() == 0 {
        assert(segments_in(stream(segs)) =~= segs);
    } else {
        let rest = segs.skip(1);
        assert forall|i: int| 0 <= i < rest.len() implies (#[trigger] rest[i]).valid() by {
            assert(rest[i] == segs[i + 1]);
        }
        lemma_stream_recovered(rest);
        lemma_round_trip(segs[0], stream(rest));
        assert(segments_in(stream(segs)) =~= seq![segs[0]] + rest);
        assert(seq![segs[0]] + rest =~= segs);
    }
}

/// Calls `bincode::deserialize` for the nine header fields, as a tuple of
/// fixed-width integers, and names them.
///
/// Trusted: bincode reads such a tuple field by field, each integer in its
/// full width and little-endian, fails when the input ends early and ignores
/// what follows the last field.
#[verifier::external_body]
fn read_header(buf: &[u8]) -> (r: Option<Header>)
    ensures
        r is Some <==> buf@.len() >= MSG_OVERHEAD,
        r is Some ==> r->0 == header_at(buf@),
{
    let fields: Option<(u32, u8, u8, u16, u32, u32, u32, u32, u32)> = bincode::deserialize(buf).ok();
    match fields {
        Some((conv, cmd, frg, wnd, ts, sn, una, len, opt)) => Some(
            Header { conv, cmd, frg, wnd, ts, sn, una, len, opt },
        ),
        None => None,
    }
}

/// Calls `bincode::serialize` on the nine header fields, as a tuple of
/// fixed-width integers.
///
/// Trusted: bincode writes such a tuple field by field, each integer in its
/// full width and little-endian, and nothing else; writing integers into a
/// vector does not fail.
#[verifier::external_body]
fn write_header(h: &Header) -> (r: Vec<u8>)
    ensures
        r@ == header_bytes(*h),
{
    let fields = (h.conv, h.cmd, h.frg, h.wnd, h.ts, h.sn, h.una, h.len, h.opt);
    bincode::serialize(&fields).unwrap_or_default()
}

impl Message {
    /// The command that the variant stands for.
    pub open spec fn kind(&self) -> MessageCmd {
        match self {
            Message::Ack(_) => MessageCmd::Ack,
            Message::Psh(_, _) => MessageCmd::Psh,
            Message::Wack(_) => MessageCmd::Wask,
            Message::Wins(_) => MessageCmd::Wins,
        }
    }

    /// The segment is valid and the variant is the one its command names.
    pub open spec fn valid(&self) -> bool {
        &&& self@.valid()
        &&& self.kind() == MessageCmd::of(self@.header.cmd)
    }

    /// Length of the complete segment at the start of `buf`, or 0 where there
    /// is none yet or the declared payload is too long.
    pub fn check(buf: &[u8]) -> (r: usize)
        ensures
            r == frame_len(buf@),
    {
        match read_header(buf) {
            None => 0,
            Some(header) => {
                if header.len > MSS_MAX {
                    return 0;
                }
                let total: usize = MSG_OVERHEAD + header.len as usize;
                if buf.len() < total {
                    0
                } else {
                    total
                }
            },
        }
    }

    /// Decodes the segment at the start of `buf`.
    pub fn parse(buf: &[u8]) -> (r: Result<Message, ParseError>)
        ensures
            match r {
                Ok(m) => m.valid() && decode(buf@) == Ok::<Segment, ParseError>(m@),
                Err(e) => decode(buf@) == Err::<Segment, ParseError>(e),
            },
    {
        let header = match read_header(buf) {
            None => {
                return Err(ParseError::NotAvailable);
            },
            Some(header) => header,
        };
        if header.len > MSS_MAX {
            return Err(ParseError::InvalidHeader);
        }
        let end: usize = MSG_OVERHEAD + header.len as usize;
        if buf.len() < end {
            return Err(ParseError::InvalidHeader);
        }
        match MessageCmd::from(header.cmd) {
            MessageCmd::Inv => Err(ParseError::InvalidCmd),
            MessageCmd::Psh => {
                let data = vstd::slice::slice_to_vec(
                    vstd::slice::slice_subrange(buf, MSG_OVERHEAD, end),
                );
                Ok(Message::Psh(header, data))
            },
            kind => {
                if header.len != 0 {
                    return Err(ParseError::InvalidHeader);
                }
                assert(buf@.subrange(MSG_OVERHEAD as int, MSG_OVERHEAD + 0) =~= Seq::<u8>::empty());
                match kind {
                    MessageCmd::Ack => Ok(Message::Ack(header)),
                    MessageCmd::Wask => Ok(Message::Wack(header)),
                    _ => Ok(Message::Wins(header)),
                }
            },
        }
    }

    /// The segment on the wire: the header, then the payload of a data segment.
    pub fn encode(&self) -> (r: Vec<u8>)
        ensures
            r@ == self@.bytes(),
    {
        match self {
            Message::Psh(header, data) => frame(header, data.as_slice()),
            Message::Ack(header) => {
                let out = write_header(header);
                assert(out@ =~= header_bytes(*header) + Seq::<u8>::empty());
                out
            },
            Message::Wack(header) => {
                let out = write_header(header);
                assert(out@ =~= header_bytes(*header) + Seq::<u8>::empty());
                out
            },
            Message::Wins(header) => {
                let out = write_header(header);
                assert(out@ =~= header_bytes(*header) + Seq::<u8>::empty());
                out
            },
        }
    }
}

/// Appends `more` to `out`.
pub(crate) fn append_bytes(out: &mut Vec<u8>, more: &[u8])
    ensures
        final(out)@ == old(out)@ + more@,
{
    out.extend_from_slice(more);
    assert(out@ =~= old(out)@ + more@);
}

/// The bytes of a header followed by a payload.
pub(crate) fn frame(header: &Header, payload: &[u8]) -> (r: Vec<u8>)
    ensures
        r@ == header_bytes(*header) + payload@,
{
    let mut out = write_header(header);
    append_bytes(&mut out, payload);
    out
}

} // verus!
