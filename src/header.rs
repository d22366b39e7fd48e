//! The fixed 12-byte message header and its packed control word.
use vstd::prelude::*;
use crate::wire::{Bincode, be16, put_u16, decoded, read16, viewed, DecodeError, Parsed};

verus! {

/// Direction of a message.
#[derive(Clone, Copy, Debug, PartialEq, Eq, Structural)]
pub enum Side {
    Query,
    Response,
}

pub const NULL_MASK: u16 = 0x0000;
pub const QR_MASK: u16 = 0x8000;
pub const OP_MASK: u16 = 0x7800;
pub const AUTH_MASK: u16 = 0x0400;
pub const TRUNC_MASK: u16 = 0x0200;
pub const RD_MASK: u16 = 0x0100;
pub const RA_MASK: u16 = 0x0080;
pub const Z_MASK: u16 = 0x0070;
pub const RCODE_MASK: u16 = 0x000F;

/// The packed control word: direction, operation code, flags and result code.
///
/// Its bits are read and written only through the accessors of [`Header`].
#[derive(Clone, Copy, Debug, PartialEq, Eq, Structural)]
pub struct Control(u16);

impl Control {
    /// The word as an integer.
    pub closed spec fn word(self) -> u16 {
        self.0
    }

    pub closed spec fn from_word(w: u16) -> Control {
        Control(w)
    }

    pub broadcast proof fn lemma_from_word(w: u16)
        ensures
            #[trigger] Control::from_word(w).word() == w,
    {
    }

    /// Two control words with the same bits are equal.
    pub broadcast proof fn lemma_ext(a: Control, b: Control)
        requires
            #[trigger] a.word() == #[trigger] b.word(),
        ensures
            a == b,
    {
    }
}

/// Identifier, packed control word and the four section counts.
#[derive(Clone, Copy, Debug, PartialEq, Eq, Structural)]
pub struct Header {
    pub id: u16,
    pub block: Control,
    pub qd_count: u16,
    pub an_count: u16,
    pub ns_count: u16,
    pub ar_count: u16,
}

impl View for Header {
    type V = Header;

    open spec fn view(&self) -> Header {
        *self
    }
}

impl Default for Header {
    /// A query with identifier 0, all flags clear and all counts 0.
    fn default() -> (r: Header)
        ensures
            r.id == 0,
            r.control() == 0,
            r.qd_count == 0,
            r.an_count == 0,
            r.ns_count == 0,
            r.ar_count == 0,
    {
        Header { id: 0, block: Control(0), qd_count: 0, an_count: 0, ns_count: 0, ar_count: 0 }
    }
}

/// The result code that says an operation is not implemented.
pub const RCODE_NOT_IMPLEMENTED: u8 = 4;

/// `r` is the header of the reply to a message with header `h`, leaving aside the answer
/// count: it is a response with the same identifier, operation code, flags and counts, and
/// its result code says "not implemented" for any operation but the standard query (0).
pub open spec fn reply_header(r: Header, h: Header) -> bool {
    &&& r.spec_side() == Side::Response
    &&& r.spec_opcode() == h.spec_opcode()
    &&& r.spec_authoritative() == h.spec_authoritative()
    &&& r.spec_truncated() == h.spec_truncated()
    &&& r.spec_recursion_desired() == h.spec_recursion_desired()
    &&& r.spec_recursion_available() == h.spec_recursion_available()
    &&& r.spec_reserved() == h.spec_reserved()
    &&& r.spec_rcode() == if h.spec_opcode() != 0 {
        RCODE_NOT_IMPLEMENTED
    } else {
        h.spec_rcode()
    }
    &&& r.id == h.id
    &&& r.qd_count == h.qd_count
    &&& r.ns_count == h.ns_count
    &&& r.ar_count == h.ar_count
}

/// Reads a header from the front of `s`; fewer than 12 bytes is too little.
pub open spec fn parse_header(s: Seq<u8>) -> Parsed<Header> {
    if s.len() < 12 {
        Err(DecodeError::InsufficientData)
    } else {
        Ok(
            (
                12,
                Header {
                    id: read16(s),
                    block: Control::from_word(read16(s.skip(2))),
                    qd_count: read16(s.skip(4)),
                    an_count: read16(s.skip(6)),
                    ns_count: read16(s.skip(8)),
                    ar_count: read16(s.skip(10)),
                },
            ),
        )
    }
}

/// Decoding what a header encodes to, whatever follows it, gives the header back and
/// consumes exactly its 12 bytes.
pub proof fn lemma_header_round_trip(h: Header, t: Seq<u8>)
    ensures
        h.wire().len() == 12,
        parse_header(h.wire() + t) == Ok::<(int, Header), DecodeError>((12, h)),
{
    let s = h.wire() + t;
    assert(s.skip(2).take(2) =~= be16(h.control()));
    let w = read16(s.skip(2));
    assert(w == h.control());
    assert(Control::from_word(w) == h.block) by {
        Control::lemma_from_word(w);
        Control::lemma_ext(Control::from_word(w), h.block);
    }
}

/// The big-endian word at byte `i` of `buf`.
fn word_at(buf: &[u8], i: usize) -> (r: u16)
    requires
        i + 2 <= buf@.len(),
    ensures
        r == read16(buf@.skip(i as int)),
{
    buf[i] as u16 * 256 + buf[i + 1] as u16
}

/// Length of an encoded header.
pub const HEADER_LEN: usize = 12;

impl Header {
    /// The packed control word as an integer.
    pub open spec fn control(&self) -> u16 {
        self.block.word()
    }

    pub open spec fn spec_side(&self) -> Side {
        if self.control() & QR_MASK == 0 {
            Side::Query
        } else {
            Side::Response
        }
    }

    pub open spec fn spec_opcode(&self) -> u8 {
        ((self.control() & OP_MASK) >> 11u16) as u8
    }

    pub open spec fn spec_authoritative(&self) -> bool {
        self.control() & AUTH_MASK != 0
    }

    pub open spec fn spec_truncated(&self) -> bool {
        self.control() & TRUNC_MASK != 0
    }

    pub open spec fn spec_recursion_desired(&self) -> bool {
        self.control() & RD_MASK != 0
    }

    pub open spec fn spec_recursion_available(&self) -> bool {
        self.control() & RA_MASK != 0
    }

    /// The three bits between the flags and the result code, which no accessor changes.
    pub open spec fn spec_reserved(&self) -> u8 {
        ((self.control() & Z_MASK) >> 4u16) as u8
    }

    pub open spec fn spec_rcode(&self) -> u8 {
        (self.control() & RCODE_MASK) as u8
    }

    /// Identifier and counts agree.
    pub open spec fn same_words(&self, other: Header) -> bool {
        &&& self.id == other.id
        &&& self.qd_count == other.qd_count
        &&& self.an_count == other.an_count
        &&& self.ns_count == other.ns_count
        &&& self.ar_count == other.ar_count
    }

    /// The 12 bytes of the header on the wire.
    pub open spec fn wire(&self) -> Seq<u8> {
        be16(self.id) + be16(self.control()) + be16(self.qd_count) + be16(self.an_count) + be16(
            self.ns_count,
        ) + be16(self.ar_count)
    }

    pub fn side(&self) -> (r: Side)
        ensures
            r == self.spec_side(),
    {
        if self.block.0 & QR_MASK == 0 {
            Side::Query
        } else {
            Side::Response
        }
    }

    pub fn set_side(&mut self, side: Side)
        ensures
            final(self).spec_side() == side,
            final(self).spec_opcode() == old(self).spec_opcode(),
            final(self).spec_authoritative() == old(self).spec_authoritative(),
            final(self).spec_truncated() == old(self).spec_truncated(),
            final(self).spec_recursion_desired() == old(self).spec_recursion_desired(),
            final(self).spec_recursion_available() == old(self).spec_recursion_available(),
            final(self).spec_reserved() == old(self).spec_reserved(),
            final(self).spec_rcode() == old(self).spec_rcode(),
            final(self).same_words(*old(self)),
    {
        let s = match side {
            Side::Query => NULL_MASK,
            Side::Response => QR_MASK,
        };
        let b = self.block.0;
        self.block = Control((b & !QR_MASK) | s);
        let n = self.block.0;
        assert(n & 0x7FFF == b & 0x7FFF && (s == 0 ==> n & 0x8000 == 0) && (s == 0x8000 ==> n
            & 0x8000 != 0)) by (bit_vector)
            requires
                n == (b & !0x8000u16) | s,
                s == 0 || s == 0x8000,
        ;
        assert(n & 0x7800 == b & 0x7800 && n & 0x0400 == b & 0x0400 && n & 0x0200 == b & 0x0200
            && n & 0x0100 == b & 0x0100 && n & 0x0080 == b & 0x0080 && n & 0x0070 == b & 0x0070 && n
            & 0x000F == b & 0x000F) by (bit_vector)
            requires
                n & 0x7FFF == b & 0x7FFF,
        ;
    }

    pub fn opcode(&self) -> (r: u8)
        ensures
            r == self.spec_opcode(),
            r < 16,
    {
        let b = self.block.0;
        assert((b & 0x7800) >> 11u16 < 16) by (bit_vector);
        ((self.block.0 & OP_MASK) >> 11) as u8
    }

    /// Writes the operation code; only its low four bits are kept.
    pub fn set_opcode(&mut self, opcode: u8)
        ensures
            final(self).spec_opcode() == opcode % 16,
            final(self).spec_side() == old(self).spec_side(),
            final(self).spec_authoritative() == old(self).spec_authoritative(),
            final(self).spec_truncated() == old(self).spec_truncated(),
            final(self).spec_recursion_desired() == old(self).spec_recursion_desired(),
            final(self).spec_recursion_available() == old(self).spec_recursion_available(),
            final(self).spec_reserved() == old(self).spec_reserved(),
            final(self).spec_rcode() == old(self).spec_rcode(),
            final(self).same_words(*old(self)),
    {
        let b = self.block.0;
        let o = opcode as u16;
        self.block = Control((b & !OP_MASK) | ((o & 0x0F) << 11));
        let n = self.block.0;
        assert(((n & 0x7800) >> 11u16) == o % 16 && n & 0x87FF == b & 0x87FF) by (bit_vector)
            requires
                n == (b & !0x7800u16) | ((o & 0x0F) << 11u16),
        ;
        assert(n & 0x8000 == b & 0x8000 && n & 0x0400 == b & 0x0400 && n & 0x0200 == b & 0x0200
            && n & 0x0100 == b & 0x0100 && n & 0x0080 == b & 0x0080 && n & 0x0070 == b & 0x0070 && n
            & 0x000F == b & 0x000F) by (bit_vector)
            requires
                n & 0x87FF == b & 0x87FF,
        ;
    }

    pub fn authoritative(&self) -> (r: bool)
        ensures
            r == self.spec_authoritative(),
    {
        self.block.0 & AUTH_MASK != 0
    }

    pub fn truncated(&self) -> (r: bool)
        ensures
            r == self.spec_truncated(),
    {
        self.block.0 & TRUNC_MASK != 0
    }

    pub fn recursion_desired(&self) -> (r: bool)
        ensures
            r == self.spec_recursion_desired(),
    {
        self.block.0 & RD_MASK != 0
    }

    pub fn set_recursion_desired(&mut self, desired: bool)
        ensures
            final(self).spec_recursion_desired() == desired,
            final(self).spec_side() == old(self).spec_side(),
            final(self).spec_opcode() == old(self).spec_opcode(),
            final(self).spec_authoritative() == old(self).spec_authoritative(),
            final(self).spec_truncated() == old(self).spec_truncated(),
            final(self).spec_recursion_available() == old(self).spec_recursion_available(),
            final(self).spec_reserved() == old(self).spec_reserved(),
            final(self).spec_rcode() == old(self).spec_rcode(),
            final(self).same_words(*old(self)),
    {
        let b = self.block.0;
        let s: u16 = if desired {
            RD_MASK
        } else {
            NULL_MASK
        };
        self.block = Control((b & !RD_MASK) | s);
        let n = self.block.0;
        assert(n & 0xFEFF == b & 0xFEFF && (s == 0 ==> n & 0x0100 == 0) && (s == 0x0100 ==> n
            & 0x0100 != 0)) by (bit_vector)
            requires
                n == (b & !0x0100u16) | s,
                s == 0 || s == 0x0100,
        ;
        assert(n & 0x8000 == b & 0x8000 && n & 0x7800 == b & 0x7800 && n & 0x0400 == b & 0x0400
            && n & 0x0200 == b & 0x0200 && n & 0x0080 == b & 0x0080 && n & 0x0070 == b & 0x0070 && n
            & 0x000F == b & 0x000F) by (bit_vector)
            requires
                n & 0xFEFF == b & 0xFEFF,
        ;
    }

    pub fn recursion_available(&self) -> (r: bool)
        ensures
            r == self.spec_recursion_available(),
    {
        self.block.0 & RA_MASK != 0
    }

    pub fn rcode(&self) -> (r: u8)
        ensures
            r == self.spec_rcode(),
            r < 16,
    {
        let b = self.block.0;
        assert(b & 0x000F < 16) by (bit_vector);
        (self.block.0 & RCODE_MASK) as u8
    }

    /// Writes the result code; only its low four bits are kept.
    pub fn set_rcode(&mut self, rcode: u8)
        ensures
            final(self).spec_rcode() == rcode % 16,
            final(self).spec_side() == old(self).spec_side(),
            final(self).spec_opcode() == old(self).spec_opcode(),
            final(self).spec_authoritative() == old(self).spec_authoritative(),
            final(self).spec_truncated() == old(self).spec_truncated(),
            final(self).spec_recursion_desired() == old(self).spec_recursion_desired(),
            final(self).spec_recursion_available() == old(self).spec_recursion_available(),
            final(self).spec_reserved() == old(self).spec_reserved(),
            final(self).same_words(*old(self)),
    {
        let b = self.block.0;
        let c = rcode as u16;
        self.block = Control((b & !RCODE_MASK) | (c & RCODE_MASK));
        let n = self.block.0;
        assert(n & 0x000F == c % 16 && n & 0xFFF0 == b & 0xFFF0) by (bit_vector)
            requires
                n == (b & !0x000Fu16) | (c & 0x000F),
        ;
        assert(n & 0x8000 == b & 0x8000 && n & 0x7800 == b & 0x7800 && n & 0x0400 == b & 0x0400
            && n & 0x0200 == b & 0x0200 && n & 0x0100 == b & 0x0100 && n & 0x0080 == b & 0x0080 && n
            & 0x0070 == b & 0x0070) by (bit_vector)
            requires
                n & 0xFFF0 == b & 0xFFF0,
        ;
    }

    /// Writes the 12 bytes of the header over the front of `buf` and returns how many
    /// were written.
    pub fn write_to(&self, buf: &mut [u8]) -> (r: usize)
        requires
            old(buf)@.len() >= 12,
        ensures
            r == 12,
            final(buf)@ == self.wire() + old(buf)@.skip(12),
    {
        buf[0] = (self.id / 256) as u8;
        buf[1] = (self.id % 256) as u8;
        buf[2] = (self.block.0 / 256) as u8;
        buf[3] = (self.block.0 % 256) as u8;
        buf[4] = (self.qd_count / 256) as u8;
        buf[5] = (self.qd_count % 256) as u8;
        buf[6] = (self.an_count / 256) as u8;
        buf[7] = (self.an_count % 256) as u8;
        buf[8] = (self.ns_count / 256) as u8;
        buf[9] = (self.ns_count % 256) as u8;
        buf[10] = (self.ar_count / 256) as u8;
        buf[11] = (self.ar_count % 256) as u8;
        assert(buf@ =~= self.wire() + old(buf)@.skip(12));
        12
    }

    /// The same as [`Header::decode`].
    pub fn parse(input: &[u8]) -> (r: Result<(&[u8], Header), DecodeError>)
        ensures
            decoded(input@, parse_header(input@), viewed(r)),
    {
        Header::decode(input)
    }

    /// The header of the reply to this message, with the same answer count: see
    /// [`reply_header`].
    pub fn reply(&self) -> (r: Header)
        ensures
            reply_header(r, *self),
            r.an_count == self.an_count,
    {
        let mut r = *self;
        r.set_side(Side::Response);
        if r.opcode() != 0 {
            r.set_rcode(RCODE_NOT_IMPLEMENTED);
        }
        r
    }
}

impl Bincode for Header {
    open spec fn wire_of(v: Header) -> Seq<u8> {
        v.wire()
    }

    open spec fn parse_of(s: Seq<u8>) -> Parsed<Header> {
        parse_header(s)
    }

    /// Appends the 12 bytes of the header.
    fn encode(&self, buf: &mut Vec<u8>) {
        put_u16(buf, self.id);
        put_u16(buf, self.block.0);
        put_u16(buf, self.qd_count);
        put_u16(buf, self.an_count);
        put_u16(buf, self.ns_count);
        put_u16(buf, self.ar_count);
        assert(final(buf)@ =~= old(buf)@ + self.wire());
    }

    /// Reads a header from the front of `buf`, returning what follows it.
    fn decode(buf: &[u8]) -> (r: Result<(&[u8], Header), DecodeError>) {
        if buf.len() < HEADER_LEN {
            return Err(DecodeError::InsufficientData);
        }
        let h = Header {
            id: word_at(buf, 0),
            block: Control(word_at(buf, 2)),
            qd_count: word_at(buf, 4),
            an_count: word_at(buf, 6),
            ns_count: word_at(buf, 8),
            ar_count: word_at(buf, 10),
        };
        Ok((&buf[HEADER_LEN..buf.len()], h))
    }
}

} // verus!
