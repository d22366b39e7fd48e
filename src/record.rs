//! Record types and classes, and the query and answer entries built from them.
use vstd::prelude::*;
use crate::name::{lemma_name_round_trip, name_wire, parse_name, valid_labels, Name};
use vstd::slice::slice_to_vec;
use crate::wire::{
    Bincode, be16, be32, decoded, lemma_be16_read, lemma_be32_read, parse_bytes, parse_u16, parse_u32,
    put_bytes, put_u16, put_u32, take_bytes, take_u16, take_u32, viewed, DecodeError, Parsed,
};

verus! {

/// The kinds of record this codec knows.
#[derive(Clone, Copy, Debug, PartialEq, Eq, Structural)]
pub enum Type {
    /// A host address.
    A,
    /// An authoritative name server.
    NS,
    /// A mail destination (obsolete).
    MD,
    /// A mail forwarder (obsolete).
    MF,
    /// The canonical name for an alias.
    CNAME,
    /// The start of a zone of authority.
    SOA,
    /// A mailbox domain name.
    MB,
    /// A mail group member.
    MG,
    /// A mail rename domain name.
    MR,
    /// A null record.
    NULL,
    /// A well known service description.
    WKS,
    /// A domain name pointer.
    PTR,
    /// Host information.
    HINFO,
    /// Mailbox or mail list information.
    MINFO,
    /// Mail exchange.
    MX,
    /// Text strings.
    TXT,
}

/// Record classes; only the Internet class is known.
#[derive(Clone, Copy, Debug, PartialEq, Eq, Structural)]
pub enum Class {
    In,
}

/// The wire tag of a record type.
pub open spec fn type_tag(t: Type) -> u16 {
    match t {
        Type::A => 1,
        Type::NS => 2,
        Type::MD => 3,
        Type::MF => 4,
        Type::CNAME => 5,
        Type::SOA => 6,
        Type::MB => 7,
        Type::MG => 8,
        Type::MR => 9,
        Type::NULL => 10,
        Type::WKS => 11,
        Type::PTR => 12,
        Type::HINFO => 13,
        Type::MINFO => 14,
        Type::MX => 15,
        Type::TXT => 16,
    }
}

/// The record type with wire tag `tag`, if there is one.
pub open spec fn type_from_tag(tag: u16) -> Option<Type> {
        if tag == 1 {
            Some(Type::A)
        } else if tag == 2 {
            Some(Type::NS)
        } else if tag == 3 {
            Some(Type::MD)
        } else if tag == 4 {
            Some(Type::MF)
        } else if tag == 5 {
            Some(Type::CNAME)
        } else if tag == 6 {
            Some(Type::SOA)
        } else if tag == 7 {
            Some(Type::MB)
        } else if tag == 8 {
            Some(Type::MG)
        } else if tag == 9 {
            Some(Type::MR)
        } else if tag == 10 {
            Some(Type::NULL)
        } else if tag == 11 {
            Some(Type::WKS)
        } else if tag == 12 {
            Some(Type::PTR)
        } else if tag == 13 {
            Some(Type::HINFO)
        } else if tag == 14 {
            Some(Type::MINFO)
        } else if tag == 15 {
            Some(Type::MX)
        } else if tag == 16 {
            Some(Type::TXT)
        } else {
            None
        }
}

/// The wire tag of the Internet class.
pub const CLASS_IN: u16 = 1;

pub open spec fn parse_type(s: Seq<u8>) -> Parsed<Type> {
    match parse_u16(s) {
        Ok((n, tag)) => match type_from_tag(tag) {
            Some(t) => Ok((n, t)),
            None => Err(DecodeError::InvalidTag),
        },
        Err(e) => Err(e),
    }
}

pub open spec fn parse_class(s: Seq<u8>) -> Parsed<Class> {
    match parse_u16(s) {
        Ok((n, tag)) => if tag == CLASS_IN {
            Ok((n, Class::In))
        } else {
            Err(DecodeError::InvalidTag)
        },
        Err(e) => Err(e),
    }
}

/// Every type has a tag in 1 to 16 that maps back to it, and exactly the tags 1 to 16
/// name a type.
pub proof fn lemma_type_tags()
    ensures
        forall|t: Type| 1 <= #[trigger] type_tag(t) <= 16 && type_from_tag(type_tag(t)) == Some(t),
        forall|tag: u16| #[trigger] type_from_tag(tag) is Some <==> 1 <= tag <= 16,
        forall|tag: u16| #[trigger] type_from_tag(tag) is Some ==> type_tag(type_from_tag(tag)->Some_0) == tag,
{
}

/// A two-byte type tag decodes to its type when it names one, and is refused otherwise.
pub proof fn lemma_type_decode(tag: u16, t: Seq<u8>)
    ensures
        parse_type(be16(tag) + t) == if 1 <= tag <= 16 {
            Ok::<(int, Type), DecodeError>((2, type_from_tag(tag)->Some_0))
        } else {
            Err(DecodeError::InvalidTag)
        },
{
    lemma_be16_read(tag, t);
    lemma_type_tags();
}

/// A two-byte class tag decodes to the Internet class when it is 1, and is refused otherwise.
pub proof fn lemma_class_decode(tag: u16, t: Seq<u8>)
    ensures
        parse_class(be16(tag) + t) == if tag == CLASS_IN {
            Ok::<(int, Class), DecodeError>((2, Class::In))
        } else {
            Err(DecodeError::InvalidTag)
        },
{
    lemma_be16_read(tag, t);
}

impl View for Type {
    type V = Type;

    open spec fn view(&self) -> Type {
        *self
    }
}

impl View for Class {
    type V = Class;

    open spec fn view(&self) -> Class {
        *self
    }
}

impl Type {
    /// The wire tag.
    pub fn tag(&self) -> (r: u16)
        ensures
            r == type_tag(*self),
    {
        match self {
            Type::A => 1,
            Type::NS => 2,
            Type::MD => 3,
            Type::MF => 4,
            Type::CNAME => 5,
            Type::SOA => 6,
            Type::MB => 7,
            Type::MG => 8,
            Type::MR => 9,
            Type::NULL => 10,
            Type::WKS => 11,
            Type::PTR => 12,
            Type::HINFO => 13,
            Type::MINFO => 14,
            Type::MX => 15,
            Type::TXT => 16,
        }
    }

    /// The type with the given wire tag, if any.
    pub fn from_tag(tag: u16) -> (r: Option<Type>)
        ensures
            r == type_from_tag(tag),
    {
        match tag {
            1 => Some(Type::A),
            2 => Some(Type::NS),
            3 => Some(Type::MD),
            4 => Some(Type::MF),
            5 => Some(Type::CNAME),
            6 => Some(Type::SOA),
            7 => Some(Type::MB),
            8 => Some(Type::MG),
            9 => Some(Type::MR),
            10 => Some(Type::NULL),
            11 => Some(Type::WKS),
            12 => Some(Type::PTR),
            13 => Some(Type::HINFO),
            14 => Some(Type::MINFO),
            15 => Some(Type::MX),
            16 => Some(Type::TXT),
            _ => None,
        }
    }
}

impl Bincode for Type {
    open spec fn wire_of(v: Type) -> Seq<u8> {
        be16(type_tag(v))
    }

    open spec fn parse_of(s: Seq<u8>) -> Parsed<Type> {
        parse_type(s)
    }

    /// Appends the two-byte tag.
    fn encode(&self, buf: &mut Vec<u8>) {
        put_u16(buf, self.tag());
    }

    /// Reads a type tag from the front of `buf`; a tag that names no type is refused.
    fn decode(buf: &[u8]) -> (r: Result<(&[u8], Type), DecodeError>) {
        let (rest, tag) = match take_u16(buf) {
            Ok(x) => x,
            Err(e) => return Err(e),
        };
        match Type::from_tag(tag) {
            Some(t) => Ok((rest, t)),
            None => Err(DecodeError::InvalidTag),
        }
    }
}

impl Bincode for Class {
    open spec fn wire_of(v: Class) -> Seq<u8> {
        be16(CLASS_IN)
    }

    open spec fn parse_of(s: Seq<u8>) -> Parsed<Class> {
        parse_class(s)
    }

    /// Appends the two-byte tag.
    fn encode(&self, buf: &mut Vec<u8>) {
        put_u16(buf, CLASS_IN);
    }

    /// Reads a class tag from the front of `buf`; any tag but the Internet class's is refused.
    fn decode(buf: &[u8]) -> (r: Result<(&[u8], Class), DecodeError>) {
        let (rest, tag) = match take_u16(buf) {
            Ok(x) => x,
            Err(e) => return Err(e),
        };
        if tag == CLASS_IN {
            Ok((rest, Class::In))
        } else {
            Err(DecodeError::InvalidTag)
        }
    }
}

/// The opaque payload of a resource record.
#[derive(Debug, PartialEq, Eq, Clone)]
pub struct RData(Vec<u8>);

impl View for RData {
    type V = Seq<u8>;

    closed spec fn view(&self) -> Seq<u8> {
        self.0@
    }
}

/// A payload on the wire: its two-byte length, then its bytes.
pub open spec fn rdata_wire(d: Seq<u8>) -> Seq<u8> {
    be16(d.len() as u16) + d
}

pub open spec fn parse_rdata(s: Seq<u8>) -> Parsed<Seq<u8>> {
    match parse_u16(s) {
        Ok((n, len)) => match parse_bytes(s.skip(n), len as int) {
            Ok((m, d)) => Ok((n + m, d)),
            Err(e) => Err(e),
        },
        Err(e) => Err(e),
    }
}

pub proof fn lemma_rdata_round_trip(d: Seq<u8>, t: Seq<u8>)
    requires
        d.len() <= 0xFFFF,
    ensures
        parse_rdata(rdata_wire(d) + t) == Ok::<(int, Seq<u8>), DecodeError>((rdata_wire(d).len() as int, d)),
{
    let s = rdata_wire(d) + t;
    lemma_be16_read(d.len() as u16, d + t);
    assert(s =~= be16(d.len() as u16) + (d + t));
    assert((d + t).take(d.len() as int) =~= d);
}

impl RData {
    /// A payload holding `bytes`.
    pub fn new(bytes: Vec<u8>) -> (r: RData)
        ensures
            r@ == bytes@,
    {
        RData(bytes)
    }

    /// The payload of an address record: the four octets of an IPv4 address.
    pub fn from_ipv4(octets: [u8; 4]) -> (r: RData)
        ensures
            r@ == octets@,
    {
        let mut v: Vec<u8> = Vec::new();
        v.push(octets[0]);
        v.push(octets[1]);
        v.push(octets[2]);
        v.push(octets[3]);
        assert(v@ =~= octets@);
        RData(v)
    }

    pub fn bytes(&self) -> (r: &Vec<u8>)
        ensures
            r@ == self@,
    {
        &self.0
    }

    /// A payload with the same bytes.
    pub fn duplicate(&self) -> (r: RData)
        ensures
            r@ == self@,
    {
        RData(slice_to_vec(self.0.as_slice()))
    }
}

impl Bincode for RData {
    open spec fn wire_of(v: Seq<u8>) -> Seq<u8> {
        rdata_wire(v)
    }

    open spec fn parse_of(s: Seq<u8>) -> Parsed<Seq<u8>> {
        parse_rdata(s)
    }

    /// Appends the two-byte length and the bytes.
    fn encode(&self, buf: &mut Vec<u8>) {
        put_u16(buf, self.0.len() as u16);
        put_bytes(buf, self.0.as_slice());
        assert(final(buf)@ =~= old(buf)@ + rdata_wire(self@));
    }

    /// Reads a length-prefixed payload from the front of `buf`.
    fn decode(buf: &[u8]) -> (r: Result<(&[u8], RData), DecodeError>) {
        let (rest, len) = match take_u16(buf) {
            Ok(x) => x,
            Err(e) => return Err(e),
        };
        let (rest, data) = match take_bytes(rest, len as usize) {
            Ok(x) => x,
            Err(e) => return Err(e),
        };
        assert(rest@ =~= buf@.skip(2 + len));
        Ok((rest, RData(data)))
    }
}

/// A query entry: the name asked about, the record type and the class.
#[derive(Debug, PartialEq, Eq, Clone)]
pub struct Question {
    pub name: Name,
    pub ty: Type,
    pub class: Class,
}

/// A query entry as plain values.
pub struct QuestionView {
    pub name: Seq<Seq<u8>>,
    pub ty: Type,
    pub class: Class,
}

impl View for Question {
    type V = QuestionView;

    open spec fn view(&self) -> QuestionView {
        QuestionView { name: self.name@, ty: self.ty, class: self.class }
    }
}

/// Name, then type tag, then class tag.
pub open spec fn question_wire(q: QuestionView) -> Seq<u8> {
    name_wire(q.name) + be16(type_tag(q.ty)) + be16(CLASS_IN)
}

pub open spec fn valid_question(q: QuestionView) -> bool {
    valid_labels(q.name)
}

pub open spec fn parse_question(s: Seq<u8>) -> Parsed<QuestionView> {
    match parse_name(s) {
        Ok((n1, name)) => match parse_type(s.skip(n1)) {
            Ok((n2, ty)) => match parse_class(s.skip(n1 + n2)) {
                Ok((n3, class)) => Ok((n1 + n2 + n3, QuestionView { name, ty, class })),
                Err(e) => Err(e),
            },
            Err(e) => Err(e),
        },
        Err(e) => Err(e),
    }
}

pub proof fn lemma_question_round_trip(q: QuestionView, t: Seq<u8>)
    requires
        valid_question(q),
    ensures
        parse_question(question_wire(q) + t) == Ok::<(int, QuestionView), DecodeError>((question_wire(q).len() as int, q)),
{
    let nw = name_wire(q.name);
    let tw = be16(type_tag(q.ty));
    let cw = be16(CLASS_IN);
    let s = question_wire(q) + t;
    assert(s =~= nw + (tw + (cw + t)));
    lemma_name_round_trip(q.name, tw + (cw + t));
    assert(s.skip(nw.len() as int) =~= tw + (cw + t));
    lemma_be16_read(type_tag(q.ty), cw + t);
    lemma_type_tags();
    assert(s.skip(nw.len() + 2int) =~= cw + t);
    lemma_be16_read(CLASS_IN, t);
}

impl Question {
    /// A query entry with a copy of this one's name.
    pub fn duplicate(&self) -> (r: Question)
        ensures
            r@ == self@,
            r.name.pending() == self.name.pending(),
    {
        Question { name: self.name.duplicate(), ty: self.ty, class: self.class }
    }
}

impl Bincode for Question {
    open spec fn wire_of(v: QuestionView) -> Seq<u8> {
        question_wire(v)
    }

    open spec fn parse_of(s: Seq<u8>) -> Parsed<QuestionView> {
        parse_question(s)
    }

    /// Appends the name, the type tag and the class tag.
    fn encode(&self, buf: &mut Vec<u8>) {
        self.name.encode(buf);
        self.ty.encode(buf);
        self.class.encode(buf);
        assert(final(buf)@ =~= old(buf)@ + question_wire(self@));
    }

    /// Reads a query entry from the front of `buf`; the first part that fails decides the error.
    fn decode(buf: &[u8]) -> (r: Result<(&[u8], Question), DecodeError>) {
        let (rest1, name) = match Name::decode(buf) {
            Ok(x) => x,
            Err(e) => return Err(e),
        };
        let (rest2, ty) = match Type::decode(rest1) {
            Ok(x) => x,
            Err(e) => return Err(e),
        };
        let ghost n1 = buf@.len() - rest1@.len();
        assert(rest1@.skip(2) =~= buf@.skip(n1 + 2));
        let (rest3, class) = match Class::decode(rest2) {
            Ok(x) => x,
            Err(e) => return Err(e),
        };
        assert(rest2@.skip(2) =~= buf@.skip(n1 + 4));
        Ok((rest3, Question { name, ty, class }))
    }
}

/// An answer record: a query entry's fields, a time to live and a payload.
#[derive(Debug, PartialEq, Eq, Clone)]
pub struct Resource {
    pub name: Name,
    pub ty: Type,
    pub class: Class,
    pub ttl: u32,
    pub data: RData,
}

/// An answer record as plain values.
pub struct ResourceView {
    pub name: Seq<Seq<u8>>,
    pub ty: Type,
    pub class: Class,
    pub ttl: u32,
    pub data: Seq<u8>,
}

impl View for Resource {
    type V = ResourceView;

    open spec fn view(&self) -> ResourceView {
        ResourceView { name: self.name@, ty: self.ty, class: self.class, ttl: self.ttl, data: self.data@ }
    }
}

/// Name, type tag, class tag, four-byte time to live, then the length-prefixed payload.
pub open spec fn resource_wire(a: ResourceView) -> Seq<u8> {
    name_wire(a.name) + be16(type_tag(a.ty)) + be16(CLASS_IN) + be32(a.ttl) + rdata_wire(a.data)
}

pub open spec fn valid_resource(a: ResourceView) -> bool {
    valid_labels(a.name) && a.data.len() <= 0xFFFF
}

pub open spec fn parse_resource(s: Seq<u8>) -> Parsed<ResourceView> {
    match parse_question(s) {
        Ok((n1, q)) => match parse_u32(s.skip(n1)) {
            Ok((n2, ttl)) => match parse_rdata(s.skip(n1 + n2)) {
                Ok((n3, data)) => Ok(
                    (n1 + n2 + n3, ResourceView { name: q.name, ty: q.ty, class: q.class, ttl, data }),
                ),
                Err(e) => Err(e),
            },
            Err(e) => Err(e),
        },
        Err(e) => Err(e),
    }
}

pub proof fn lemma_resource_round_trip(a: ResourceView, t: Seq<u8>)
    requires
        valid_resource(a),
    ensures
        parse_resource(resource_wire(a) + t) == Ok::<(int, ResourceView), DecodeError>((resource_wire(a).len() as int, a)),
{
    let q = QuestionView { name: a.name, ty: a.ty, class: a.class };
    let qw = question_wire(q);
    let lw = be32(a.ttl);
    let dw = rdata_wire(a.data);
    let s = resource_wire(a) + t;
    assert(s =~= qw + (lw + (dw + t)));
    lemma_question_round_trip(q, lw + (dw + t));
    assert(s.skip(qw.len() as int) =~= lw + (dw + t));
    lemma_be32_read(a.ttl, dw + t);
    assert(s.skip(qw.len() + 4int) =~= dw + t);
    lemma_rdata_round_trip(a.data, t);
}

impl Resource {
    /// An answer record with copies of this one's name and payload.
    pub fn duplicate(&self) -> (r: Resource)
        ensures
            r@ == self@,
    {
        Resource {
            name: self.name.duplicate(),
            ty: self.ty,
            class: self.class,
            ttl: self.ttl,
            data: self.data.duplicate(),
        }
    }
}

impl Bincode for Resource {
    open spec fn wire_of(v: ResourceView) -> Seq<u8> {
        resource_wire(v)
    }

    open spec fn parse_of(s: Seq<u8>) -> Parsed<ResourceView> {
        parse_resource(s)
    }

    /// Appends the name, the two tags, the time to live and the payload.
    fn encode(&self, buf: &mut Vec<u8>) {
        self.name.encode(buf);
        self.ty.encode(buf);
        self.class.encode(buf);
        put_u32(buf, self.ttl);
        self.data.encode(buf);
        assert(final(buf)@ =~= old(buf)@ + resource_wire(self@));
    }

    /// Reads an answer record from the front of `buf`; the first part that fails decides the
    /// error.
    fn decode(buf: &[u8]) -> (r: Result<(&[u8], Resource), DecodeError>) {
        let (rest1, q) = match Question::decode(buf) {
            Ok(x) => x,
            Err(e) => return Err(e),
        };
        let ghost n1 = buf@.len() - rest1@.len();
        let (rest2, ttl) = match take_u32(rest1) {
            Ok(x) => x,
            Err(e) => return Err(e),
        };
        assert(rest1@.skip(4) =~= buf@.skip(n1 + 4));
        let (rest3, data) = match RData::decode(rest2) {
            Ok(x) => x,
            Err(e) => return Err(e),
        };
        let ghost n3 = rest2@.len() - rest3@.len();
        assert(rest2@.skip(n3) =~= buf@.skip(n1 + 4 + n3));
        Ok((rest3, Resource { name: q.name, ty: q.ty, class: q.class, ttl, data }))
    }
}

} // verus!
