//! Building replies: answering locally, or forwarding each query entry upstream and
//! merging what comes back.
use vstd::prelude::*;
use crate::header::{reply_header, Header};
use crate::packet::{answers_view, Packet, PacketView};
use crate::record::{Question, QuestionView, RData, Resource, ResourceView};

verus! {

/// Time to live of a locally made answer.
pub const LOCAL_TTL: u32 = 60;

/// The address every locally made answer carries.
pub open spec fn local_address() -> Seq<u8> {
    seq![8u8, 8u8, 8u8, 8u8]
}

/// The answer made locally for query entry `q`: same name, type and class, a fixed time
/// to live and a fixed address.
pub open spec fn local_answer(q: QuestionView) -> ResourceView {
    ResourceView { name: q.name, ty: q.ty, class: q.class, ttl: LOCAL_TTL, data: local_address() }
}

/// Answers `packet` without asking anyone: one answer per query entry, in order, made by
/// [`local_answer`]. The header becomes the reply header and counts the answers; query
/// entries stay as they were.
pub fn transform(packet: Packet) -> (r: Packet)
    ensures
        reply_header(r.header, packet.header),
        r.header.an_count == r.answers@.len() % 0x1_0000,
        r.questions == packet.questions,
        r@.answers.len() == packet@.questions.len(),
        forall|i: int|
            0 <= i < packet@.questions.len() ==> #[trigger] r@.answers[i] == local_answer(
                packet@.questions[i],
            ),
{
    let mut answers: Vec<Resource> = Vec::new();
    let mut i: usize = 0;
    while i < packet.questions.len()
        invariant
            i <= packet.questions@.len(),
            answers@.len() == i,
            forall|j: int|
                0 <= j < i ==> #[trigger] answers@[j]@ == local_answer(packet.questions@[j]@),
        decreases packet.questions@.len() - i,
    {
        let q = &packet.questions[i];
        let a = Resource {
            name: q.name.duplicate(),
            ty: q.ty,
            class: q.class,
            ttl: LOCAL_TTL,
            data: RData::from_ipv4([8, 8, 8, 8]),
        };
        assert(a@.data =~= local_address());
        answers.push(a);
        i += 1;
    }
    let mut header = packet.header.reply();
    header.an_count = (answers.len() % 0x1_0000) as u16;
    Packet { header, questions: packet.questions, answers }
}

/// Hands out identifiers for upstream requests, one after another, wrapping after 65535.
pub struct IdCounter {
    next: u16,
}

impl IdCounter {
    /// The identifier the next request gets.
    pub closed spec fn peek(&self) -> u16 {
        self.next
    }

    pub fn new() -> (r: IdCounter)
        ensures
            r.peek() == 0,
    {
        IdCounter { next: 0 }
    }

    pub fn starting_at(first: u16) -> (r: IdCounter)
        ensures
            r.peek() == first,
    {
        IdCounter { next: first }
    }

    /// The identifier the next request gets.
    pub fn current(&self) -> (r: u16)
        ensures
            r == self.peek(),
    {
        self.next
    }

    /// Takes an identifier; the following one is next.
    pub fn next_id(&mut self) -> (r: u16)
        ensures
            r == old(self).peek(),
            final(self).peek() == (old(self).peek() + 1) % 0x1_0000,
    {
        let r = self.next;
        self.next = if r == u16::MAX {
            0
        } else {
            r + 1
        };
        r
    }
}

/// `r` is the upstream request for query entry `q` of a message with header `h`: the
/// same message with identifier `id` and `q` as its only query entry.
pub open spec fn upstream_request(r: PacketView, h: Header, id: u16, q: QuestionView, answers: Seq<ResourceView>) -> bool {
    &&& r.header.control() == h.control()
    &&& r.header.id == id
    &&& r.header.qd_count == 1
    &&& r.header.an_count == h.an_count
    &&& r.header.ns_count == h.ns_count
    &&& r.header.ar_count == h.ar_count
    &&& r.questions == seq![q]
    &&& r.answers == answers
}

/// One forwarded message in progress: its query entries go upstream one at a time, in
/// order, and the answers that come back are gathered into the reply.
pub struct Forward {
    inbound: Packet,
    response: Packet,
    position: usize,
}

impl Forward {
    /// The message being answered.
    pub closed spec fn inbound(&self) -> PacketView {
        self.inbound@
    }

    /// The reply so far.
    pub closed spec fn response(&self) -> PacketView {
        self.response@
    }

    /// How many query entries have had their upstream answer.
    pub closed spec fn position(&self) -> nat {
        self.position as nat
    }

    /// Starts answering `inbound`: the reply begins as a copy of it with the reply header.
    pub fn start(inbound: Packet) -> (r: Forward)
        ensures
            r.inbound() == inbound@,
            r.position() == 0,
            reply_header(r.response().header, inbound.header),
            r.response().header.an_count == inbound.header.an_count,
            r.response().questions == inbound@.questions,
            r.response().answers == inbound@.answers,
    {
        let mut response = inbound.duplicate();
        response.header = inbound.header.reply();
        Forward { inbound, response, position: 0 }
    }

    /// Whether every query entry has had its upstream answer.
    pub fn is_done(&self) -> (r: bool)
        ensures
            r == (self.position() >= self.inbound().questions.len()),
    {
        self.position >= self.inbound.questions.len()
    }

    /// The upstream request for the next query entry that awaits its answer, under a fresh
    /// identifier from `ids`; `None` once every entry has had its answer.
    pub fn next_request(&self, ids: &mut IdCounter) -> (r: Option<Packet>)
        ensures
            self.position() < self.inbound().questions.len() ==> {
                &&& r is Some
                &&& upstream_request(
                    r->Some_0@,
                    self.inbound().header,
                    old(ids).peek(),
                    self.inbound().questions[self.position() as int],
                    self.inbound().answers,
                )
                &&& final(ids).peek() == (old(ids).peek() + 1) % 0x1_0000
            },
            self.position() >= self.inbound().questions.len() ==> r is None && final(ids).peek()
                == old(ids).peek(),
    {
        if self.position >= self.inbound.questions.len() {
            return None;
        }
        let mut request = self.inbound.duplicate();
        let q = self.inbound.questions[self.position].duplicate();
        request.header.id = ids.next_id();
        request.header.qd_count = 1;
        let mut questions: Vec<Question> = Vec::new();
        questions.push(q);
        request.questions = questions;
        assert(request@.questions =~= seq![self.inbound().questions[self.position() as int]]);
        Some(request)
    }

    /// Takes the upstream reply to the current query entry: its answers are appended to the
    /// reply, and the next entry is current.
    pub fn on_reply(&mut self, reply: Packet)
        requires
            old(self).position() < old(self).inbound().questions.len(),
        ensures
            final(self).inbound() == old(self).inbound(),
            final(self).position() == old(self).position() + 1,
            final(self).response().header == old(self).response().header,
            final(self).response().questions == old(self).response().questions,
            final(self).response().answers == old(self).response().answers + reply@.answers,
    {
        let ghost before = self.response@.answers;
        let answers = reply.answers;
        let mut k: usize = 0;
        while k < answers.len()
            invariant
                k <= answers@.len(),
                answers_view(answers@) == reply@.answers,
                answers_view(self.response.answers@) == before + reply@.answers.take(k as int),
                self.response.header == old(self).response.header,
                self.response.questions == old(self).response.questions,
                self.inbound == old(self).inbound,
                self.position == old(self).position,
                self.position < self.inbound.questions.len(),
            decreases answers@.len() - k,
        {
            let a = answers[k].duplicate();
            let ghost prev = self.response.answers@;
            self.response.answers.push(a);
            assert(answers_view(self.response.answers@) =~= answers_view(prev).push(a@));
            k += 1;
            assert(reply@.answers.take(k as int) =~= reply@.answers.take(k - 1).push(a@));
        }
        assert(reply@.answers.take(k as int) =~= reply@.answers);
        self.position = self.position + 1;
    }

    /// The reply, with its answer count set to the number of answers it holds.
    pub fn finish(self) -> (r: Packet)
        ensures
            r.header.control() == self.response().header.control(),
            r.header.id == self.response().header.id,
            r.header.qd_count == self.response().header.qd_count,
            r.header.ns_count == self.response().header.ns_count,
            r.header.ar_count == self.response().header.ar_count,
            r.header.an_count == self.response().answers.len() % 0x1_0000,
            r@.questions == self.response().questions,
            r@.answers == self.response().answers,
    {
        let mut response = self.response;
        response.header.an_count = (response.answers.len() % 0x1_0000) as u16;
        response
    }
}

} // verus!
