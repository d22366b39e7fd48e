//! Whole messages: a header, then its query entries, then its answer records.
use vstd::prelude::*;
use vstd::seq_lib::lemma_flatten_concat;
use crate::header::{lemma_header_round_trip, parse_header, Header};
use crate::name::parse_name;
use crate::record::{
    lemma_question_round_trip, lemma_resource_round_trip, parse_question, parse_resource,
    question_wire, resource_wire, valid_question, valid_resource, Question, QuestionView, Resource,
    ResourceView,
};
use crate::wire::{Bincode, decoded, lemma_prefixed_twice, prefixed, viewed, DecodeError, Parsed};

verus! {

/// A message. Authority and additional sections are not carried.
#[derive(Debug, PartialEq, Eq, Clone)]
pub struct Packet {
    pub header: Header,
    pub questions: Vec<Question>,
    pub answers: Vec<Resource>,
}

/// A message as plain values.
pub struct PacketView {
    pub header: Header,
    pub questions: Seq<QuestionView>,
    pub answers: Seq<ResourceView>,
}

pub open spec fn questions_view(v: Seq<Question>) -> Seq<QuestionView> {
    v.map_values(|q: Question| q@)
}

pub open spec fn answers_view(v: Seq<Resource>) -> Seq<ResourceView> {
    v.map_values(|a: Resource| a@)
}

impl View for Packet {
    type V = PacketView;

    open spec fn view(&self) -> PacketView {
        PacketView {
            header: self.header,
            questions: questions_view(self.questions@),
            answers: answers_view(self.answers@),
        }
    }
}

pub open spec fn questions_wire(qs: Seq<QuestionView>) -> Seq<u8> {
    qs.map_values(|q: QuestionView| question_wire(q)).flatten()
}

pub open spec fn answers_wire(xs: Seq<ResourceView>) -> Seq<u8> {
    xs.map_values(|a: ResourceView| resource_wire(a)).flatten()
}

/// Header, then each query entry in order, then each answer record in order.
pub open spec fn packet_wire(p: PacketView) -> Seq<u8> {
    p.header.wire() + questions_wire(p.questions) + answers_wire(p.answers)
}

/// A message that reads back as itself: its counts match its entries, and each entry can
/// be written within the width of its fields.
pub open spec fn valid_packet(p: PacketView) -> bool {
    &&& p.header.qd_count == p.questions.len()
    &&& p.header.an_count == p.answers.len()
    &&& forall|i: int| 0 <= i < p.questions.len() ==> valid_question(#[trigger] p.questions[i])
    &&& forall|i: int| 0 <= i < p.answers.len() ==> valid_resource(#[trigger] p.answers[i])
}

/// Reads `n` query entries one after another.
pub open spec fn parse_questions(s: Seq<u8>, n: nat) -> Parsed<Seq<QuestionView>>
    decreases n,
{
    if n == 0 {
        Ok((0, Seq::empty()))
    } else {
        match parse_question(s) {
            Ok((k, q)) => prefixed(seq![q], k, parse_questions(s.skip(k), (n - 1) as nat)),
            Err(e) => Err(e),
        }
    }
}

/// Reads `n` answer records one after another.
pub open spec fn parse_answers(s: Seq<u8>, n: nat) -> Parsed<Seq<ResourceView>>
    decreases n,
{
    if n == 0 {
        Ok((0, Seq::empty()))
    } else {
        match parse_resource(s) {
            Ok((k, a)) => prefixed(seq![a], k, parse_answers(s.skip(k), (n - 1) as nat)),
            Err(e) => Err(e),
        }
    }
}

/// Reads a header, then as many query entries and answer records as it declares.
pub open spec fn parse_packet(s: Seq<u8>) -> Parsed<PacketView> {
    match parse_header(s) {
        Ok((n1, header)) => match parse_questions(s.skip(n1), header.qd_count as nat) {
            Ok((n2, questions)) => match parse_answers(s.skip(n1 + n2), header.an_count as nat) {
                Ok((n3, answers)) => Ok((n1 + n2 + n3, PacketView { header, questions, answers })),
                Err(e) => Err(e),
            },
            Err(e) => Err(e),
        },
        Err(e) => Err(e),
    }
}

/// Reading `n` entries from encoded entries `qs` and then `t` reads `qs` first, then goes on
/// in `t`.
proof fn lemma_questions_prefix(qs: Seq<QuestionView>, t: Seq<u8>, n: nat)
    requires
        forall|i: int| 0 <= i < qs.len() ==> valid_question(#[trigger] qs[i]),
        n >= qs.len(),
    ensures
        parse_questions(questions_wire(qs) + t, n) == prefixed(
            qs,
            questions_wire(qs).len() as int,
            parse_questions(t, (n - qs.len()) as nat),
        ),
    decreases qs.len(),
{
    let f = |q: QuestionView| question_wire(q);
    if qs.len() == 0 {
        assert(qs =~= Seq::<QuestionView>::empty());
        assert(qs.map_values(f) =~= Seq::<Seq<u8>>::empty());
        assert(questions_wire(qs) + t =~= t);
        match parse_questions(t, n) {
            Ok((m, v)) => {
                assert(qs + v =~= v);
            },
            Err(_) => {},
        }
    } else {
        let q = qs[0];
        let rest = qs.drop_first();
        assert(qs.map_values(f) =~= seq![question_wire(q)] + rest.map_values(f));
        lemma_flatten_concat(seq![question_wire(q)], rest.map_values(f));
        seq![question_wire(q)].lemma_flatten_singleton();
        let s = questions_wire(qs) + t;
        assert(s =~= question_wire(q) + (questions_wire(rest) + t));
        lemma_question_round_trip(q, questions_wire(rest) + t);
        assert(s.skip(question_wire(q).len() as int) =~= questions_wire(rest) + t);
        assert(forall|i: int| 0 <= i < rest.len() ==> rest[i] == qs[i + 1]);
        lemma_questions_prefix(rest, t, (n - 1) as nat);
        lemma_prefixed_twice(
            seq![q],
            question_wire(q).len() as int,
            rest,
            questions_wire(rest).len() as int,
            parse_questions(t, (n - qs.len()) as nat),
        );
        assert(seq![q] + rest =~= qs);
    }
}

proof fn lemma_questions_round_trip(qs: Seq<QuestionView>, t: Seq<u8>)
    requires
        forall|i: int| 0 <= i < qs.len() ==> valid_question(#[trigger] qs[i]),
    ensures
        parse_questions(questions_wire(qs) + t, qs.len()) == Ok::<(int, Seq<QuestionView>), DecodeError>((questions_wire(qs).len() as int, qs)),
{
    lemma_questions_prefix(qs, t, qs.len());
    assert(qs + Seq::<QuestionView>::empty() =~= qs);
}

/// A header that declares more query entries than follow it fails with too little data,
/// rather than yielding the entries that are there.
pub proof fn lemma_missing_questions(h: Header, qs: Seq<QuestionView>)
    requires
        forall|i: int| 0 <= i < qs.len() ==> valid_question(#[trigger] qs[i]),
        h.qd_count > qs.len(),
    ensures
        parse_packet(h.wire() + questions_wire(qs)) == Err::<(int, PacketView), DecodeError>(DecodeError::InsufficientData),
{
    let s = h.wire() + questions_wire(qs);
    lemma_header_round_trip(h, questions_wire(qs));
    assert(s.skip(12) =~= questions_wire(qs) + Seq::<u8>::empty());
    lemma_questions_prefix(qs, Seq::<u8>::empty(), h.qd_count as nat);
    let e = Seq::<u8>::empty();
    assert(parse_name(e) == Err::<(int, Seq<Seq<u8>>), DecodeError>(DecodeError::InsufficientData));
}

proof fn lemma_answers_round_trip(xs: Seq<ResourceView>, t: Seq<u8>)
    requires
        forall|i: int| 0 <= i < xs.len() ==> valid_resource(#[trigger] xs[i]),
    ensures
        parse_answers(answers_wire(xs) + t, xs.len()) == Ok::<(int, Seq<ResourceView>), DecodeError>((answers_wire(xs).len() as int, xs)),
    decreases xs.len(),
{
    let f = |a: ResourceView| resource_wire(a);
    if xs.len() == 0 {
        assert(xs =~= Seq::<ResourceView>::empty());
        assert(xs.map_values(f) =~= Seq::<Seq<u8>>::empty());
    } else {
        let a = xs[0];
        let rest = xs.drop_first();
        assert(xs.map_values(f) =~= seq![resource_wire(a)] + rest.map_values(f));
        lemma_flatten_concat(seq![resource_wire(a)], rest.map_values(f));
        seq![resource_wire(a)].lemma_flatten_singleton();
        let s = answers_wire(xs) + t;
        assert(s =~= resource_wire(a) + (answers_wire(rest) + t));
        lemma_resource_round_trip(a, answers_wire(rest) + t);
        assert(s.skip(resource_wire(a).len() as int) =~= answers_wire(rest) + t);
        assert(forall|i: int| 0 <= i < rest.len() ==> rest[i] == xs[i + 1]);
        lemma_answers_round_trip(rest, t);
        assert(seq![a] + rest =~= xs);
    }
}

/// Decoding an encoded message, whatever follows it, gives the same message back and
/// consumes exactly the encoded bytes.
pub proof fn lemma_packet_round_trip(p: PacketView, t: Seq<u8>)
    requires
        valid_packet(p),
    ensures
        parse_packet(packet_wire(p) + t) == Ok::<(int, PacketView), DecodeError>((packet_wire(p).len() as int, p)),
{
    let hw = p.header.wire();
    let qw = questions_wire(p.questions);
    let aw = answers_wire(p.answers);
    let s = packet_wire(p) + t;
    assert(s =~= hw + (qw + (aw + t)));
    lemma_header_round_trip(p.header, qw + (aw + t));
    assert(s.skip(12) =~= qw + (aw + t));
    lemma_questions_round_trip(p.questions, aw + t);
    assert(s.skip(12int + qw.len()) =~= aw + t);
    lemma_answers_round_trip(p.answers, t);
}

impl Packet {
    /// A message with copies of this one's entries.
    pub fn duplicate(&self) -> (r: Packet)
        ensures
            r@ == self@,
    {
        let mut questions: Vec<Question> = Vec::new();
        let mut i: usize = 0;
        while i < self.questions.len()
            invariant
                i <= self.questions@.len(),
                questions_view(questions@) == questions_view(self.questions@).take(i as int),
            decreases self.questions@.len() - i,
        {
            let q = self.questions[i].duplicate();
            let ghost prev = questions@;
            questions.push(q);
            assert(questions_view(questions@) =~= questions_view(prev).push(q@));
            i += 1;
            assert(questions_view(questions@) =~= questions_view(self.questions@).take(i as int));
        }
        let mut answers: Vec<Resource> = Vec::new();
        let mut j: usize = 0;
        while j < self.answers.len()
            invariant
                j <= self.answers@.len(),
                answers_view(answers@) == answers_view(self.answers@).take(j as int),
            decreases self.answers@.len() - j,
        {
            let a = self.answers[j].duplicate();
            let ghost prev = answers@;
            answers.push(a);
            assert(answers_view(answers@) =~= answers_view(prev).push(a@));
            j += 1;
            assert(answers_view(answers@) =~= answers_view(self.answers@).take(j as int));
        }
        assert(questions_view(self.questions@).take(i as int) =~= questions_view(self.questions@));
        assert(answers_view(self.answers@).take(j as int) =~= answers_view(self.answers@));
        Packet { header: self.header, questions, answers }
    }
}

impl Bincode for Packet {
    open spec fn wire_of(v: PacketView) -> Seq<u8> {
        packet_wire(v)
    }

    open spec fn parse_of(s: Seq<u8>) -> Parsed<PacketView> {
        parse_packet(s)
    }

    /// Appends the header, each query entry in order, then each answer record in order.
    /// The counts written are the header's, whatever the entries.
    fn encode(&self, buf: &mut Vec<u8>) {
        self.header.encode(buf);
        let ghost hw = self.header.wire();
        let ghost fq = |q: QuestionView| question_wire(q);
        let ghost fa = |a: ResourceView| resource_wire(a);
        let mut i: usize = 0;
        while i < self.questions.len()
            invariant
                i <= self.questions@.len(),
                fq == (|q: QuestionView| question_wire(q)),
                buf@ == old(buf)@ + hw + self@.questions.take(i as int).map_values(fq).flatten(),
            decreases self.questions@.len() - i,
        {
            self.questions[i].encode(buf);
            proof {
                let qs = self@.questions;
                assert(qs.take(i + 1).map_values(fq) =~= qs.take(i as int).map_values(fq).push(
                    question_wire(qs[i as int]),
                ));
                qs.take(i as int).map_values(fq).lemma_flatten_push(question_wire(qs[i as int]));
            }
            i += 1;
            assert(buf@ =~= old(buf)@ + hw + self@.questions.take(i as int).map_values(fq).flatten());
        }
        assert(self@.questions.take(i as int) =~= self@.questions);
        let ghost mid = buf@;
        let mut j: usize = 0;
        while j < self.answers.len()
            invariant
                j <= self.answers@.len(),
                fa == (|a: ResourceView| resource_wire(a)),
                buf@ == mid + self@.answers.take(j as int).map_values(fa).flatten(),
            decreases self.answers@.len() - j,
        {
            self.answers[j].encode(buf);
            proof {
                let xs = self@.answers;
                assert(xs.take(j + 1).map_values(fa) =~= xs.take(j as int).map_values(fa).push(
                    resource_wire(xs[j as int]),
                ));
                xs.take(j as int).map_values(fa).lemma_flatten_push(resource_wire(xs[j as int]));
            }
            j += 1;
            assert(buf@ =~= mid + self@.answers.take(j as int).map_values(fa).flatten());
        }
        assert(self@.answers.take(j as int) =~= self@.answers);
        assert(buf@ =~= old(buf)@ + packet_wire(self@));
    }

    /// Reads a message from the front of `buf`: the header, then exactly as many query
    /// entries and answer records as it declares. The first entry that fails decides the
    /// error.
    fn decode(buf: &[u8]) -> (r: Result<(&[u8], Packet), DecodeError>) {
        let (after_header, header) = match Header::decode(buf) {
            Ok(x) => x,
            Err(e) => return Err(e),
        };
        let ghost s1 = after_header@;
        let mut questions: Vec<Question> = Vec::new();
        let mut rest = after_header;
        let mut i: u16 = 0;
        while i < header.qd_count
            invariant
                parse_header(buf@) == Ok::<(int, Header), DecodeError>((12, header)),
                s1 == buf@.skip(12),
                i <= header.qd_count,
                rest@.len() <= s1.len(),
                rest@ == s1.skip(s1.len() - rest@.len()),
                parse_questions(s1, header.qd_count as nat) == prefixed(
                    questions_view(questions@),
                    s1.len() - rest@.len(),
                    parse_questions(rest@, (header.qd_count - i) as nat),
                ),
            decreases header.qd_count - i,
        {
            let ghost k = s1.len() - rest@.len();
            let (next, q) = match Question::decode(rest) {
                Ok(x) => x,
                Err(e) => {
                    assert(parse_questions(rest@, (header.qd_count - i) as nat) == Err::<
                        (int, Seq<QuestionView>),
                        DecodeError,
                    >(e));
                    return Err(e);
                },
            };
            let ghost n = rest@.len() - next@.len();
            proof {
                lemma_prefixed_twice(
                    questions_view(questions@),
                    k,
                    seq![q@],
                    n,
                    parse_questions(next@, (header.qd_count - i - 1) as nat),
                );
                assert(next@ =~= s1.skip(s1.len() - next@.len()));
            }
            let ghost prev = questions@;
            questions.push(q);
            assert(questions_view(questions@) =~= questions_view(prev) + seq![q@]);
            rest = next;
            i += 1;
        }
        let ghost n2 = s1.len() - rest@.len();
        assert(rest@ =~= buf@.skip(12 + n2));
        assert(questions_view(questions@) + Seq::<QuestionView>::empty() =~= questions_view(questions@));
        let ghost s2 = rest@;
        let mut answers: Vec<Resource> = Vec::new();
        let mut j: u16 = 0;
        while j < header.an_count
            invariant
                parse_header(buf@) == Ok::<(int, Header), DecodeError>((12, header)),
                s1 == buf@.skip(12),
                parse_questions(s1, header.qd_count as nat) == Ok::<(int, Seq<QuestionView>), DecodeError>((n2, questions_view(questions@))),
                s2 == buf@.skip(12 + n2),
                0 <= n2 <= s1.len(),
                j <= header.an_count,
                rest@.len() <= s2.len(),
                rest@ == s2.skip(s2.len() - rest@.len()),
                parse_answers(s2, header.an_count as nat) == prefixed(
                    answers_view(answers@),
                    s2.len() - rest@.len(),
                    parse_answers(rest@, (header.an_count - j) as nat),
                ),
            decreases header.an_count - j,
        {
            let ghost k = s2.len() - rest@.len();
            let (next, a) = match Resource::decode(rest) {
                Ok(x) => x,
                Err(e) => {
                    assert(parse_answers(rest@, (header.an_count - j) as nat) == Err::<
                        (int, Seq<ResourceView>),
                        DecodeError,
                    >(e));
                    return Err(e);
                },
            };
            let ghost n = rest@.len() - next@.len();
            proof {
                lemma_prefixed_twice(
                    answers_view(answers@),
                    k,
                    seq![a@],
                    n,
                    parse_answers(next@, (header.an_count - j - 1) as nat),
                );
                assert(next@ =~= s2.skip(s2.len() - next@.len()));
            }
            let ghost prev = answers@;
            answers.push(a);
            assert(answers_view(answers@) =~= answers_view(prev) + seq![a@]);
            rest = next;
            j += 1;
        }
        let ghost n3 = s2.len() - rest@.len();
        assert(rest@ =~= buf@.skip(12 + n2 + n3));
        assert(answers_view(answers@) + Seq::<ResourceView>::empty() =~= answers_view(answers@));
        Ok((rest, Packet { header, questions, answers }))
    }
}

} // verus!
