use dns_codec::{transform, Class, Forward, Header, IdCounter, Name, Packet, Question, RData, Resource, Side, Type};

fn name_of(labels: &[&str]) -> Name {
    Name::new(labels.iter().map(|l| l.as_bytes().to_vec()).collect())
}

fn query(id: u16, opcode: u8, names: &[&[&str]]) -> Packet {
    let mut header = Header::default();
    header.id = id;
    header.set_opcode(opcode);
    header.qd_count = names.len() as u16;
    Packet {
        header,
        questions: names
            .iter()
            .map(|n| Question { name: name_of(n), ty: Type::A, class: Class::In })
            .collect(),
        answers: vec![],
    }
}

#[test]
fn local_answer_scenario() {
    let inbound = query(0x1234, 0, &[&["codecrafters", "io"]]);
    let res = transform(inbound);
    assert_eq!(res.header.id, 0x1234);
    assert_eq!(res.header.side(), Side::Response);
    assert_eq!(res.header.qd_count, 1);
    assert_eq!(res.header.an_count, 1);
    assert_eq!(res.header.rcode(), 0);
    assert_eq!(res.answers.len(), 1);
    let a = &res.answers[0];
    assert_eq!(a.name, name_of(&["codecrafters", "io"]));
    assert_eq!(a.ty, Type::A);
    assert_eq!(a.class, Class::In);
    assert_eq!(a.ttl, 60);
    assert_eq!(a.data.bytes(), &vec![8, 8, 8, 8]);
}

#[test]
fn local_answers_one_per_question() {
    let inbound = query(9, 0, &[&["a"], &["b", "c"], &["d"]]);
    let res = transform(inbound.clone());
    assert_eq!(res.answers.len(), 3);
    assert_eq!(res.header.an_count, 3);
    assert_eq!(res.questions, inbound.questions);
    for (q, a) in inbound.questions.iter().zip(res.answers.iter()) {
        assert_eq!(a.name, q.name);
        assert_eq!(a.ty, q.ty);
        assert_eq!(a.ttl, 60);
        assert_eq!(a.data, RData::from_ipv4([8, 8, 8, 8]));
    }
    let empty = transform(query(1, 0, &[]));
    assert_eq!(empty.answers.len(), 0);
    assert_eq!(empty.header.an_count, 0);
}

#[test]
fn nonzero_opcode_is_not_implemented() {
    let res = transform(query(5, 1, &[&["x", "y"]]));
    assert_eq!(res.header.rcode(), 4);
    assert_eq!(res.header.opcode(), 1);
    assert_eq!(res.header.side(), Side::Response);
    let res = transform(query(5, 2, &[]));
    assert_eq!(res.header.rcode(), 4);
}

#[test]
fn id_counter_counts_and_wraps() {
    let mut ids = IdCounter::new();
    assert_eq!(ids.next_id(), 0);
    assert_eq!(ids.next_id(), 1);
    assert_eq!(ids.current(), 2);
    let mut top = IdCounter::starting_at(u16::MAX);
    assert_eq!(top.next_id(), u16::MAX);
    assert_eq!(top.next_id(), 0);
}

#[test]
fn forwarding_merges_answers_in_order() {
    let inbound = query(0x4242, 0, &[&["first"], &["second"]]);
    let mut fwd = Forward::start(inbound.clone());
    let mut ids = IdCounter::starting_at(10);
    let mut seen = Vec::new();
    while let Some(req) = fwd.next_request(&mut ids) {
        assert_eq!(req.header.qd_count, 1);
        assert_eq!(req.questions.len(), 1);
        seen.push(req.header.id);
        let q = &req.questions[0];
        let mut reply = req.clone();
        reply.header.set_side(Side::Response);
        reply.answers = vec![Resource {
            name: q.name.clone(),
            ty: q.ty,
            class: q.class,
            ttl: 30,
            data: RData::from_ipv4([1, 2, 3, seen.len() as u8]),
        }];
        fwd.on_reply(reply);
    }
    assert!(fwd.is_done());
    assert_eq!(seen, vec![10, 11]);
    let res = fwd.finish();
    assert_eq!(res.header.id, 0x4242);
    assert_eq!(res.header.side(), Side::Response);
    assert_eq!(res.header.an_count, 2);
    assert_eq!(res.questions, inbound.questions);
    assert_eq!(res.answers[0].name, name_of(&["first"]));
    assert_eq!(res.answers[0].data.bytes(), &vec![1, 2, 3, 1]);
    assert_eq!(res.answers[1].name, name_of(&["second"]));
    assert_eq!(res.answers[1].data.bytes(), &vec![1, 2, 3, 2]);
}
