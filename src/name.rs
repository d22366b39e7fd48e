//! Domain names: sequences of length-prefixed labels ended by a zero byte.
use vstd::prelude::*;
use vstd::seq_lib::lemma_flatten_concat;
use vstd::slice::slice_to_vec;
use crate::wire::{Bincode, decoded, lemma_prefixed_twice, prefixed, put_bytes, take_bytes, take_u8, viewed, DecodeError, Parsed};

verus! {

/// A name as its labels, possibly still waiting for a compression pointer to be resolved.
#[derive(Debug, PartialEq, Eq, Clone)]
pub struct Name {
    name: Vec<Vec<u8>>,
    offset: Option<u16>,
}

/// The byte contents of each label.
pub open spec fn labels_view(v: Seq<Vec<u8>>) -> Seq<Seq<u8>> {
    v.map_values(|l: Vec<u8>| l@)
}

/// Every label fits its one-byte length and is not empty (an empty one would read back
/// as the terminator).
pub open spec fn valid_labels(ls: Seq<Seq<u8>>) -> bool {
    forall|i: int| 0 <= i < ls.len() ==> 0 < #[trigger] ls[i].len() <= 255
}

/// One label on the wire: its length byte, then its bytes.
pub open spec fn label_wire(l: Seq<u8>) -> Seq<u8> {
    seq![l.len() as u8] + l
}

/// A name on the wire: each label in order, then a zero byte.
pub open spec fn name_wire(ls: Seq<Seq<u8>>) -> Seq<u8> {
    ls.map_values(|l: Seq<u8>| label_wire(l)).flatten() + seq![0u8]
}

/// Reads labels from the front of `s` up to and including a zero length byte.
pub open spec fn parse_name(s: Seq<u8>) -> Parsed<Seq<Seq<u8>>>
    decreases s.len(),
{
    if s.len() == 0 {
        Err(DecodeError::InsufficientData)
    } else if s[0] == 0 {
        Ok((1, Seq::empty()))
    } else if s.len() < 1 + s[0] {
        Err(DecodeError::InsufficientData)
    } else {
        prefixed(seq![s.subrange(1, 1 + s[0])], 1 + s[0], parse_name(s.skip(1 + s[0])))
    }
}

/// The labels found in `p` from `off` on: a run of length-prefixed labels that stops at a
/// zero length byte, at the end of `p`, or before a label that would run past the end.
pub open spec fn scan_labels(p: Seq<u8>, off: int) -> Seq<Seq<u8>>
    decreases p.len() - off,
{
    if off < 0 || off >= p.len() || p[off] == 0 || off + 1 + p[off] > p.len() {
        Seq::empty()
    } else {
        seq![p.subrange(off + 1, off + 1 + p[off])] + scan_labels(p, off + 1 + p[off])
    }
}

/// Decoding an encoded name, whatever follows it, gives its labels back and consumes
/// exactly the encoded bytes.
pub proof fn lemma_name_round_trip(ls: Seq<Seq<u8>>, t: Seq<u8>)
    requires
        valid_labels(ls),
    ensures
        parse_name(name_wire(ls) + t) == Ok::<(int, Seq<Seq<u8>>), DecodeError>((name_wire(ls).len() as int, ls)),
    decreases ls.len(),
{
    let f = |l: Seq<u8>| label_wire(l);
    let s = name_wire(ls) + t;
    if ls.len() == 0 {
        assert(ls.map_values(f) =~= Seq::<Seq<u8>>::empty());
        assert(s[0] == 0);
        assert(ls =~= Seq::<Seq<u8>>::empty());
        assert(name_wire(ls).len() == 1);
    } else {
        let l = ls[0];
        let rest = ls.drop_first();
        assert(ls.map_values(f) =~= seq![label_wire(l)] + rest.map_values(f));
        lemma_flatten_concat(seq![label_wire(l)], rest.map_values(f));
        seq![label_wire(l)].lemma_flatten_singleton();
        assert(name_wire(ls) =~= label_wire(l) + name_wire(rest));
        assert(valid_labels(rest)) by {
            assert forall|i: int| 0 <= i < rest.len() implies 0 < #[trigger] rest[i].len() <= 255 by {
                assert(rest[i] == ls[i + 1]);
            }
        }
        assert(0 < l.len() <= 255) by {
            assert(ls[0] == l);
        }
        let n = l.len() as int;
        assert(s[0] == n);
        assert(s.subrange(1, 1 + n) =~= l);
        assert(s.skip(1 + n) =~= name_wire(rest) + t);
        lemma_name_round_trip(rest, t);
        assert(parse_name(s) == prefixed(seq![l], 1 + n, parse_name(name_wire(rest) + t)));
        assert(seq![l] + rest =~= ls);
        assert(name_wire(ls).len() == 1 + n + name_wire(rest).len());
    }
}

/// Decoding stops with too little data on any proper prefix of an encoded name: cut inside
/// a label or before the terminating zero byte.
pub proof fn lemma_name_truncated(ls: Seq<Seq<u8>>, k: int)
    requires
        valid_labels(ls),
        0 <= k < name_wire(ls).len(),
    ensures
        parse_name(name_wire(ls).take(k)) == Err::<(int, Seq<Seq<u8>>), DecodeError>(DecodeError::InsufficientData),
    decreases ls.len(),
{
    let f = |l: Seq<u8>| label_wire(l);
    let s = name_wire(ls).take(k);
    if ls.len() == 0 {
        assert(ls.map_values(f) =~= Seq::<Seq<u8>>::empty());
        assert(name_wire(ls).len() == 1);
    } else if k > 0 {
        let l = ls[0];
        let rest = ls.drop_first();
        assert(ls.map_values(f) =~= seq![label_wire(l)] + rest.map_values(f));
        lemma_flatten_concat(seq![label_wire(l)], rest.map_values(f));
        seq![label_wire(l)].lemma_flatten_singleton();
        assert(name_wire(ls) =~= label_wire(l) + name_wire(rest));
        assert(valid_labels(rest)) by {
            assert forall|i: int| 0 <= i < rest.len() implies 0 < #[trigger] rest[i].len() <= 255 by {
                assert(rest[i] == ls[i + 1]);
            }
        }
        assert(0 < l.len() <= 255) by {
            assert(ls[0] == l);
        }
        let n = l.len() as int;
        assert(s[0] == n);
        if k >= 1 + n {
            assert(s.skip(1 + n) =~= name_wire(rest).take(k - 1 - n));
            lemma_name_truncated(rest, k - 1 - n);
        }
    }
}

impl View for Name {
    type V = Seq<Seq<u8>>;

    closed spec fn view(&self) -> Seq<Seq<u8>> {
        labels_view(self.name@)
    }
}

impl Name {
    /// The compression pointer still to be resolved, if any.
    pub closed spec fn pending(&self) -> Option<u16> {
        self.offset
    }

    /// A complete name with the given labels.
    pub fn new(labels: Vec<Vec<u8>>) -> (r: Name)
        ensures
            r@ == labels_view(labels@),
            r.pending() is None,
    {
        Name { name: labels, offset: None }
    }

    /// A name with no labels yet, whose labels stand at `offset` of the message it came in.
    pub fn pointer(offset: u16) -> (r: Name)
        ensures
            r@ == Seq::<Seq<u8>>::empty(),
            r.pending() == Some(offset),
    {
        Name { name: Vec::new(), offset: Some(offset) }
    }

    /// The labels.
    pub fn labels(&self) -> (r: &Vec<Vec<u8>>)
        ensures
            labels_view(r@) == self@,
    {
        &self.name
    }

    /// The compression pointer still to be resolved, if any.
    pub fn offset(&self) -> (r: Option<u16>)
        ensures
            r == self.pending(),
    {
        self.offset
    }

    /// A name with the same labels and the same pending pointer.
    pub fn duplicate(&self) -> (r: Name)
        ensures
            r@ == self@,
            r.pending() == self.pending(),
    {
        let mut name: Vec<Vec<u8>> = Vec::new();
        let mut i: usize = 0;
        while i < self.name.len()
            invariant
                i <= self.name@.len(),
                labels_view(name@) == labels_view(self.name@).take(i as int),
            decreases self.name@.len() - i,
        {
            let label = slice_to_vec(self.name[i].as_slice());
            let ghost prev = name@;
            assert(label@ == labels_view(self.name@)[i as int]);
            name.push(label);
            assert(labels_view(name@) =~= labels_view(prev).push(label@));
            i += 1;
            assert(labels_view(name@) =~= labels_view(self.name@).take(i as int));
        }
        assert(labels_view(self.name@).take(i as int) =~= labels_view(self.name@));
        Name { name, offset: self.offset }
    }

    /// Resolves a pending compression pointer against the whole message `packet`: the labels
    /// found there from the pointer's offset on are appended and the pointer is dropped. A
    /// name without a pending pointer is left as it is.
    pub fn abs(&mut self, packet: &[u8])
        ensures
            final(self).pending() is None,
            old(self).pending() is None ==> final(self)@ == old(self)@,
            old(self).pending() is Some ==> final(self)@ == old(self)@ + scan_labels(
                packet@,
                old(self).pending()->Some_0 as int,
            ),
    {
        if let Some(start) = self.offset {
            let mut offset = start as usize;
            self.offset = None;
            let ghost base = self@;
            loop
                invariant
                    self.offset is None,
                    base + scan_labels(packet@, start as int) == self@ + scan_labels(
                        packet@,
                        offset as int,
                    ),
                ensures
                    self.offset is None,
                    self@ == base + scan_labels(packet@, start as int),
                decreases packet@.len() - offset,
            {
                if offset >= packet.len() {
                    assert(self@ + Seq::<Seq<u8>>::empty() =~= self@);
                    break;
                }
                let len = packet[offset] as usize;
                if len == 0 || len > packet.len() - offset - 1 {
                    assert(self@ + Seq::<Seq<u8>>::empty() =~= self@);
                    break;
                }
                let part = slice_to_vec(&packet[offset + 1..offset + 1 + len]);
                let ghost prev = self@;
                let ghost next = offset + 1 + len;
                assert(scan_labels(packet@, offset as int) == seq![part@] + scan_labels(packet@, next));
                self.name.push(part);
                assert(self@ =~= prev + seq![part@]);
                assert(prev + (seq![part@] + scan_labels(packet@, next)) =~= self@ + scan_labels(packet@, next));
                offset = offset + 1 + len;
            }
        }
    }
}

impl Bincode for Name {
    open spec fn wire_of(v: Seq<Seq<u8>>) -> Seq<u8> {
        name_wire(v)
    }

    open spec fn parse_of(s: Seq<u8>) -> Parsed<Seq<Seq<u8>>> {
        parse_name(s)
    }

    /// Appends the name's labels, each after its length byte, then a zero byte.
    fn encode(&self, buf: &mut Vec<u8>) {
        let ghost f = |l: Seq<u8>| label_wire(l);
        let mut i: usize = 0;
        while i < self.name.len()
            invariant
                i <= self.name@.len(),
                f == (|l: Seq<u8>| label_wire(l)),
                buf@ == old(buf)@ + self@.take(i as int).map_values(f).flatten(),
            decreases self.name@.len() - i,
        {
            let label = &self.name[i];
            buf.push(label.len() as u8);
            put_bytes(buf, label.as_slice());
            proof {
                let ls = self@;
                assert(ls.take(i + 1).map_values(f) =~= ls.take(i as int).map_values(f).push(
                    label_wire(ls[i as int]),
                ));
                ls.take(i as int).map_values(f).lemma_flatten_push(label_wire(ls[i as int]));
                assert(ls[i as int] == label@);
            }
            i += 1;
            assert(buf@ =~= old(buf)@ + self@.take(i as int).map_values(f).flatten());
        }
        buf.push(0);
        assert(self@.take(i as int) =~= self@);
        assert(buf@ =~= old(buf)@ + name_wire(self@));
    }

    /// Reads a name from the front of `buf`, returning what follows it.
    fn decode(buf: &[u8]) -> (r: Result<(&[u8], Name), DecodeError>) {
        let mut name: Vec<Vec<u8>> = Vec::new();
        let mut rest = buf;
        loop
            invariant
                rest@.len() <= buf@.len(),
                rest@ == buf@.skip(buf@.len() - rest@.len()),
                parse_name(buf@) == prefixed(
                    labels_view(name@),
                    buf@.len() - rest@.len(),
                    parse_name(rest@),
                ),
            decreases rest@.len(),
        {
            let ghost k = buf@.len() - rest@.len();
            let (after_len, len) = match take_u8(rest) {
                Ok(x) => x,
                Err(e) => return Err(e),
            };
            if len == 0 {
                assert(after_len@ =~= buf@.skip(k + 1));
                assert(labels_view(name@) + Seq::<Seq<u8>>::empty() =~= labels_view(name@));
                return Ok((after_len, Name { name, offset: None }));
            }
            let (after_label, label) = match take_bytes(after_len, len as usize) {
                Ok(x) => x,
                Err(e) => {
                    return Err(e);
                },
            };
            proof {
                lemma_prefixed_twice(
                    labels_view(name@),
                    k,
                    seq![label@],
                    1 + len,
                    parse_name(after_label@),
                );
                assert(rest@.subrange(1, 1 + len) =~= label@);
                assert(rest@.skip(1 + len) =~= after_label@);
                assert(after_label@ =~= buf@.skip(buf@.len() - after_label@.len()));
            }
            let ghost prev = name@;
            let ghost lv = label@;
            name.push(label);
            assert(labels_view(name@) =~= labels_view(prev) + seq![lv]);
            rest = after_label;
        }
    }
}

} // verus!
