//! A protocol for moving a node from one process to another.
//!
//! The sender starts with the record of the node, without any of its
//! ancestors. The receiver then asks for the records of the ancestors that it
//! does not have, one at a time, until the node can be attached to the nodes
//! of the receiver.
//!
//! This module holds the decisions of the two sides: what to send in answer
//! to a message. Sending and receiving is left to the caller.

use crate::detached::{record_cloned, Detached, DetachedInnerData, Record};
use crate::hash_id::RelRcHash;
use crate::node::{Arena, RelRc};
use vstd::pervasive::cloned;
use vstd::prelude::*;

verus! {

/// The mode of communication for moving nodes.
#[derive(Debug, Clone, Copy, PartialEq, Eq, Structural, Default)]
pub enum MPIMode {
    /// Standard communication: the transport chooses whether a send blocks.
    #[default]
    Standard,
    /// Buffered communication: a send returns at once, as long as the buffer
    /// has room.
    Buffered,
    /// Asynchronous communication: a receive polls.
    Async,
}

/// The kinds of messages, by which the two sides tell them apart.
#[derive(Debug, Clone, Copy, PartialEq, Eq, Structural)]
pub enum MPIMessageTag {
    /// The content identity of the record that follows.
    RelRc,
    /// The value of a node.
    NodeWeight,
    /// The content identities of the parents of a node.
    IncomingEdge,
    /// The value of an edge.
    EdgeWeight,
    /// The request for a record.
    RequestRelRc,
    /// The end of the exchange.
    Done,
}

impl MPIMessageTag {
    /// The number that stands for the tag on the wire.
    pub open spec fn code_spec(self) -> i32 {
        match self {
            MPIMessageTag::RelRc => 0,
            MPIMessageTag::NodeWeight => 1,
            MPIMessageTag::IncomingEdge => 2,
            MPIMessageTag::EdgeWeight => 3,
            MPIMessageTag::RequestRelRc => 100,
            MPIMessageTag::Done => 200,
        }
    }

    /// The number that stands for the tag on the wire.
    pub fn code(&self) -> (c: i32)
        ensures
            c == self.code_spec(),
    {
        match self {
            MPIMessageTag::RelRc => 0,
            MPIMessageTag::NodeWeight => 1,
            MPIMessageTag::IncomingEdge => 2,
            MPIMessageTag::EdgeWeight => 3,
            MPIMessageTag::RequestRelRc => 100,
            MPIMessageTag::Done => 200,
        }
    }

    /// The tag that a number stands for, if it stands for one.
    pub fn try_from(value: i32) -> (r: Result<MPIMessageTag, ()>)
        ensures
            r matches Ok(t) ==> t.code_spec() == value,
            r is Err ==> forall|t: MPIMessageTag| t.code_spec() != value,
    {
        if value == 0 {
            Ok(MPIMessageTag::RelRc)
        } else if value == 1 {
            Ok(MPIMessageTag::NodeWeight)
        } else if value == 2 {
            Ok(MPIMessageTag::IncomingEdge)
        } else if value == 3 {
            Ok(MPIMessageTag::EdgeWeight)
        } else if value == 100 {
            Ok(MPIMessageTag::RequestRelRc)
        } else if value == 200 {
            Ok(MPIMessageTag::Done)
        } else {
            Err(())
        }
    }
}

/// What a message is, as a mathematical value.
pub enum Message<N, E> {
    RelRc(RelRcHash),
    NodeWeight(N),
    IncomingEdge(Seq<RelRcHash>),
    EdgeWeight(E),
    RequestRelRc(RelRcHash),
    Done,
}

impl<N, E> Message<N, E> {
    /// The tag of the message.
    pub open spec fn tag(self) -> MPIMessageTag {
        match self {
            Message::RelRc(_) => MPIMessageTag::RelRc,
            Message::NodeWeight(_) => MPIMessageTag::NodeWeight,
            Message::IncomingEdge(_) => MPIMessageTag::IncomingEdge,
            Message::EdgeWeight(_) => MPIMessageTag::EdgeWeight,
            Message::RequestRelRc(_) => MPIMessageTag::RequestRelRc,
            Message::Done => MPIMessageTag::Done,
        }
    }
}

/// A message of the protocol.
#[derive(Debug, Clone, PartialEq, Eq)]
pub enum MPIMessage<N, E> {
    /// The content identity of the record that follows.
    RelRc(RelRcHash),
    /// The value of the node of the record.
    NodeWeight(N),
    /// The content identities of the parents of the node of the record.
    IncomingEdge(Vec<RelRcHash>),
    /// The value of an incoming edge of the node of the record.
    EdgeWeight(E),
    /// The request for the record with the given content identity.
    RequestRelRc(RelRcHash),
    /// The end of the exchange: the receiver has all it needs.
    Done,
}

impl<N, E> View for MPIMessage<N, E> {
    type V = Message<N, E>;

    open spec fn view(&self) -> Message<N, E> {
        match self {
            MPIMessage::RelRc(h) => Message::RelRc(*h),
            MPIMessage::NodeWeight(v) => Message::NodeWeight(*v),
            MPIMessage::IncomingEdge(ps) => Message::IncomingEdge(ps@),
            MPIMessage::EdgeWeight(e) => Message::EdgeWeight(*e),
            MPIMessage::RequestRelRc(h) => Message::RequestRelRc(*h),
            MPIMessage::Done => Message::Done,
        }
    }
}

impl<N, E> MPIMessage<N, E> {
    /// The tag of the message.
    pub fn tag(&self) -> (t: MPIMessageTag)
        ensures
            t == self@.tag(),
    {
        match self {
            MPIMessage::RelRc(_) => MPIMessageTag::RelRc,
            MPIMessage::NodeWeight(_) => MPIMessageTag::NodeWeight,
            MPIMessage::IncomingEdge(_) => MPIMessageTag::IncomingEdge,
            MPIMessage::EdgeWeight(_) => MPIMessageTag::EdgeWeight,
            MPIMessage::RequestRelRc(_) => MPIMessageTag::RequestRelRc,
            MPIMessage::Done => MPIMessageTag::Done,
        }
    }
}

/// The messages that carry a record, in their order: the content identity,
/// the value of the node, the content identities of the parents, and the value
/// of each incoming edge.
pub open spec fn encoding<N, E>(hash: RelRcHash, record: Record<N, E>) -> Seq<Message<N, E>> {
    seq![
        Message::RelRc(hash),
        Message::NodeWeight(record.value),
        Message::IncomingEdge(record.incoming.map_values(|e: (RelRcHash, E)| e.0)),
    ] + record.incoming.map_values(|e: (RelRcHash, E)| Message::EdgeWeight(e.1))
}

/// The tag of the message that comes next for a record of which the messages
/// `fed` have come: the content identity, then the value of the node, then
/// the list of the parents, then the values of the edges.
pub open spec fn next_tag<N, E>(fed: Seq<Message<N, E>>) -> MPIMessageTag {
    if fed.len() == 0 {
        MPIMessageTag::RelRc
    } else if fed.len() == 1 {
        MPIMessageTag::NodeWeight
    } else if fed.len() == 2 {
        MPIMessageTag::IncomingEdge
    } else {
        MPIMessageTag::EdgeWeight
    }
}

/// Whether the message, which has the tag that comes next, completes the
/// record of which the messages `fed` have come: it is an empty list of
/// parents, or the value of the last edge of a node with `n` parents, which
/// is the message 3 + `n`.
pub open spec fn completes<N, E>(fed: Seq<Message<N, E>>, message: Message<N, E>) -> bool {
    match message {
        Message::IncomingEdge(ps) => fed.len() == 2 && ps.len() == 0,
        _ => fed.len() >= 3 && (fed[2] matches Message::IncomingEdge(ps) && fed.len() + 1 == 3
            + ps.len()),
    }
}

/// The content identity that the first message of a record names.
pub open spec fn hash_in<N, E>(messages: Seq<Message<N, E>>) -> RelRcHash {
    match messages[0] {
        Message::RelRc(h) => h,
        _ => arbitrary(),
    }
}

/// The record that the messages of a record carry: the value of the second
/// message, and for each parent that the third message names the value of
/// the edge, which the message at its place after the third carries.
pub open spec fn record_in<N, E>(messages: Seq<Message<N, E>>) -> Record<N, E> {
    Record {
        value: match messages[1] {
            Message::NodeWeight(v) => v,
            _ => arbitrary(),
        },
        incoming: match messages[2] {
            Message::IncomingEdge(ps) => Seq::new(
                ps.len(),
                |k: int|
                    (
                        ps[k],
                        match messages[3 + k] {
                            Message::EdgeWeight(e) => e,
                            _ => arbitrary(),
                        },
                    ),
            ),
            _ => Seq::empty(),
        },
    }
}

/// What is read off the messages that carry a record is the record, and its
/// content identity.
pub proof fn lemma_read_back<N, E>(hash: RelRcHash, record: Record<N, E>)
    ensures
        hash_in(encoding(hash, record)) == hash,
        record_in(encoding(hash, record)) == record,
{
    let all = encoding(hash, record);
    let ps = record.incoming.map_values(|e: (RelRcHash, E)| e.0);
    assert(all[0] == Message::<N, E>::RelRc(hash));
    assert(all[1] == Message::<N, E>::NodeWeight(record.value));
    assert(all[2] == Message::<N, E>::IncomingEdge(ps));
    let read = record_in(all);
    assert(read.incoming.len() == record.incoming.len());
    assert forall|k: int| 0 <= k < record.incoming.len() implies read.incoming[k]
        == record.incoming[k] by {
        assert(all[3 + k] == Message::<N, E>::EdgeWeight(record.incoming[k].1));
        assert(ps[k] == record.incoming[k].0);
    }
    assert(read.incoming =~= record.incoming);
}

/// Whether the messages carry a clone of the record, under the content
/// identity `hash`.
pub open spec fn carries<N: Clone, E: Clone>(
    messages: Seq<Message<N, E>>,
    hash: RelRcHash,
    record: Record<N, E>,
) -> bool {
    exists|sent: Record<N, E>| record_cloned(record, sent) && #[trigger] encoding(hash, sent) == messages
}

/// The messages that carry the record, in the order in which they are to be
/// sent.
pub fn mpi_send<N: Clone, E: Clone>(hash: RelRcHash, data: &DetachedInnerData<N, E>) -> (messages:
    Vec<MPIMessage<N, E>>)
    ensures
        carries(messages@.map_values(|m: MPIMessage<N, E>| m@), hash, data@),
{
    let mut messages: Vec<MPIMessage<N, E>> = Vec::new();
    messages.push(MPIMessage::RelRc(hash));
    let value = data.value.clone();
    messages.push(MPIMessage::NodeWeight(value));
    let parents = data.parents();
    messages.push(MPIMessage::IncomingEdge(parents));
    let ghost mut sent: Seq<(RelRcHash, E)> = Seq::empty();
    let mut k: usize = 0;
    while k < data.incoming.len()
        invariant
            k <= data.incoming@.len(),
            messages@.len() == 3 + k,
            sent.len() == k,
            messages@[0]@ == Message::<N, E>::RelRc(hash),
            messages@[1]@ == Message::<N, E>::NodeWeight(value),
            messages@[2]@ == Message::<N, E>::IncomingEdge(
                data@.incoming.map_values(|e: (RelRcHash, E)| e.0),
            ),
            forall|k2: int|
                0 <= k2 < k ==> (#[trigger] sent[k2]).0 == data@.incoming[k2].0 && cloned(
                    data@.incoming[k2].1,
                    sent[k2].1,
                ) && messages@[3 + k2]@ == Message::<N, E>::EdgeWeight(sent[k2].1),
        decreases data.incoming@.len() - k,
    {
        let e = data.incoming[k].1.clone();
        proof {
            sent = sent.push((data.incoming@[k as int].0, e));
        }
        messages.push(MPIMessage::EdgeWeight(e));
        k += 1;
    }
    proof {
        let record = Record { value, incoming: sent };
        assert(record_cloned(data@, record));
        assert(sent.map_values(|e: (RelRcHash, E)| e.0) =~= data@.incoming.map_values(
            |e: (RelRcHash, E)| e.0,
        ));
        assert(messages@.map_values(|m: MPIMessage<N, E>| m@) =~= encoding(hash, record));
    }
    messages
}

/// What went wrong in an exchange.
#[derive(Debug, Clone, Copy, PartialEq, Eq, Structural)]
pub enum ProtocolError {
    /// A message came that is not the one that the protocol has next.
    UnexpectedMessage,
    /// A record was asked for that the sender does not have.
    UnknownHash,
}

/// The receiving end of a record: it takes the messages that carry a record
/// one by one and hands out the record when it is complete.
pub struct RecordDecoder<N, E> {
    hash: Option<RelRcHash>,
    value: Option<N>,
    parents: Option<Vec<RelRcHash>>,
    edges: Vec<E>,
}

impl<N, E> RecordDecoder<N, E> {
    /// The invariant of the decoder: the parts of the record have come in
    /// their order, and the record is not complete.
    pub closed spec fn wf(&self) -> bool {
        &&& self.value is Some ==> self.hash is Some
        &&& self.parents is Some ==> self.value is Some
        &&& self.parents is None ==> self.edges@.len() == 0
        &&& self.parents matches Some(ps) ==> self.edges@.len() < ps@.len()
    }

    /// The messages that the decoder has taken for the record that it is
    /// waiting for.
    pub closed spec fn fed(&self) -> Seq<Message<N, E>> {
        (match self.hash {
            Some(h) => seq![Message::RelRc(h)],
            None => Seq::empty(),
        }) + (match self.value {
            Some(v) => seq![Message::NodeWeight(v)],
            None => Seq::empty(),
        }) + (match self.parents {
            Some(ps) => seq![Message::IncomingEdge(ps@)],
            None => Seq::empty(),
        }) + self.edges@.map_values(|e: E| Message::EdgeWeight(e))
    }

    /// The tag of the message that the decoder takes next.
    pub closed spec fn expects(&self) -> MPIMessageTag {
        if self.hash is None {
            MPIMessageTag::RelRc
        } else if self.value is None {
            MPIMessageTag::NodeWeight
        } else if self.parents is None {
            MPIMessageTag::IncomingEdge
        } else {
            MPIMessageTag::EdgeWeight
        }
    }

    /// The decoder takes the messages of a record in their order: what it
    /// takes next goes by what it has taken.
    pub proof fn lemma_expects(&self)
        requires
            self.wf(),
        ensures
            self.expects() == next_tag(self.fed()),
            self.fed().len() >= 3 ==> self.fed()[2] is IncomingEdge,
    {
    }

    /// A decoder that waits for the first message of a record.
    pub fn new() -> (d: Self)
        ensures
            d.wf(),
            d.fed() == Seq::<Message<N, E>>::empty(),
            d.expects() == MPIMessageTag::RelRc,
    {
        let d = RecordDecoder { hash: None, value: None, parents: None, edges: Vec::new() };
        assert(d.fed() =~= Seq::<Message<N, E>>::empty());
        d
    }

    /// The tag of the message that the decoder takes next.
    pub fn expected_tag(&self) -> (t: MPIMessageTag)
        ensures
            t == self.expects(),
    {
        if self.hash.is_none() {
            MPIMessageTag::RelRc
        } else if self.value.is_none() {
            MPIMessageTag::NodeWeight
        } else if self.parents.is_none() {
            MPIMessageTag::IncomingEdge
        } else {
            MPIMessageTag::EdgeWeight
        }
    }

    /// Takes the next message of a record.
    ///
    /// A message with another tag than the expected one is refused, and the
    /// decoder stays as it is. When the message completes the record, the
    /// record is returned with its content identity and the decoder waits for
    /// the next record.
    pub fn feed(&mut self, message: MPIMessage<N, E>) -> (r: Result<
        Option<(RelRcHash, DetachedInnerData<N, E>)>,
        ProtocolError,
    >)
        requires
            old(self).wf(),
        ensures
            final(self).wf(),
            r is Err <==> message@.tag() != old(self).expects(),
            r matches Err(e) ==> e == ProtocolError::UnexpectedMessage && *final(self) == *old(self),
            r matches Ok(None) ==> final(self).fed() == old(self).fed().push(message@)
                && final(self).fed().len() > 0,
            r matches Ok(Some(done)) ==> old(self).fed().push(message@) == encoding(
                done.0,
                done.1@,
            ) && final(self).fed() == Seq::<Message<N, E>>::empty() && done.0 == hash_in(
                old(self).fed().push(message@),
            ) && done.1@ == record_in(old(self).fed().push(message@)),
            r is Ok ==> (r matches Ok(Some(_)) <==> completes(old(self).fed(), message@)),
            old(self).expects() == next_tag(old(self).fed()),
            final(self).expects() == next_tag(final(self).fed()),
    {
        proof {
            old(self).lemma_expects();
        }
        if self.hash.is_none() {
            match message {
                MPIMessage::RelRc(h) => {
                    self.hash = Some(h);
                    assert(self.fed() =~= old(self).fed().push(message@));
                    Ok(None)
                },
                _ => Err(ProtocolError::UnexpectedMessage),
            }
        } else if self.value.is_none() {
            match message {
                MPIMessage::NodeWeight(v) => {
                    self.value = Some(v);
                    assert(self.fed() =~= old(self).fed().push(message@));
                    Ok(None)
                },
                _ => Err(ProtocolError::UnexpectedMessage),
            }
        } else if self.parents.is_none() {
            match message {
                MPIMessage::IncomingEdge(ps) => {
                    if ps.len() == 0 {
                        let hash = self.hash.take().unwrap();
                        let value = self.value.take().unwrap();
                        let data = DetachedInnerData::new(value, Vec::new());
                        proof {
                            assert(data@.incoming.map_values(|e: (RelRcHash, E)| e.0) =~= ps@);
                            assert(data@.incoming.map_values(
                                |e: (RelRcHash, E)| Message::<N, E>::EdgeWeight(e.1),
                            ) =~= Seq::<Message<N, E>>::empty());
                            assert(old(self).edges@.map_values(|e: E| Message::<N, E>::EdgeWeight(e))
                                =~= Seq::<Message<N, E>>::empty());
                            assert(old(self).fed().push(message@) =~= encoding(hash, data@));
                            lemma_read_back(hash, data@);
                            assert(self.fed() =~= Seq::<Message<N, E>>::empty());
                        }
                        Ok(Some((hash, data)))
                    } else {
                        self.parents = Some(ps);
                        assert(self.fed() =~= old(self).fed().push(message@));
                        Ok(None)
                    }
                },
                _ => Err(ProtocolError::UnexpectedMessage),
            }
        } else {
            match message {
                MPIMessage::EdgeWeight(e) => {
                    self.edges.push(e);
                    let n = match &self.parents {
                        Some(ps) => ps.len(),
                        None => 0,
                    };
                    if self.edges.len() == n {
                        let hash = self.hash.take().unwrap();
                        let value = self.value.take().unwrap();
                        let parents = self.parents.take().unwrap();
                        let mut edges: Vec<E> = Vec::new();
                        core::mem::swap(&mut edges, &mut self.edges);
                        let ghost es = edges@;
                        let mut incoming: Vec<(RelRcHash, E)> = Vec::new();
                        for e in it: edges
                            invariant
                                it.seq() == es,
                                es.len() == parents@.len(),
                                incoming@.len() == it.index(),
                                forall|k: int|
                                    0 <= k < it.index() ==> (#[trigger] incoming@[k]) == (
                                        parents@[k],
                                        es[k],
                                    ),
                        {
                            let k = incoming.len();
                            incoming.push((parents[k], e));
                        }
                        let data = DetachedInnerData::new(value, incoming);
                        proof {
                            assert(data@.incoming.map_values(|e: (RelRcHash, E)| e.0)
                                =~= parents@);
                            assert(data@.incoming.map_values(
                                |e: (RelRcHash, E)| Message::<N, E>::EdgeWeight(e.1),
                            ) =~= es.map_values(|e: E| Message::<N, E>::EdgeWeight(e)));
                            assert(old(self).fed().push(message@) =~= encoding(hash, data@));
                            lemma_read_back(hash, data@);
                            assert(self.fed() =~= Seq::<Message<N, E>>::empty());
                        }
                        Ok(Some((hash, data)))
                    } else {
                        assert(self.fed() =~= old(self).fed().push(message@));
                        Ok(None)
                    }
                },
                _ => Err(ProtocolError::UnexpectedMessage),
            }
        }
    }
}

/// In the messages that carry a record, each message has the tag that comes
/// next after those before it, and the last message, and no other, completes
/// the record.
pub proof fn lemma_encoding_order<N, E>(hash: RelRcHash, record: Record<N, E>, i: int)
    requires
        0 <= i < encoding(hash, record).len(),
    ensures
        encoding(hash, record).len() == 3 + record.incoming.len(),
        encoding(hash, record)[i].tag() == next_tag(encoding(hash, record).take(i)),
        completes(encoding(hash, record).take(i), encoding(hash, record)[i]) <==> i + 1 == encoding(
            hash,
            record,
        ).len(),
{
    let all = encoding(hash, record);
    let ps = record.incoming.map_values(|e: (RelRcHash, E)| e.0);
    assert(all[0] == Message::<N, E>::RelRc(hash));
    assert(all[1] == Message::<N, E>::NodeWeight(record.value));
    assert(all[2] == Message::<N, E>::IncomingEdge(ps));
    if i >= 3 {
        assert(all[i] == Message::<N, E>::EdgeWeight(record.incoming[i - 3].1));
        assert(all.take(i)[2] == all[2]);
    }
}

/// Reads a record off the messages that carry it: the messages are taken one
/// by one, as they come, by a [`RecordDecoder`].
///
/// The record is returned with its content identity if the messages are
/// those of a record, no more and no less, as [`mpi_send`] makes them; else
/// the messages are refused.
pub fn mpi_recv<N, E>(messages: Vec<MPIMessage<N, E>>) -> (r: Result<
    (RelRcHash, DetachedInnerData<N, E>),
    ProtocolError,
>)
    ensures
        r matches Ok(done) ==> messages@.map_values(|m: MPIMessage<N, E>| m@) == encoding(
            done.0,
            done.1@,
        ) && done.0 == hash_in(messages@.map_values(|m: MPIMessage<N, E>| m@)) && done.1@
            == record_in(messages@.map_values(|m: MPIMessage<N, E>| m@)),
        r is Ok <==> exists|h: RelRcHash, rec: Record<N, E>|
            messages@.map_values(|m: MPIMessage<N, E>| m@) == #[trigger] encoding(h, rec),
        r matches Err(e) ==> e == ProtocolError::UnexpectedMessage,
{
    let ghost views = messages@.map_values(|m: MPIMessage<N, E>| m@);
    let mut decoder: RecordDecoder<N, E> = RecordDecoder::new();
    let mut result: Option<(RelRcHash, DetachedInnerData<N, E>)> = None;
    let mut failed = false;
    proof {
        assert(views.take(0) =~= Seq::<Message<N, E>>::empty());
    }
    for message in it: messages
        invariant
            it.seq().map_values(|m: MPIMessage<N, E>| m@) == views,
            it.seq().len() == views.len(),
            !failed && result is None ==> decoder.wf() && decoder.fed() == views.take(
                it.index() as int,
            ) && (it.index() > 0 ==> !completes(
                views.take(it.index() - 1),
                views[it.index() - 1],
            )),
            !failed && result is Some ==> views.take(it.index() as int) == encoding(
                result.unwrap().0,
                result.unwrap().1@,
            ),
            failed ==> forall|h: RelRcHash, rec: Record<N, E>| views != #[trigger] encoding(h, rec),
    {
        let ghost i = it.index() as int;
        proof {
            assert(views[i] == message@);
            assert(views.take(i + 1) =~= views.take(i).push(views[i]));
        }
        if !failed {
            if result.is_some() {
                proof {
                    let d = result.unwrap();
                    assert forall|h: RelRcHash, rec: Record<N, E>|
                        views != #[trigger] encoding(h, rec) by {
                        if views == encoding(h, rec) {
                            lemma_encoding_order(h, rec, 2);
                            lemma_encoding_order(d.0, d.1@, 2);
                            assert(views.take(i)[2] == views[2]);
                            assert(encoding(h, rec)[2] == encoding(d.0, d.1@)[2]);
                            let first_parents = rec.incoming.map_values(|e: (RelRcHash, E)| e.0);
                            let other_parents = d.1@.incoming.map_values(|e: (RelRcHash, E)| e.0);
                            assert(encoding(h, rec)[2] == Message::<N, E>::IncomingEdge(first_parents));
                            assert(encoding(d.0, d.1@)[2] == Message::<N, E>::IncomingEdge(other_parents));
                            assert(first_parents.len() == other_parents.len());
                        }
                    }
                }
                failed = true;
            } else {
                match decoder.feed(message) {
                    Err(_) => {
                        proof {
                            assert forall|h: RelRcHash, rec: Record<N, E>|
                                views != #[trigger] encoding(h, rec) by {
                                if views == encoding(h, rec) {
                                    lemma_encoding_order(h, rec, i);
                                }
                            }
                        }
                        failed = true;
                    },
                    Ok(None) => {},
                    Ok(Some(done)) => {
                        result = Some(done);
                    },
                }
            }
        }
    }
    if failed {
        return Err(ProtocolError::UnexpectedMessage);
    }
    proof {
        assert(views.take(views.len() as int) =~= views);
    }
    match result {
        Some(done) => {
            proof {
                lemma_read_back(done.0, done.1@);
            }
            Ok(done)
        },
        None => {
            proof {
                assert forall|h: RelRcHash, rec: Record<N, E>|
                    views != #[trigger] encoding(h, rec) by {
                    if views == encoding(h, rec) {
                        lemma_encoding_order(h, rec, views.len() - 1);
                    }
                }
            }
            Err(ProtocolError::UnexpectedMessage)
        },
    }
}

/// What the sender does next.
#[derive(Debug, Clone, PartialEq, Eq)]
pub enum SenderAction<N, E> {
    /// Send these messages, in their order, and wait for the next message.
    Send(Vec<MPIMessage<N, E>>),
    /// The exchange is over.
    Finished,
}

/// The sending side of an exchange: it holds the detached node, and answers
/// the requests of the receiver.
pub struct Sender<N, E> {
    detached: Detached<N, E>,
}

impl<N: Clone, E: Clone> Sender<N, E> {
    /// What the sender holds: the node, detached from nothing.
    pub closed spec fn detached(&self) -> Detached<N, E> {
        self.detached
    }

    /// Starts the exchange for the node: detaches it from nothing, which is
    /// to assume nothing of what the receiver has, and returns the messages
    /// that carry its record, to be sent first.
    pub fn new(arena: &Arena<N, E>, node: &RelRc) -> (r: (Self, Vec<MPIMessage<N, E>>))
        requires
            arena.wf(),
            arena.is_live(node@),
        ensures
            arena.detached(node@, Set::empty(), &r.0.detached()),
            r.0.detached().records().contains_key(r.0.detached().current()),
            carries(
                r.1@.map_values(|m: MPIMessage<N, E>| m@),
                r.0.detached().current(),
                r.0.detached().records()[r.0.detached().current()],
            ),
    {
        let none: Vec<RelRcHash> = Vec::new();
        assert(none@.to_set() =~= Set::<RelRcHash>::empty());
        let detached = node.detach(arena, &none);
        proof {
            let pass = arena.outside(Set::<RelRcHash>::empty());
            assert(pass(node@));
            assert(arena.descends(node@, node@, pass));
            assert(detached.records().contains_key(arena.node(node@).hash));
        }
        let current = detached.current_hash();
        let messages = match detached.get(current) {
            Some(data) => mpi_send(current, data),
            None => Vec::new(),
        };
        (Sender { detached }, messages)
    }

    /// Answers a message of the receiver.
    ///
    /// When the receiver is done, the exchange is over. When it asks for a
    /// record that the sender has, the messages that carry the record are to
    /// be sent. It is an error for the receiver to ask for a record that the
    /// sender does not have, or to send any other message.
    pub fn on_message(&self, message: &MPIMessage<N, E>) -> (r: Result<
        SenderAction<N, E>,
        ProtocolError,
    >)
        ensures
            match message@ {
                Message::Done => r matches Ok(SenderAction::Finished),
                Message::RequestRelRc(h) => if self.detached().records().contains_key(h) {
                    r matches Ok(SenderAction::Send(ms)) && carries(
                        ms@.map_values(|m: MPIMessage<N, E>| m@),
                        h,
                        self.detached().records()[h],
                    )
                } else {
                    r == Err::<SenderAction<N, E>, ProtocolError>(ProtocolError::UnknownHash)
                },
                _ => r == Err::<SenderAction<N, E>, ProtocolError>(ProtocolError::UnexpectedMessage),
            },
    {
        match message {
            MPIMessage::Done => Ok(SenderAction::Finished),
            MPIMessage::RequestRelRc(h) => match self.detached.get(*h) {
                Some(data) => Ok(SenderAction::Send(mpi_send(*h, data))),
                None => Err(ProtocolError::UnknownHash),
            },
            _ => Err(ProtocolError::UnexpectedMessage),
        }
    }
}

/// What the receiver does next.
#[derive(Debug, Clone, Copy, PartialEq, Eq, Structural)]
pub enum ReceiverAction {
    /// Wait for the next message.
    Wait,
    /// Ask for the record with this content identity, and wait for it.
    Request(RelRcHash),
    /// Tell the sender that the exchange is over, and attach the node.
    Done,
}

/// The receiving side of an exchange: it gathers the records that come, and
/// asks for those that are missing.
pub struct Receiver<N, E> {
    detached: Option<Detached<N, E>>,
    decoder: RecordDecoder<N, E>,
}

impl<N, E> Receiver<N, E> {
    /// The invariant of the receiver.
    pub closed spec fn wf(&self) -> bool {
        self.decoder.wf()
    }

    /// The records that have come so far, under the content identity of the
    /// first of them, if one has come.
    pub closed spec fn detached(&self) -> Option<Detached<N, E>> {
        self.detached
    }

    /// The messages that have come for the record that is on its way.
    pub closed spec fn pending(&self) -> Seq<Message<N, E>> {
        self.decoder.fed()
    }

    /// The tag of the message that the receiver takes next.
    pub closed spec fn expects(&self) -> MPIMessageTag {
        self.decoder.expects()
    }

    /// Whether records have come, and the node that is on its way attaches
    /// to nodes with the content identities `known`.
    pub open spec fn ready_for(&self, known: Set<RelRcHash>) -> bool {
        self.detached() is Some && self.detached().unwrap().attaches_to_spec(known)
    }

    /// A receiver to which nothing has come.
    pub fn new() -> (r: Self)
        ensures
            r.wf(),
            r.detached() is None,
            r.pending() == Seq::<Message<N, E>>::empty(),
            r.expects() == MPIMessageTag::RelRc,
    {
        Receiver { detached: None, decoder: RecordDecoder::new() }
    }

    /// Whether the records `after` are the records `before` with one more
    /// record, under its content identity; the first record to come names
    /// the node that is on its way.
    pub open spec fn gathered(
        before: Option<Detached<N, E>>,
        after: Option<Detached<N, E>>,
        hash: RelRcHash,
        record: Record<N, E>,
    ) -> bool {
        &&& after matches Some(d)
        &&& match before {
            Some(b) => d.current() == b.current() && d.records() == b.records().insert(hash, record),
            None => d.current() == hash && d.records() == Map::<RelRcHash, Record<N, E>>::empty().insert(
                hash,
                record,
            ),
        }
    }

    /// Takes a message of the sender, and says what to do next.
    ///
    /// While a record is on its way, the receiver waits. When a record is
    /// complete, it is put with the others; then, if the node attaches to the
    /// given nodes, the exchange is over, and else the receiver asks for a
    /// record that is required and that is not that of a given node.
    pub fn on_message(&mut self, arena: &Arena<N, E>, attach_to: &Vec<RelRc>, message: MPIMessage<
        N,
        E,
    >) -> (r: Result<ReceiverAction, ProtocolError>)
        requires
            old(self).wf(),
            forall|j: int| 0 <= j < attach_to@.len() ==> arena.is_live((#[trigger] attach_to@[j])@),
        ensures
            final(self).wf(),
            r is Err <==> message@.tag() != old(self).expects(),
            old(self).expects() == next_tag(old(self).pending()),
            final(self).expects() == next_tag(final(self).pending()),
            r matches Err(e) ==> e == ProtocolError::UnexpectedMessage && *final(self) == *old(self),
            r is Ok ==> (r matches Ok(ReceiverAction::Wait) <==> !completes(
                old(self).pending(),
                message@,
            )),
            r is Ok && completes(old(self).pending(), message@) ==> (r is Ok && r.unwrap()
                == ReceiverAction::Done <==> final(self).ready_for(
                arena.hashes_of(attach_to@.map_values(|n: RelRc| n@)),
            )),
            r matches Ok(ReceiverAction::Wait) ==> final(self).detached() == old(self).detached()
                && final(self).pending() == old(self).pending().push(message@),
            r is Ok && completes(old(self).pending(), message@) ==> final(self).pending() == Seq::<
                Message<N, E>,
            >::empty() && Self::gathered(
                old(self).detached(),
                final(self).detached(),
                hash_in(old(self).pending().push(message@)),
                record_in(old(self).pending().push(message@)),
            ),
            r matches Ok(ReceiverAction::Request(p)) ==> {
                &&& final(self).pending() == Seq::<Message<N, E>>::empty()
                &&& exists|hash: RelRcHash, record: Record<N, E>|
                    old(self).pending().push(message@) == #[trigger] encoding(hash, record)
                        && Self::gathered(old(self).detached(), final(self).detached(), hash, record)
                &&& final(self).detached().unwrap().requires_hash(p)
                &&& !arena.hashes_of(attach_to@.map_values(|n: RelRc| n@)).contains(p)
            },
            r matches Ok(ReceiverAction::Done) ==> {
                &&& final(self).pending() == Seq::<Message<N, E>>::empty()
                &&& exists|hash: RelRcHash, record: Record<N, E>|
                    old(self).pending().push(message@) == #[trigger] encoding(hash, record)
                        && Self::gathered(old(self).detached(), final(self).detached(), hash, record)
                &&& final(self).detached().unwrap().attaches_to_spec(
                    arena.hashes_of(attach_to@.map_values(|n: RelRc| n@)),
                )
            },
    {
        let ghost known = arena.hashes_of(attach_to@.map_values(|n: RelRc| n@));
        let fed = self.decoder.feed(message);
        match fed {
            Err(e) => Err(e),
            Ok(None) => Ok(ReceiverAction::Wait),
            Ok(Some((hash, data))) => {
                let ghost record = data@;
                let mut detached = match self.detached.take() {
                    Some(d) => d,
                    None => Detached::empty(hash),
                };
                detached.insert(hash, data);
                let ready = detached.attaches_to(arena, attach_to);
                let first = if ready {
                    None
                } else {
                    Self::first_unknown(&detached, arena, attach_to)
                };
                self.detached = Some(detached);
                assert(Self::gathered(old(self).detached(), self.detached(), hash, record));
                match first {
                    Some(p) => Ok(ReceiverAction::Request(p)),
                    None => {
                        Ok(ReceiverAction::Done)
                    },
                }
            },
        }
    }

    /// The first required content identity of the detached node that is not
    /// that of one of the given nodes, if there is one.
    fn first_unknown(detached: &Detached<N, E>, arena: &Arena<N, E>, attach_to: &Vec<RelRc>) -> (p:
        Option<RelRcHash>)
        requires
            forall|j: int| 0 <= j < attach_to@.len() ==> arena.is_live((#[trigger] attach_to@[j])@),
        ensures
            p matches Some(h) ==> detached.requires_hash(h) && !arena.hashes_of(
                attach_to@.map_values(|n: RelRc| n@),
            ).contains(h),
            p is None ==> detached.attaches_to_spec(
                arena.hashes_of(attach_to@.map_values(|n: RelRc| n@)),
            ),
    {
        let ghost ptrs = attach_to@.map_values(|n: RelRc| n@);
        let required = detached.required_hashes();
        let mut k: usize = 0;
        while k < required.len()
            invariant
                k <= required@.len(),
                ptrs == attach_to@.map_values(|n: RelRc| n@),
                forall|j: int| 0 <= j < attach_to@.len() ==> arena.is_live((#[trigger] attach_to@[j])@),
                forall|p: RelRcHash| required@.contains(p) <==> detached.requires_hash(p),
                forall|k2: int|
                    0 <= k2 < k ==> arena.hashes_of(ptrs).contains(#[trigger] required@[k2]),
            decreases required@.len() - k,
        {
            let h = required[k];
            let mut known = false;
            let mut j: usize = 0;
            while j < attach_to.len()
                invariant
                    j <= attach_to@.len(),
                    ptrs == attach_to@.map_values(|n: RelRc| n@),
                    forall|j2: int|
                        0 <= j2 < attach_to@.len() ==> arena.is_live((#[trigger] attach_to@[j2])@),
                    known ==> arena.hashes_of(ptrs).contains(h),
                    !known ==> forall|j2: int| 0 <= j2 < j ==> arena.node(#[trigger] ptrs[j2]).hash != h,
                decreases attach_to@.len() - j,
            {
                assert(ptrs[j as int] == attach_to@[j as int]@);
                if arena.get(&attach_to[j]).hash_id().0 == h.0 {
                    assert(arena.node(ptrs[j as int]).hash == h);
                    known = true;
                }
                j += 1;
            }
            if !known {
                assert(required@.contains(h));
                return Some(h);
            }
            k += 1;
        }
        proof {
            assert forall|p: RelRcHash| detached.requires_hash(p) implies arena.hashes_of(
                ptrs,
            ).contains(p) by {
                assert(required@.contains(p));
                let k2 = choose|k2: int| 0 <= k2 < required@.len() && required@[k2] == p;
                assert(arena.hashes_of(ptrs).contains(required@[k2]));
            }
        }
        None
    }

    /// Whether the node that has come attaches to the given nodes: whether
    /// the exchange is over.
    pub fn is_ready(&self, arena: &Arena<N, E>, attach_to: &Vec<RelRc>) -> (b: bool)
        requires
            forall|j: int| 0 <= j < attach_to@.len() ==> arena.is_live((#[trigger] attach_to@[j])@),
        ensures
            b == (self.detached() matches Some(d) && d.attaches_to_spec(
                arena.hashes_of(attach_to@.map_values(|n: RelRc| n@)),
            )),
    {
        match &self.detached {
            Some(d) => d.attaches_to(arena, attach_to),
            None => false,
        }
    }

    /// Gives up the receiver and keeps the records that have come.
    pub fn into_detached(self) -> (d: Option<Detached<N, E>>)
        ensures
            d == self.detached(),
    {
        self.detached
    }
}

} // verus!
