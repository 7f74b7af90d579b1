use relrc::detached::mpi::{
    mpi_recv, mpi_send, MPIMessage, MPIMessageTag, MPIMode, ProtocolError, Receiver, ReceiverAction,
    RecordDecoder, Sender, SenderAction,
};
use relrc::detached::DetachedInnerData;
use relrc::{Arena, RelRc, RelRcHash};

/// Runs an exchange between a sender and a receiver to its end, and returns
/// the tags of the messages in the order in which they went over the wire.
fn exchange(
    sender: &Sender<u32, u32>,
    first: Vec<MPIMessage<u32, u32>>,
    receiver: &mut Receiver<u32, u32>,
    arena: &Arena<u32, u32>,
    attach_to: &Vec<RelRc>,
) -> Vec<MPIMessageTag> {
    let mut wire = Vec::new();
    let mut to_receiver = first;
    loop {
        let mut answer = None;
        for message in to_receiver {
            wire.push(message.tag());
            match receiver.on_message(arena, attach_to, message).unwrap() {
                ReceiverAction::Wait => {}
                ReceiverAction::Request(hash) => answer = Some(MPIMessage::RequestRelRc(hash)),
                ReceiverAction::Done => answer = Some(MPIMessage::Done),
            }
        }
        let answer = answer.unwrap();
        wire.push(answer.tag());
        match sender.on_message(&answer).unwrap() {
            SenderAction::Send(messages) => to_receiver = messages,
            SenderAction::Finished => return wire,
        }
    }
}

#[test]
fn the_receiver_asks_for_the_ancestors_that_it_misses() {
    // The sender holds a root and a child of it.
    let mut here = Arena::<u32, u32>::new();
    let root = RelRc::new(&mut here, 0);
    let left = RelRc::with_parents(&mut here, 1, vec![(&root, 7)]);

    // The receiver has nothing: it has to ask for the root.
    let mut there = Arena::<u32, u32>::new();
    let attach_to: Vec<RelRc> = vec![];
    let (sender, first) = Sender::new(&here, &left);
    assert_eq!(first.len(), 4);
    let mut receiver = Receiver::new();
    let wire = exchange(&sender, first, &mut receiver, &there, &attach_to);
    assert_eq!(
        wire,
        vec![
            MPIMessageTag::RelRc,
            MPIMessageTag::NodeWeight,
            MPIMessageTag::IncomingEdge,
            MPIMessageTag::EdgeWeight,
            MPIMessageTag::RequestRelRc,
            MPIMessageTag::RelRc,
            MPIMessageTag::NodeWeight,
            MPIMessageTag::IncomingEdge,
            MPIMessageTag::Done,
        ]
    );
    assert!(receiver.is_ready(&there, &attach_to));
    let detached = receiver.into_detached().unwrap();
    assert_eq!(detached.n_ancestors(), 2);
    let received = RelRc::try_attach(&mut there, detached, &attach_to).unwrap();
    assert_eq!(there.get(&received).value(), &1);
    assert_eq!(there.get(&received).incoming(0).unwrap().value(), &7);
    assert_eq!(received.hash_id(&there), left.hash_id(&here));
}

#[test]
fn the_receiver_does_not_ask_for_what_it_has() {
    // The sender holds a root and a child of it.
    let mut here = Arena::<u32, u32>::new();
    let root = RelRc::new(&mut here, 0);
    let left = RelRc::with_parents(&mut here, 1, vec![(&root, 7)]);

    // The receiver holds a root with the same content.
    let mut there = Arena::<u32, u32>::new();
    let root2 = RelRc::new(&mut there, 0);
    let attach_to = vec![root2.clone_ref(&mut there)];

    let (sender, first) = Sender::new(&here, &left);
    let mut receiver = Receiver::new();
    let wire = exchange(&sender, first, &mut receiver, &there, &attach_to);
    // Only the record of the child goes over the wire.
    assert_eq!(
        wire,
        vec![
            MPIMessageTag::RelRc,
            MPIMessageTag::NodeWeight,
            MPIMessageTag::IncomingEdge,
            MPIMessageTag::EdgeWeight,
            MPIMessageTag::Done,
        ]
    );
    let detached = receiver.into_detached().unwrap();
    assert!(detached.attaches_to(&there, &attach_to));
    let slots = there.n_slots();
    let received = RelRc::try_attach(&mut there, detached, &attach_to).unwrap();
    assert_eq!(there.n_slots(), slots + 1);
    assert!(there.get(&received).parent(0).unwrap().ptr_eq(&root2));
    assert_eq!(received.hash_id(&there), left.hash_id(&here));
}

#[test]
fn distributed_transfer_requests_the_missing_root() {
    // The sender holds {root, leftChild}; the receiver holds an equivalent
    // root but is not told so at first: it has to ask for the root, and can
    // attach once the record has come.
    let mut here = Arena::<u32, u32>::new();
    let root = RelRc::new(&mut here, 0);
    let left = RelRc::with_parents(&mut here, 1, vec![(&root, 1)]);
    let (sender, first) = Sender::new(&here, &left);

    let there = Arena::<u32, u32>::new();
    let nothing: Vec<RelRc> = vec![];
    let mut receiver = Receiver::new();
    let mut action = ReceiverAction::Wait;
    for message in first {
        action = receiver.on_message(&there, &nothing, message).unwrap();
    }
    assert_eq!(action, ReceiverAction::Request(root.hash_id(&here)));
    assert!(!receiver.is_ready(&there, &nothing));
    let answer = sender.on_message(&MPIMessage::RequestRelRc(root.hash_id(&here))).unwrap();
    let messages = match answer {
        SenderAction::Send(messages) => messages,
        SenderAction::Finished => panic!("the sender has the root"),
    };
    assert_eq!(messages.len(), 3);
    for message in messages {
        action = receiver.on_message(&there, &nothing, message).unwrap();
    }
    assert_eq!(action, ReceiverAction::Done);
    assert!(receiver.is_ready(&there, &nothing));
    assert_eq!(sender.on_message(&MPIMessage::Done), Ok(SenderAction::Finished));
}

#[test]
fn the_sender_refuses_what_it_does_not_have() {
    let mut arena = Arena::<u32, u32>::new();
    let root = RelRc::new(&mut arena, 0);
    let (sender, _first) = Sender::new(&arena, &root);
    let unknown = RelRcHash(root.hash_id(&arena).0.wrapping_add(1));
    assert_eq!(
        sender.on_message(&MPIMessage::RequestRelRc(unknown)),
        Err(ProtocolError::UnknownHash)
    );
    assert_eq!(
        sender.on_message(&MPIMessage::NodeWeight(3)),
        Err(ProtocolError::UnexpectedMessage)
    );
}

#[test]
fn a_record_is_one_identity_one_value_one_list_and_the_edge_values() {
    let data = DetachedInnerData::new(9u32, vec![(RelRcHash(4), 40u32), (RelRcHash(5), 50)]);
    let messages = mpi_send(RelRcHash(7), &data);
    assert_eq!(
        messages,
        vec![
            MPIMessage::RelRc(RelRcHash(7)),
            MPIMessage::NodeWeight(9),
            MPIMessage::IncomingEdge(vec![RelRcHash(4), RelRcHash(5)]),
            MPIMessage::EdgeWeight(40),
            MPIMessage::EdgeWeight(50),
        ]
    );

    let mut decoder = RecordDecoder::new();
    let mut done = None;
    for message in messages {
        assert!(done.is_none());
        assert_eq!(decoder.expected_tag(), message.tag());
        done = decoder.feed(message).unwrap();
    }
    let (hash, record) = done.unwrap();
    assert_eq!(hash, RelRcHash(7));
    assert_eq!(record, data);
    assert_eq!(decoder.expected_tag(), MPIMessageTag::RelRc);
}

#[test]
fn the_decoder_refuses_a_message_out_of_order() {
    let mut decoder = RecordDecoder::<u32, u32>::new();
    assert_eq!(decoder.feed(MPIMessage::NodeWeight(1)), Err(ProtocolError::UnexpectedMessage));
    assert_eq!(decoder.feed(MPIMessage::RelRc(RelRcHash(1))), Ok(None));
    assert_eq!(decoder.feed(MPIMessage::Done), Err(ProtocolError::UnexpectedMessage));
    assert_eq!(decoder.feed(MPIMessage::NodeWeight(1)), Ok(None));
    assert_eq!(decoder.feed(MPIMessage::EdgeWeight(1)), Err(ProtocolError::UnexpectedMessage));
    // A record without parents is complete with its empty list of parents.
    let done = decoder.feed(MPIMessage::IncomingEdge(vec![])).unwrap();
    assert_eq!(done, Some((RelRcHash(1), DetachedInnerData::new(1, vec![]))));
}

#[test]
fn tags_go_by_their_numbers() {
    let tags = [
        (MPIMessageTag::RelRc, 0),
        (MPIMessageTag::NodeWeight, 1),
        (MPIMessageTag::IncomingEdge, 2),
        (MPIMessageTag::EdgeWeight, 3),
        (MPIMessageTag::RequestRelRc, 100),
        (MPIMessageTag::Done, 200),
    ];
    for (tag, code) in tags {
        assert_eq!(tag.code(), code);
        assert_eq!(MPIMessageTag::try_from(code), Ok(tag));
    }
    assert_eq!(MPIMessageTag::try_from(4), Err(()));
    assert_eq!(MPIMessageTag::try_from(-1), Err(()));
    assert_eq!(MPIMode::default(), MPIMode::Standard);
    assert_ne!(MPIMode::Buffered, MPIMode::Async);
}

#[test]
fn a_cycle_of_records_cannot_be_attached() {
    let mut detached = relrc::Detached::<u32, u32>::empty(RelRcHash(1));
    detached.insert(RelRcHash(1), DetachedInnerData::new(1, vec![(RelRcHash(2), 0)]));
    detached.insert(RelRcHash(2), DetachedInnerData::new(2, vec![(RelRcHash(1), 0)]));
    let mut arena = Arena::<u32, u32>::new();
    assert!(detached.attaches_to(&arena, &vec![]));
    assert!(!detached.is_well_founded());
    assert!(!detached.can_attach(&arena, &vec![]));
    assert!(RelRc::try_attach(&mut arena, detached, &vec![]).is_none());
    assert_eq!(arena.n_slots(), 0);

    // Without the cycle the same records attach.
    let mut detached = relrc::Detached::<u32, u32>::empty(RelRcHash(1));
    detached.insert(RelRcHash(1), DetachedInnerData::new(1, vec![(RelRcHash(2), 0)]));
    detached.insert(RelRcHash(2), DetachedInnerData::new(2, vec![]));
    assert!(detached.is_well_founded());
    let node = RelRc::try_attach(&mut arena, detached, &vec![]).unwrap();
    assert_eq!(arena.get(&node).value(), &1);

    // A node without a record for itself does not attach to nothing.
    let empty = relrc::Detached::<u32, u32>::empty(RelRcHash(1));
    assert!(empty.attaches_to(&arena, &vec![]));
    assert!(!empty.can_attach(&arena, &vec![]));
}

#[test]
fn what_is_sent_for_a_record_gives_the_record_back() {
    for n in 0..4u32 {
        let incoming: Vec<(RelRcHash, u32)> =
            (0..n).map(|k| (RelRcHash(100 + k as usize), 10 * k)).collect();
        let data = DetachedInnerData::new(7u32, incoming);
        let messages = mpi_send(RelRcHash(42), &data);
        assert_eq!(messages.len(), 3 + n as usize);
        assert_eq!(mpi_recv(messages.clone()), Ok((RelRcHash(42), data.clone())));

        // Fed one by one, the record comes with the last message.
        let mut decoder = RecordDecoder::new();
        for (i, message) in messages.iter().enumerate() {
            assert_eq!(decoder.expected_tag(), message.tag());
            let fed = decoder.feed(message.clone()).unwrap();
            assert_eq!(fed.is_some(), i + 1 == messages.len());
        }
        assert_eq!(decoder.expected_tag(), MPIMessageTag::RelRc);

        // One message more, or one less, is no record.
        let mut more = messages.clone();
        more.push(MPIMessage::EdgeWeight(0));
        assert_eq!(mpi_recv(more), Err(ProtocolError::UnexpectedMessage));
        let mut less = messages.clone();
        less.pop();
        assert_eq!(mpi_recv(less), Err(ProtocolError::UnexpectedMessage));
        let mut swapped = messages;
        swapped.swap(0, 1);
        assert_eq!(mpi_recv(swapped), Err(ProtocolError::UnexpectedMessage));
    }
    assert_eq!(mpi_recv::<u32, u32>(vec![]), Err(ProtocolError::UnexpectedMessage));
}
