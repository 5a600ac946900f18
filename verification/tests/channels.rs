use lightyear_core::acks::{bits_to_u32, resolve_acks, u32_to_bits};
use lightyear_core::message::{MessageContainer, MessageId};
use lightyear_core::packet::{
    decode_packet, encode_packet, ChannelBlock, Packet, WireMessage, MAX_FRAG,
};
use lightyear_core::replication::{decode_replication, encode_replication, ReplicationMessage};
use lightyear_core::receivers::{
    FragmentReassembler, ReliableOrderedReceiver, ReliableUnorderedReceiver,
    SequencedUnreliableReceiver,
};
use lightyear_core::senders::{ReliableSender, ReliableSettings};
use lightyear_core::wrapping::{wrapping_diff, wrapping_next};

fn msg(bytes: &[u8]) -> MessageContainer {
    MessageContainer::new(bytes.to_vec())
}

fn stamped(id: u16, bytes: &[u8]) -> MessageContainer {
    MessageContainer {
        id: Some(MessageId(id)),
        fragment: None,
        payload: bytes.to_vec(),
    }
}

#[test]
fn test_reliable_sender_internals() {
    let mut sender = ReliableSender::new(
        0,
        ReliableSettings {
            // the resend factor 1.5, in hundredths
            rtt_resend_factor_hundredths: 150,
        },
    );
    sender.update_rtt(100);

    // Buffer a new message
    let message = msg(&[1]);
    sender.buffer_send(message.duplicate());
    assert_eq!(sender.unacked_messages.len(), 1);
    assert_eq!(sender.next_send_message_id, MessageId(1));
    // Collect the messages to be sent
    sender.collect_messages_to_send();
    assert_eq!(sender.messages_to_send.len(), 1);

    // Advance by a time that is below the resend threshold
    sender.update_time(100);
    sender.collect_messages_to_send();
    assert_eq!(sender.messages_to_send.len(), 1);

    // Advance by a time that is above the resend threshold
    sender.update_time(100 + 200);
    sender.collect_messages_to_send();
    assert_eq!(sender.messages_to_send.len(), 1);
    let expected = stamped(0, &[1]);
    assert!(sender.messages_to_send[0].same_as(&expected));

    // Ack the first message
    sender.process_message_ack(MessageId(0));
    assert_eq!(sender.unacked_messages.len(), 0);

    // Advance by a time that is above the resend threshold: there are
    // no new messages to send
    sender.update_time(100 + 200 + 200);
    assert_eq!(sender.messages_to_send.len(), 1);
}

#[test]
fn reliable_sender_keeps_message_until_acked() {
    let mut sender = ReliableSender::new(
        0,
        ReliableSettings { rtt_resend_factor_hundredths: 150 },
    );
    sender.buffer_send(msg(b"keep me"));
    sender.collect_messages_to_send();
    // framing and resending never drop the entry
    assert_eq!(sender.unacked_messages.len(), 1);
    sender.update_time(1000);
    sender.collect_messages_to_send();
    assert_eq!(sender.unacked_messages.len(), 1);
    // only the ack removes it, and a duplicate ack is a no-op
    sender.notify_message_delivered(&MessageId(0));
    assert_eq!(sender.unacked_messages.len(), 0);
    sender.notify_message_delivered(&MessageId(0));
    assert_eq!(sender.unacked_messages.len(), 0);
}

#[test]
fn reliable_sender_fragments_large_payload() {
    let mut sender = ReliableSender::new(
        0,
        ReliableSettings { rtt_resend_factor_hundredths: 150 },
    );
    let payload: Vec<u8> = (0..4000u32).map(|i| (i % 251) as u8).collect();
    sender.buffer_send(MessageContainer::new(payload.clone()));
    // one unacked entry under one id, whatever the payload size
    assert_eq!(sender.unacked_messages.len(), 1);
    assert_eq!(sender.unacked_messages[0].0, MessageId(0));
    assert_eq!(sender.next_send_message_id, MessageId(1));
    // collect expands it into ceil(4000 / MAX_FRAG) slices, every one
    // under the message's id with its (index, total) tag
    sender.collect_messages_to_send();
    let expected = (4000 + MAX_FRAG - 1) / MAX_FRAG;
    assert_eq!(sender.messages_to_send.len(), expected);
    let mut total = 0;
    for (i, slice) in sender.messages_to_send.iter().enumerate() {
        assert_eq!(slice.id, Some(MessageId(0)));
        let (index, count) = slice.fragment.unwrap();
        assert_eq!(index as usize, i);
        assert_eq!(count as usize, expected);
        total += slice.payload.len();
    }
    assert_eq!(total, 4000);
    // the slices concatenated in index order are the payload
    let whole: Vec<u8> = sender
        .messages_to_send
        .iter()
        .flat_map(|s| s.payload.iter().copied())
        .collect();
    assert_eq!(whole, payload);
}

#[test]
fn replication_codec_round_trip() {
    let samples = vec![
        ReplicationMessage::SpawnEntity { entity: 7 },
        ReplicationMessage::DespawnEntity { entity: u64::MAX },
        ReplicationMessage::ComponentInsert { entity: 3, component: b"pos".to_vec() },
        ReplicationMessage::ComponentUpdate { entity: 9, component: vec![] },
        ReplicationMessage::ComponentRemove { entity: 1, kind: 0xdead_beef_cafe },
    ];
    for m in samples {
        let bytes = encode_replication(&m);
        let back = decode_replication(&bytes).expect("image must parse");
        let render = |x: &ReplicationMessage| -> (u8, u64, Vec<u8>, u64) {
            match x {
                ReplicationMessage::SpawnEntity { entity } => (0, *entity, vec![], 0),
                ReplicationMessage::DespawnEntity { entity } => (1, *entity, vec![], 0),
                ReplicationMessage::ComponentInsert { entity, component } => {
                    (2, *entity, component.clone(), 0)
                },
                ReplicationMessage::ComponentUpdate { entity, component } => {
                    (3, *entity, component.clone(), 0)
                },
                ReplicationMessage::ComponentRemove { entity, kind } => (4, *entity, vec![], *kind),
            }
        };
        assert_eq!(render(&back), render(&m));
    }
    assert!(decode_replication(&vec![9, 0, 0]).is_none());
}

#[test]
fn sequenced_receiver_drops_old_arrivals() {
    // ids as the network delivered them: M3, M1, M5, M4, M2, M6..M10
    let arrivals = [2u16, 0, 4, 3, 1, 5, 6, 7, 8, 9];
    let mut receiver = SequencedUnreliableReceiver::new();
    for id in arrivals {
        receiver.buffer_recv(stamped(id, &[id as u8]));
    }
    let delivered: Vec<u16> = receiver
        .read_messages()
        .iter()
        .map(|m| m.id.unwrap().0)
        .collect();
    // the subsequence M3, M5, M6..M10
    assert_eq!(delivered, vec![2, 4, 5, 6, 7, 8, 9]);
}

#[test]
fn ordered_receiver_releases_in_order() {
    let mut receiver = ReliableOrderedReceiver::new();
    receiver.buffer_recv(stamped(1, b"b"));
    receiver.buffer_recv(stamped(2, b"c"));
    assert_eq!(receiver.read_messages().len(), 0);
    receiver.buffer_recv(stamped(0, b"a"));
    let delivered: Vec<u16> = receiver
        .read_messages()
        .iter()
        .map(|m| m.id.unwrap().0)
        .collect();
    assert_eq!(delivered, vec![0, 1, 2]);
    // a replay of an already released id changes nothing
    receiver.buffer_recv(stamped(1, b"b"));
    assert_eq!(receiver.read_messages().len(), 0);
}

#[test]
fn unordered_receiver_drops_duplicates() {
    let mut receiver = ReliableUnorderedReceiver::new();
    receiver.buffer_recv(stamped(7, b"x"));
    receiver.buffer_recv(stamped(7, b"x"));
    receiver.buffer_recv(stamped(3, b"y"));
    let delivered: Vec<u16> = receiver
        .read_messages()
        .iter()
        .map(|m| m.id.unwrap().0)
        .collect();
    assert_eq!(delivered, vec![7, 3]);
}

#[test]
fn fragments_surface_only_complete() {
    let mut slots: Vec<Option<Vec<u8>>> = vec![None, None, None];
    assert!(FragmentReassembler::insert_fragment(&mut slots, 0, b"aa".to_vec()).is_none());
    assert!(FragmentReassembler::insert_fragment(&mut slots, 2, b"cc".to_vec()).is_none());
    // a repeated fragment only overwrites its own slot
    assert!(FragmentReassembler::insert_fragment(&mut slots, 0, b"aa".to_vec()).is_none());
    let whole = FragmentReassembler::insert_fragment(&mut slots, 1, b"bb".to_vec());
    assert_eq!(whole.unwrap(), b"aabbcc".to_vec());
}

#[test]
fn reassembler_accepts_out_of_order() {
    let mut r = FragmentReassembler::new();
    assert!(r.accept(10, 1, 2, b"tail".to_vec()).is_none());
    let whole = r.accept(10, 0, 2, b"head".to_vec()).unwrap();
    assert_eq!(whole, b"headtail".to_vec());
    assert_eq!(r.groups.len(), 0);
}

#[test]
fn packet_codec_round_trip() {
    let packet = Packet {
        packet_id: 300,
        last_ack_packet_id: 299,
        ack_bitfield: 0xdead_beef,
        tick: 77,
        channels: vec![
            ChannelBlock {
                channel_id: 0,
                messages: vec![
                    WireMessage { id: None, fragment: None, payload: b"plain".to_vec() },
                    WireMessage { id: Some(9), fragment: None, payload: vec![] },
                ],
            },
            ChannelBlock {
                channel_id: 200,
                messages: vec![WireMessage {
                    id: Some(5),
                    fragment: Some((1, 3)),
                    payload: b"frag".to_vec(),
                }],
            },
        ],
    };
    let bytes = encode_packet(&packet);
    let back = decode_packet(&bytes).expect("image must parse");
    assert_eq!(back.packet_id, 300);
    assert_eq!(back.last_ack_packet_id, 299);
    assert_eq!(back.ack_bitfield, 0xdead_beef);
    assert_eq!(back.tick, 77);
    assert_eq!(back.channels.len(), 2);
    assert_eq!(back.channels[0].messages[0].payload, b"plain".to_vec());
    assert_eq!(back.channels[0].messages[1].id, Some(9));
    assert_eq!(back.channels[1].channel_id, 200);
    assert_eq!(back.channels[1].messages[0].fragment, Some((1, 3)));
    // a truncated image is rejected
    let mut broken = bytes.clone();
    broken.pop();
    assert!(decode_packet(&broken).is_none());
}

#[test]
fn ack_bits_round_trip() {
    for v in [0u32, 1, 0x8000_0000, 0xdead_beef, u32::MAX] {
        let bits = u32_to_bits(v);
        assert_eq!(bits_to_u32(&bits), v);
    }
}

#[test]
fn resolve_acks_names_window() {
    // most significant bit stands for last_ack - 1
    let bits = u32_to_bits(0x8000_0001);
    let acked = resolve_acks(10, &bits);
    assert_eq!(acked, vec![10, 9, 10u16.wrapping_sub(32)]);
}

#[test]
fn wrapping_distance_is_signed() {
    assert_eq!(wrapping_diff(1, 0xffff), 2);
    assert_eq!(wrapping_diff(0, 0xffff), 1);
    assert_eq!(wrapping_diff(0xffff, 0), -1);
    assert_eq!(wrapping_diff(5, 5), 0);
    assert_eq!(wrapping_diff(0x8000, 0), -32768);
    assert_eq!(wrapping_next(0xffff), 0);
}
