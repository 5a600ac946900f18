use lightyear_core::message::MessageContainer;
use lightyear_core::message_manager::{ChannelError, MessageManager};
use lightyear_core::registry::{
    ChannelDirection, ChannelKind, ChannelMode, ChannelRegistry, ChannelSettings,
};
use lightyear_core::replication::{
    decode_replication, Replicate, ReplicationMessage, ReplicationTarget, WorldOp,
};
use lightyear_core::server_core::Connection;
use lightyear_core::senders::{ChannelSender, ReliableSettings};
use lightyear_core::server_core::Server;
use lightyear_core::sync::{PingManager, SyncManager, TickEvent};

fn settings(mode: ChannelMode) -> ChannelSettings {
    ChannelSettings {
        mode,
        direction: ChannelDirection::Bidirectional,
        reliable: ReliableSettings { rtt_resend_factor_hundredths: 150 },
    }
}

fn one_channel_registry(mode: ChannelMode) -> (ChannelRegistry, ChannelKind) {
    let mut registry = ChannelRegistry::new();
    let kind = ChannelKind(42);
    registry.register(kind, settings(mode)).unwrap();
    (registry, kind)
}

fn drain_payloads(mm: &mut MessageManager) -> Vec<Vec<u8>> {
    let mut out = Vec::new();
    for (_, msgs) in mm.read_messages() {
        for m in msgs {
            out.push(m.payload);
        }
    }
    out
}

#[test]
fn reliable_ordered_delivery_under_loss() {
    let (registry, kind) = one_channel_registry(ChannelMode::ReliableOrdered);
    let mut client = MessageManager::new(&registry);
    let mut server = MessageManager::new(&registry);
    client
        .buffer_send(kind, MessageContainer::new(b"hello".to_vec()))
        .unwrap();
    let mut delivered: Vec<Vec<u8>> = Vec::new();
    let mut transmissions: u32 = 0;
    let mut delivered_at_tick = None;
    for tick in 0..20u16 {
        // 50 ms per tick, measured round-trip around 100 ms
        client.update(tick as u64 * 50, 100);
        for datagram in client.send_packets(tick) {
            // every other datagram is lost
            transmissions += 1;
            if transmissions % 2 == 0 {
                server.recv_packet(&datagram).unwrap();
            }
        }
        let got = drain_payloads(&mut server);
        if !got.is_empty() && delivered_at_tick.is_none() {
            delivered_at_tick = Some(tick);
        }
        delivered.extend(got);
    }
    assert_eq!(delivered, vec![b"hello".to_vec()]);
    assert!(delivered_at_tick.unwrap() <= 20);
}

#[test]
fn fragmented_payload_delivered_whole() {
    let (registry, kind) = one_channel_registry(ChannelMode::ReliableOrdered);
    let mut client = MessageManager::new(&registry);
    let mut server = MessageManager::new(&registry);
    let payload: Vec<u8> = (0..4000u32).map(|i| (i % 251) as u8).collect();
    client.buffer_send(kind, MessageContainer::new(payload.clone())).unwrap();
    client.update(0, 100);
    let mut datagrams = client.send_packets(0);
    assert!(datagrams.len() > 1, "4000 bytes cannot fit one datagram");
    // fragments arrive in reverse order; nothing surfaces until the last
    datagrams.reverse();
    let last = datagrams.pop().unwrap();
    for d in datagrams {
        server.recv_packet(&d).unwrap();
        assert!(drain_payloads(&mut server).is_empty());
    }
    server.recv_packet(&last).unwrap();
    let got = drain_payloads(&mut server);
    assert_eq!(got.len(), 1);
    assert_eq!(got[0], payload);
}

#[test]
fn replayed_datagram_changes_nothing() {
    let (registry, kind) = one_channel_registry(ChannelMode::ReliableOrdered);
    let mut client = MessageManager::new(&registry);
    let mut server = MessageManager::new(&registry);
    client.buffer_send(kind, MessageContainer::new(b"once".to_vec())).unwrap();
    client.update(0, 100);
    let datagrams = client.send_packets(0);
    assert_eq!(datagrams.len(), 1);
    server.recv_packet(&datagrams[0]).unwrap();
    assert_eq!(drain_payloads(&mut server), vec![b"once".to_vec()]);
    // the same datagram again: receiver-visible state stays unchanged
    server.recv_packet(&datagrams[0]).unwrap();
    assert!(drain_payloads(&mut server).is_empty());
}

#[test]
fn duplicate_ack_is_idempotent() {
    let (registry, kind) = one_channel_registry(ChannelMode::ReliableOrdered);
    let mut client = MessageManager::new(&registry);
    let mut server = MessageManager::new(&registry);
    // eight messages so that MessageId 7 exists
    for i in 0..8u8 {
        client.buffer_send(kind, MessageContainer::new(vec![i])).unwrap();
    }
    client.update(0, 100);
    for d in client.send_packets(0) {
        server.recv_packet(&d).unwrap();
    }
    let _ = drain_payloads(&mut server);
    // the server must emit a datagram to carry its ack header back
    server.buffer_send(kind, MessageContainer::new(b"ack carrier".to_vec())).unwrap();
    server.update(0, 100);
    let acks = server.send_packets(0);
    assert_eq!(acks.len(), 1);
    let unacked_ids = |mm: &MessageManager| -> Vec<u16> {
        match &mm.channels[0].sender {
            ChannelSender::Reliable(s) => {
                s.unacked_messages.iter().map(|(id, _)| id.0).collect()
            },
            _ => panic!("reliable channel expected"),
        }
    };
    assert!(unacked_ids(&client).contains(&7));
    client.recv_packet(&acks[0]).unwrap();
    assert!(!unacked_ids(&client).contains(&7));
    let after_first = unacked_ids(&client);
    // the packet carrying the ack of MessageId 7 arrives a second time
    client.recv_packet(&acks[0]).unwrap();
    assert!(!unacked_ids(&client).contains(&7));
    assert_eq!(unacked_ids(&client), after_first);
}

#[test]
fn acks_empty_the_unacked_window() {
    let (registry, kind) = one_channel_registry(ChannelMode::ReliableUnordered);
    let mut client = MessageManager::new(&registry);
    let mut server = MessageManager::new(&registry);
    for i in 0..5u8 {
        client.buffer_send(kind, MessageContainer::new(vec![i])).unwrap();
    }
    let count_unacked = |mm: &MessageManager| -> usize {
        match &mm.channels[0].sender {
            ChannelSender::Reliable(s) => s.unacked_messages.len(),
            _ => panic!("reliable channel expected"),
        }
    };
    assert_eq!(count_unacked(&client), 5);
    // both peers keep exchanging packets: the window drains
    for tick in 0..10u16 {
        client.update(tick as u64 * 50, 100);
        server.update(tick as u64 * 50, 100);
        for d in client.send_packets(tick) {
            server.recv_packet(&d).unwrap();
        }
        let _ = drain_payloads(&mut server);
        server
            .buffer_send(kind, MessageContainer::new(vec![200, tick as u8]))
            .unwrap();
        for d in server.send_packets(tick) {
            client.recv_packet(&d).unwrap();
        }
        let _ = drain_payloads(&mut client);
    }
    assert_eq!(count_unacked(&client), 0);
}

#[test]
fn buffer_send_rejections() {
    let (registry, kind) = one_channel_registry(ChannelMode::SequencedUnreliable);
    let mut mm = MessageManager::new(&registry);
    assert_eq!(
        mm.buffer_send(ChannelKind(999), MessageContainer::new(vec![1])),
        Err(ChannelError::UnknownChannel)
    );
    // an unreliable channel cannot fragment: payloads over one fragment
    // are rejected
    assert_eq!(
        mm.buffer_send(kind, MessageContainer::new(vec![0; 4000])),
        Err(ChannelError::MessageTooLarge)
    );
    assert_eq!(mm.buffer_send(kind, MessageContainer::new(vec![0; 100])), Ok(()));
    // garbage on the wire is rejected whole
    assert_eq!(
        mm.recv_packet(&vec![0xff, 0x01, 0x02]),
        Err(ChannelError::MalformedPacket)
    );
}

#[test]
fn unknown_client_is_refused() {
    let mut registry = ChannelRegistry::new();
    let kind = ChannelKind(1);
    registry.register(kind, settings(ChannelMode::ReliableOrdered)).unwrap();
    let (mut server, _tx, _dtx) = Server::new(registry);
    let r = server.buffer_send(77, kind, MessageContainer::new(vec![1]));
    assert_eq!(r, Err(lightyear_core::server_core::ServerError::UnknownClient));
}

#[test]
fn spawn_targets_all_except_sender() {
    let mut registry = ChannelRegistry::new();
    registry.register(ChannelKind(1), settings(ChannelMode::ReliableOrdered)).unwrap();
    let (mut server, _ctx, _dtx) = Server::new(registry);
    server.process_connections(vec![1, 2], 100);
    assert_eq!(server.client_ids(), vec![1, 2]);
    // client 1 spawned an entity; everyone but 1 hears of it
    server.entity_spawn(7, &Replicate { target: ReplicationTarget::AllExcept(1) });
    server.register_entity_owner(7, 1);
    let pending_of = |server: &Server, id: u64| -> Vec<u64> {
        let conn = server
            .user_connections
            .iter()
            .find(|(peer, _)| *peer == id)
            .map(|(_, c)| c)
            .unwrap();
        conn.replication_manager
            .pending
            .iter()
            .map(|m| match m {
                ReplicationMessage::SpawnEntity { entity } => *entity,
                ReplicationMessage::DespawnEntity { entity } => 1_000_000 + *entity,
                _ => u64::MAX,
            })
            .collect()
    };
    assert_eq!(pending_of(&server, 1), Vec::<u64>::new());
    assert_eq!(pending_of(&server, 2), vec![7]);
    // client 1 disconnects: its entity despawns for client 2
    server.process_disconnections(vec![1]);
    assert_eq!(server.client_ids(), vec![2]);
    assert_eq!(pending_of(&server, 2), vec![7, 1_000_007]);
}

#[test]
fn authenticator_events_drive_connections() {
    let mut registry = ChannelRegistry::new();
    registry.register(ChannelKind(1), settings(ChannelMode::ReliableOrdered)).unwrap();
    let (mut server, connect_tx, disconnect_tx) = Server::new(registry);
    connect_tx.send(5).unwrap();
    connect_tx.send(9).unwrap();
    server.update(100);
    assert_eq!(server.client_ids(), vec![5, 9]);
    disconnect_tx.send(5).unwrap();
    server.update(100);
    assert_eq!(server.client_ids(), vec![9]);
}

#[test]
fn server_routes_messages_by_peer() {
    let kind = ChannelKind(1);
    let mut server_registry = ChannelRegistry::new();
    server_registry.register(kind, settings(ChannelMode::ReliableOrdered)).unwrap();
    let mut peer_registry = ChannelRegistry::new();
    peer_registry.register(kind, settings(ChannelMode::ReliableOrdered)).unwrap();
    let (mut server, _tx, _dtx) = Server::new(server_registry);
    server.process_connections(vec![1], 100);
    // a peer-side manager talks to its server connection
    let mut peer = MessageManager::new(&peer_registry);
    peer.buffer_send(kind, MessageContainer::new(b"to server".to_vec())).unwrap();
    peer.update(0, 100);
    let datagrams: Vec<(u64, Vec<u8>)> =
        peer.send_packets(0).into_iter().map(|d| (1u64, d)).collect();
    server.recv_packets(datagrams);
    let got = server.read_messages(1);
    assert_eq!(got.len(), 1);
    assert_eq!(got[0].1[0].payload, b"to server".to_vec());
    // an unknown peer's datagram is dropped without effect
    server.recv_packets(vec![(99, vec![1, 2, 3])]);
    assert_eq!(server.read_messages(99).len(), 0);
}

#[test]
fn client_tick_syncs_after_five_pongs() {
    // server ticks 60 times a second (about 16 ms per tick); round trip
    // near 100 ms puts the client 6 ticks ahead of what it hears
    let tick_ms: u64 = 16;
    let mut sync = SyncManager::new();
    let mut client_tick: u16 = 0;
    let mut server_tick: u16 = 1000;
    let mut snaps = 0;
    for _ in 0..5 {
        let event = sync.sync_update(client_tick, server_tick, 100, 2, 10, tick_ms, 1);
        if let Some(TickEvent::SnapBack { new_tick }) = event {
            client_tick = new_tick;
            snaps += 1;
        }
        // both clocks advance between pongs
        server_tick += 1;
        client_tick = client_tick.wrapping_add(1);
    }
    assert_eq!(snaps, 1);
    assert!(sync.is_synced());
    let offset = client_tick.wrapping_sub(server_tick);
    assert!((5..=7).contains(&offset), "client is server + 6 give or take 1, got {offset}");
}

#[test]
fn ping_estimates_fold_in_samples() {
    let mut pings = PingManager::new(0);
    let seq = pings.make_ping(1000);
    assert_eq!(seq, 0);
    // the server held the ping for two ticks of 10 ms before answering
    let matched = pings.process_pong(seq, 5, 7, 1500, 10);
    assert!(matched);
    // sample = 500 elapsed - 20 held = 480; an eighth goes into the mean
    assert_eq!(pings.rtt_millis, 60);
    // the deviation folds in a quarter
    assert_eq!(pings.jitter_millis, 120);
    assert_eq!(pings.latest_received_server_tick, 7);
    // an unknown sequence number changes nothing
    assert!(!pings.process_pong(99, 0, 0, 2000, 10));
    assert_eq!(pings.rtt_millis, 60);
}

#[test]
fn soft_warp_speed_tracks_the_gap() {
    let mut sync = SyncManager::new();
    // not synced: nominal speed whatever the gap
    assert_eq!(sync.relative_speed_permille(0, 500, 100, 16, 1), 1000);
    for _ in 0..3 {
        let _ = sync.sync_update(506, 500, 100, 2, 10, 16, 1);
    }
    assert!(sync.is_synced());
    // at the target (500 + 6): nominal
    assert_eq!(sync.relative_speed_permille(506, 500, 100, 16, 1), 1000);
    // one tick behind the target: one percent faster
    assert_eq!(sync.relative_speed_permille(505, 500, 100, 16, 1), 1010);
    // one tick ahead: one percent slower
    assert_eq!(sync.relative_speed_permille(507, 500, 100, 16, 1), 990);
    // beyond the threshold the hard snap takes over: nominal here
    assert_eq!(sync.relative_speed_permille(400, 500, 100, 16, 1), 1000);
}

#[test]
fn replication_events_travel_the_wire() {
    let (registry, kind) = one_channel_registry(ChannelMode::ReliableOrdered);
    let mut sender_conn = Connection::new(&registry, 100);
    sender_conn.replication_manager.buffer_spawn_entity(7);
    sender_conn
        .replication_manager
        .buffer_component_message(ReplicationMessage::ComponentUpdate {
            entity: 7,
            component: b"xy".to_vec(),
        });
    let refused = sender_conn.buffer_replication_messages(kind);
    assert_eq!(refused, 0);
    sender_conn.update(0);
    let datagrams = sender_conn.send_packets(0);
    let mut receiver_conn = Connection::new(&registry, 100);
    for d in &datagrams {
        receiver_conn.recv_packet(d).unwrap();
    }
    let mut ops = Vec::new();
    for (_, msgs) in receiver_conn.read_messages() {
        for m in msgs {
            let event = decode_replication(&m.payload).expect("replication image");
            ops.extend(receiver_conn.replication_manager.apply_message(event));
        }
    }
    // the spawn maps remote 7 to local 0; the update follows it
    assert_eq!(ops.len(), 2);
    assert!(matches!(ops[0], WorldOp::Spawn { local: 0 }));
    assert!(matches!(&ops[1], WorldOp::Update { local: 0, component } if component == b"xy"));
}

#[test]
fn unified_sync_skips_the_handshake() {
    let mut sync = SyncManager::new();
    sync.unified_sync_init(10_000, 250);
    assert!(sync.is_synced());
    assert_eq!(sync.interpolation_time, 9_750);
    // the clocks advance every tick, the first included
    sync.unified_sync_update(16);
    sync.unified_sync_update(16);
    assert_eq!(sync.interpolation_time, 9_750 + 32);
    assert_eq!(sync.duration_since_latest_received_server_tick, 32);
}
