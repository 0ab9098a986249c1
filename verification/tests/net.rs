use mt_client::net::{ConnAction, ConnEvent, ConnState, ServerPacket};
use mt_client::pos::BlockPos;

#[test]
fn position_sent_only_after_accept() {
    let mut s = ConnState::new();
    assert!(s.handle_event(ConnEvent::PositionTick).is_empty());
    let a = s.handle_event(ConnEvent::Packet(ServerPacket::AcceptAuth));
    assert!(matches!(a[..], [ConnAction::TakePosition, ConnAction::StartPositionTimer]));
    let a = s.handle_event(ConnEvent::PositionTick);
    assert!(matches!(a[..], [ConnAction::SendPlayerPos]));
}

#[test]
fn block_is_forwarded_and_acknowledged() {
    let mut s = ConnState::new();
    let pos = BlockPos { x: 1, y: -2, z: 3 };
    let a = s.handle_event(ConnEvent::Packet(ServerPacket::BlockData { pos }));
    assert_eq!(a.len(), 2);
    assert!(matches!(a[0], ConnAction::ForwardBlock(p) if p == pos));
    assert!(matches!(a[1], ConnAction::AckBlock(p) if p == pos));
}

#[test]
fn last_media_packet_finishes() {
    let mut s = ConnState::new();
    let a = s.handle_event(ConnEvent::Packet(ServerPacket::Media { n: 3, i: 1 }));
    assert!(matches!(a[..], [ConnAction::ForwardMedia { finished: false }]));
    let a = s.handle_event(ConnEvent::Packet(ServerPacket::Media { n: 3, i: 2 }));
    assert!(matches!(a[..], [ConnAction::ForwardMedia { finished: true }]));
}

#[test]
fn announced_media_is_requested() {
    let mut s = ConnState::new();
    let files = vec!["a.png".to_string(), "b.ogg".to_string()];
    let a = s.handle_event(ConnEvent::Packet(ServerPacket::AnnounceMedia { files: files.clone() }));
    match &a[..] {
        [ConnAction::RequestMedia(f)] => assert_eq!(f, &files),
        _ => panic!("unexpected reaction"),
    }
}

#[test]
fn window_events() {
    let mut s = ConnState::new();
    assert!(matches!(s.handle_event(ConnEvent::WindowReady)[..], [ConnAction::SendClientReady]));
    assert!(matches!(s.handle_event(ConnEvent::WindowClosed)[..], [ConnAction::Close]));
    assert!(matches!(s.handle_event(ConnEvent::Interrupt)[..], [ConnAction::Close]));
    assert!(matches!(s.handle_event(ConnEvent::Disconnected)[..], [ConnAction::Stop]));
    assert!(s.handle_event(ConnEvent::Packet(ServerPacket::Other)).is_empty());
}
