use comms_task::error::{Error, IoFault};
use comms_task::frame::{decode, encode};
use comms_task::relay::{
    InboundEvent, InboundRelay, OutboundAction, OutboundEvent, OutboundRelay, Shutdown,
    SourcedMessage,
};

fn write_of(action: OutboundAction) -> Vec<u8> {
    match action {
        OutboundAction::Write(bytes) => bytes,
        OutboundAction::Stop(_) => panic!("expected a write"),
    }
}

fn sourced(peer: usize, m: &[u8]) -> SourcedMessage {
    SourcedMessage { source: peer, message: m.to_vec() }
}

#[test]
fn outbound_frames_abc_in_order() {
    let mut out = OutboundRelay::new();
    let mut wire = Vec::new();
    for m in [b"A".to_vec(), b"B".to_vec(), b"C".to_vec()] {
        wire.extend(write_of(out.on_event(OutboundEvent::Message(m))));
    }
    let (found, rest, dropped) = decode(&wire);
    assert_eq!(found, vec![b"A".to_vec(), b"B".to_vec(), b"C".to_vec()]);
    assert_eq!(rest, wire.len());
    assert_eq!(dropped, 0);
    assert!(!out.stopped());
}

#[test]
fn outbound_write_failure_is_fatal() {
    let mut out = OutboundRelay::new();
    let a = out.on_event(OutboundEvent::WriteFailed(IoFault::BrokenPipe));
    assert!(matches!(a, OutboundAction::Stop(Some(Error::IoError(IoFault::BrokenPipe)))));
    assert!(out.stopped());
    let b = out.on_event(OutboundEvent::Message(b"late".to_vec()));
    assert!(matches!(b, OutboundAction::Stop(None)));
}

#[test]
fn outbound_queue_closed_and_cancel() {
    let mut out = OutboundRelay::new();
    assert!(matches!(
        out.on_event(OutboundEvent::QueueClosed),
        OutboundAction::Stop(Some(Error::QueueClosed))
    ));
    let mut out = OutboundRelay::new();
    assert!(matches!(out.on_event(OutboundEvent::Cancelled), OutboundAction::Stop(None)));
    assert!(out.stopped());
}

#[test]
fn inbound_frames_in_order_tagged_with_peer() {
    let mut inb = InboundRelay::new(4);
    let mut wire = encode(b"one");
    wire.extend(encode(b"two"));
    let step = inb.on_event(InboundEvent::Bytes(wire));
    assert_eq!(step.messages, vec![sourced(4, b"one"), sourced(4, b"two")]);
    assert_eq!(step.dropped, 0);
    assert!(step.stop.is_none());
    assert_eq!(inb.peer_index(), 4);
}

#[test]
fn inbound_frame_split_across_reads() {
    let mut inb = InboundRelay::new(1);
    let f = encode(b"split");
    let first = inb.on_event(InboundEvent::Bytes(f[..7].to_vec()));
    assert!(first.messages.is_empty());
    let second = inb.on_event(InboundEvent::Bytes(f[7..].to_vec()));
    assert_eq!(second.messages, vec![sourced(1, b"split")]);
}

#[test]
fn inbound_skips_five_corrupted_bytes() {
    let mut inb = InboundRelay::new(2);
    let mut wire = encode(b"X");
    wire.extend([0x13, 0x37, 0x42, 0x99, 0x07]);
    wire.extend(encode(b"Y"));
    let step = inb.on_event(InboundEvent::Bytes(wire));
    assert_eq!(step.messages, vec![sourced(2, b"X"), sourced(2, b"Y")]);
    assert_eq!(step.dropped, 5);
    assert!(step.stop.is_none());
    assert!(!inb.stopped());
}

#[test]
fn inbound_reset_after_frame_is_fatal() {
    let mut inb = InboundRelay::new(3);
    let mut shutdown = Shutdown::new();
    let step = inb.on_event(InboundEvent::Bytes(encode(b"X")));
    assert_eq!(step.messages, vec![sourced(3, b"X")]);
    let step = inb.on_event(InboundEvent::ReadFailed(IoFault::ConnectionReset));
    assert!(step.messages.is_empty());
    assert_eq!(step.stop, Some(Error::IoError(IoFault::ConnectionReset)));
    shutdown.stop(step.stop);
    assert!(shutdown.requested());
    assert_eq!(shutdown.result(), Err(Error::IoError(IoFault::ConnectionReset)));
    let later = inb.on_event(InboundEvent::Bytes(encode(b"Z")));
    assert!(later.messages.is_empty());
    assert!(later.stop.is_none());
}

#[test]
fn inbound_close_and_queue_close() {
    let mut inb = InboundRelay::new(0);
    let step = inb.on_event(InboundEvent::Closed);
    assert_eq!(step.stop, Some(Error::IoError(IoFault::UnexpectedEof)));
    assert!(inb.stopped());
    let mut inb = InboundRelay::new(0);
    let step = inb.on_event(InboundEvent::QueueClosed);
    assert_eq!(step.stop, Some(Error::QueueClosed));
}

#[test]
fn shutdown_keeps_first_error() {
    let mut s = Shutdown::new();
    assert!(!s.requested());
    assert_eq!(s.result(), Ok(()));
    s.stop(None);
    assert_eq!(s.result(), Ok(()));
    s.stop(Some(Error::QueueClosed));
    s.stop(Some(Error::IoError(IoFault::Other)));
    assert_eq!(s.result(), Err(Error::QueueClosed));
}

#[test]
fn error_from_io() {
    let e = Error::from_io(IoFault::ConnectionAborted);
    assert_eq!(e, Error::IoError(IoFault::ConnectionAborted));
}
