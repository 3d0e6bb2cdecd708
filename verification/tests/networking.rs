use bevy_book::networking::{Packet, ReliableChannel, StateInterpolation};

#[test]
fn packet_serialize_roundtrip() {
    let original = Packet::new(42, 1234567890, vec![1, 2, 3, 4, 5]);
    let bytes = original.to_bytes();
    let restored = Packet::from_bytes(&bytes).unwrap();

    assert_eq!(restored, original);
}

#[test]
fn packet_empty_data() {
    let original = Packet::new(0, 0, vec![]);
    let bytes = original.to_bytes();
    let restored = Packet::from_bytes(&bytes).unwrap();
    assert_eq!(restored, original);
}

#[test]
fn packet_invalid_data() {
    let result = Packet::from_bytes(&[0, 1, 2]);
    assert!(result.is_err());
}

#[test]
fn packet_byte_layout() {
    let p = Packet::new(0x01020304, 0x0A0B0C0D0E0F1011, vec![9, 8]);
    assert_eq!(
        p.to_bytes(),
        vec![4, 3, 2, 1, 0x11, 0x10, 0x0F, 0x0E, 0x0D, 0x0C, 0x0B, 0x0A, 2, 0, 0, 0, 9, 8]
    );
}

#[test]
fn packet_errors() {
    assert_eq!(Packet::from_bytes(&[0; 15]).unwrap_err(), "Packet too short");
    let mut bytes = Packet::new(1, 2, vec![1, 2, 3]).to_bytes();
    bytes.pop();
    assert_eq!(Packet::from_bytes(&bytes).unwrap_err(), "Data length mismatch");
}

#[test]
fn packet_ignores_trailing_bytes() {
    let mut bytes = Packet::new(7, 8, vec![5]).to_bytes();
    bytes.push(99);
    assert_eq!(Packet::from_bytes(&bytes).unwrap(), Packet::new(7, 8, vec![5]));
}

#[test]
fn reliable_channel_send_and_ack() {
    let mut channel = ReliableChannel::new(10);
    let p1 = channel.send(vec![1], 0);
    let p2 = channel.send(vec![2], 1);

    assert_eq!(channel.pending_count(), 2);

    channel.ack(p1.sequence);
    assert_eq!(channel.pending_count(), 1);

    channel.ack(p2.sequence);
    assert_eq!(channel.pending_count(), 0);
}

#[test]
fn reliable_channel_can_send() {
    let mut channel = ReliableChannel::new(3);
    assert!(channel.can_send());

    channel.send(vec![1], 0);
    channel.send(vec![2], 0);
    channel.send(vec![3], 0);
    assert!(!channel.can_send(), "Should be at max pending");
}

#[test]
fn reliable_channel_sequences_and_pending_order() {
    let mut channel = ReliableChannel::new(5);
    let a = channel.send(vec![1], 10);
    let b = channel.send(vec![2], 20);
    let c = channel.send(vec![3], 30);
    assert_eq!((a.sequence, b.sequence, c.sequence), (0, 1, 2));
    channel.ack(b.sequence);
    let pending = channel.get_pending();
    assert_eq!(pending.len(), 2);
    assert_eq!(*pending[0], a);
    assert_eq!(*pending[1], c);
    channel.ack(77);
    assert_eq!(channel.pending_count(), 2);
}

#[test]
fn state_interpolation_push_get() {
    let mut interp = StateInterpolation::<u32>::new(10);
    interp.push(100, 42);
    interp.push(200, 84);

    assert_eq!(interp.get_at(100), Some(&42));
    assert_eq!(interp.get_at(200), Some(&84));
    assert_eq!(interp.get_at(999), None);
}

#[test]
fn state_interpolation_latest() {
    let mut interp = StateInterpolation::<u32>::new(10);
    interp.push(100, 1);
    interp.push(200, 2);
    interp.push(300, 3);

    assert_eq!(interp.latest(), Some(&3));
}

#[test]
fn state_interpolation_evicts_old() {
    let mut interp = StateInterpolation::<u32>::new(2);
    interp.push(100, 1);
    interp.push(200, 2);
    interp.push(300, 3);

    assert_eq!(interp.oldest_timestamp(), Some(200), "Should have evicted timestamp 100");
}

#[test]
fn state_interpolation_zero_capacity_keeps_nothing() {
    let mut interp = StateInterpolation::<u32>::new(0);
    interp.push(1, 1);
    assert_eq!(interp.latest(), None);
    assert_eq!(interp.oldest_timestamp(), None);
}
