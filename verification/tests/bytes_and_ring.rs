use radar_tlv::bytes::le_u32_at;
use radar_tlv::bytes::u16_from_le;
use radar_tlv::bytes::wire_u32_at;
use radar_tlv::ports::is_port_available;
use radar_tlv::rb::RingBuffer;

#[test]
fn le_u32_is_read_low_byte_first() {
    let bytes = [0xff, 0x78, 0x56, 0x34, 0x12, 0x00, 0x00, 0x00, 0x80];
    assert_eq!(le_u32_at(&bytes, 1), 0x1234_5678);
    assert_eq!(wire_u32_at(&bytes, 1), 0x1234_5678);
    assert_eq!(le_u32_at(&bytes, 0), 0x3456_78ff);
    assert_eq!(wire_u32_at(&bytes, 0), 0x3456_78ff);
    assert_eq!(le_u32_at(&bytes, 5), 0x8000_0000);
    assert_eq!(wire_u32_at(&bytes, 5), 0x8000_0000);
    assert_eq!(le_u32_at(&[0xff; 4], 0), u32::MAX);
    assert_eq!(wire_u32_at(&[0xff; 4], 0), u32::MAX);
}

#[test]
fn both_readers_agree_with_std() {
    let bytes: Vec<u8> = (0..64u32).map(|i| (i * 37 + 11) as u8).collect();
    for at in 0..=60 {
        let expected = u32::from_le_bytes([bytes[at], bytes[at + 1], bytes[at + 2], bytes[at + 3]]);
        assert_eq!(le_u32_at(&bytes, at), expected);
        assert_eq!(wire_u32_at(&bytes, at), expected);
    }
}

#[test]
fn u16_is_low_byte_plus_high_byte_shifted() {
    assert_eq!(u16_from_le(0x2c, 0x01), 300);
    assert_eq!(u16_from_le(0x14, 0x00), 20);
    assert_eq!(u16_from_le(0x00, 0x00), 0);
    assert_eq!(u16_from_le(0xff, 0xff), 65535);
    assert_eq!(u16_from_le(0x00, 0x80), 32768);
    assert_eq!(u16_from_le(0x80, 0x00), 128);
}

#[test]
fn port_is_found_by_its_exact_name() {
    let ports = vec![String::from("COM1"), String::from("COM4"), String::from("/dev/ttyUSB0")];
    assert!(is_port_available(&ports, String::from("COM4")));
    assert!(is_port_available(&ports, String::from("/dev/ttyUSB0")));
    assert!(is_port_available(&ports, String::from("COM1")));
    assert!(!is_port_available(&ports, String::from("COM5")));
    assert!(!is_port_available(&ports, String::from("com4")));
    assert!(!is_port_available(&ports, String::from("COM")));
    assert!(!is_port_available(&ports, String::new()));
    assert!(!is_port_available(&Vec::new(), String::from("COM4")));
}

#[test]
fn ring_returns_what_was_pushed_in_order() {
    let mut ring: RingBuffer<u32> = RingBuffer::new(4);
    ring.push(10);
    ring.push(20);
    ring.push(30);
    assert_eq!(ring.pull(), Some(10));
    assert_eq!(ring.pull(), Some(20));
    assert_eq!(ring.pull(), Some(30));
}

#[test]
fn ring_pull_of_an_empty_slot_is_none() {
    let mut ring: RingBuffer<String> = RingBuffer::new(2);
    assert_eq!(ring.pull(), None);
    assert_eq!(ring.pull(), None);
    ring.push(String::from("a"));
    assert_eq!(ring.pull(), Some(String::from("a")));
    assert_eq!(ring.pull(), None);
}

#[test]
fn ring_pull_leaves_the_slot_filled() {
    let mut ring: RingBuffer<u8> = RingBuffer::new(2);
    ring.push(1);
    ring.push(2);
    assert_eq!(ring.pull(), Some(1));
    assert_eq!(ring.pull(), Some(2));
    assert_eq!(ring.pull(), Some(1));
    assert_eq!(ring.pull(), Some(2));
}

#[test]
fn ring_writer_overwrites_when_it_laps() {
    let mut ring: RingBuffer<u8> = RingBuffer::new(3);
    for v in 1..=5 {
        ring.push(v);
    }
    assert_eq!(ring.pull(), Some(4));
    assert_eq!(ring.pull(), Some(5));
    assert_eq!(ring.pull(), Some(3));
}

#[test]
fn ring_of_one_slot() {
    let mut ring: RingBuffer<u8> = RingBuffer::new(1);
    assert_eq!(ring.pull(), None);
    ring.push(7);
    assert_eq!(ring.pull(), Some(7));
    ring.push(8);
    assert_eq!(ring.pull(), Some(8));
    assert_eq!(ring.next_head_pos(0), 0);
    assert_eq!(ring.next_head_pos(5), 0);
}

#[test]
fn ring_heads_wrap_around() {
    let ring: RingBuffer<u8> = RingBuffer::new(5);
    assert_eq!(ring.next_head_pos(0), 1);
    assert_eq!(ring.next_head_pos(3), 4);
    assert_eq!(ring.next_head_pos(4), 0);
    assert_eq!(ring.next_head_pos(9), 0);
    assert_eq!(ring.next_head_pos(11), 2);
}

#[test]
fn ring_shows_its_slots() {
    let mut ring: RingBuffer<u8> = RingBuffer::new(3);
    assert_eq!(ring.buffer(), &vec![None, None, None]);
    ring.push(4);
    ring.push(5);
    assert_eq!(ring.buffer(), &vec![Some(4), Some(5), None]);
    assert_eq!(ring.pull(), Some(4));
    assert_eq!(ring.buffer(), &vec![Some(4), Some(5), None]);
    ring.push(6);
    ring.push(7);
    assert_eq!(ring.buffer(), &vec![Some(7), Some(5), Some(6)]);
}
