use radar_tlv::header::Data;
use radar_tlv::tlv::decode;
use radar_tlv::tlv::merge_side_info;
use radar_tlv::tlv::Obj;
use radar_tlv::tlv::TlvError;

fn header(num_detected_obj: u32, num_tlvs: u32, payload_len: usize) -> Data {
    Data {
        version: 0x0304_0006,
        total_packet_len: 40 + payload_len as u32,
        platform: 0x000a_6843,
        frame_number: 1,
        time_cpu_cycles: 0,
        num_detected_obj,
        num_tlvs,
        sub_frame_number: 0,
    }
}

fn tlv(kind: u32, body: &[u8]) -> Vec<u8> {
    let mut bytes = Vec::new();
    bytes.extend_from_slice(&kind.to_le_bytes());
    bytes.extend_from_slice(&(body.len() as u32 + 8).to_le_bytes());
    bytes.extend_from_slice(body);
    bytes
}

fn points(objs: &[(f32, f32, f32, f32)]) -> Vec<u8> {
    let mut body = Vec::new();
    for (x, y, z, v) in objs {
        body.extend_from_slice(&x.to_le_bytes());
        body.extend_from_slice(&y.to_le_bytes());
        body.extend_from_slice(&z.to_le_bytes());
        body.extend_from_slice(&v.to_le_bytes());
    }
    body
}

fn side_info(objs: &[(u16, u16)]) -> Vec<u8> {
    let mut body = Vec::new();
    for (snr, noise) in objs {
        body.extend_from_slice(&snr.to_le_bytes());
        body.extend_from_slice(&noise.to_le_bytes());
    }
    body
}

fn floats(obj: &Obj) -> (f32, f32, f32, f32) {
    (
        f32::from_bits(obj.x),
        f32::from_bits(obj.y),
        f32::from_bits(obj.z),
        f32::from_bits(obj.v),
    )
}

#[test]
fn two_objects_with_point_cloud_and_side_info() {
    let mut payload = tlv(1, &points(&[(1.0, 2.0, 3.0, 0.5), (4.0, 5.0, 6.0, -0.25)]));
    assert_eq!(payload.len(), 8 + 32);
    payload.extend_from_slice(&tlv(7, &side_info(&[(300, 20), (10, 5)])));
    assert_eq!(payload.len(), 8 + 32 + 8 + 8);
    let objs = decode(&header(2, 2, payload.len()), &payload).unwrap();
    assert_eq!(objs.len(), 2);
    assert_eq!(objs[0].obj_num, 0);
    assert_eq!(floats(&objs[0]), (1.0, 2.0, 3.0, 0.5));
    assert_eq!(objs[0].snr, 300);
    assert_eq!(objs[0].noise, 20);
    assert_eq!(objs[1].obj_num, 1);
    assert_eq!(floats(&objs[1]), (4.0, 5.0, 6.0, -0.25));
    assert_eq!(objs[1].snr, 10);
    assert_eq!(objs[1].noise, 5);
}

#[test]
fn coordinates_are_read_little_endian() {
    let body: Vec<u8> = vec![
        0x00, 0x00, 0x80, 0x3f, 0x78, 0x56, 0x34, 0x12, 0x01, 0x00, 0x00, 0x00, 0xff, 0xff, 0xff,
        0xff,
    ];
    let payload = tlv(1, &body);
    let objs = decode(&header(1, 1, payload.len()), &payload).unwrap();
    assert_eq!(objs.len(), 1);
    assert_eq!(objs[0].x, 0x3f80_0000);
    assert_eq!(f32::from_bits(objs[0].x), 1.0);
    assert_eq!(objs[0].y, 0x1234_5678);
    assert_eq!(objs[0].z, 1);
    assert_eq!(objs[0].v, 0xffff_ffff);
    assert_eq!(objs[0].snr, 0);
    assert_eq!(objs[0].noise, 0);
}

#[test]
fn round_trip_keeps_every_bit() {
    let coords = [
        (f32::MIN_POSITIVE, -0.0, f32::MAX, f32::EPSILON),
        (-123.456, 7.0e-12, 3.5e20, f32::INFINITY),
        (0.0, 1.0, -1.0, f32::NAN),
    ];
    let sides = [(0u16, 65535u16), (32768, 255), (256, 1)];
    let mut payload = tlv(1, &points(&coords));
    payload.extend_from_slice(&tlv(7, &side_info(&sides)));
    let objs = decode(&header(3, 2, payload.len()), &payload).unwrap();
    assert_eq!(objs.len(), 3);
    for i in 0..3 {
        assert_eq!(objs[i].obj_num, i);
        assert_eq!(objs[i].x, coords[i].0.to_bits());
        assert_eq!(objs[i].y, coords[i].1.to_bits());
        assert_eq!(objs[i].z, coords[i].2.to_bits());
        assert_eq!(objs[i].v, coords[i].3.to_bits());
        assert_eq!(objs[i].snr, sides[i].0 as u32);
        assert_eq!(objs[i].noise, sides[i].1 as u32);
    }
}

#[test]
fn side_info_is_not_sign_extended() {
    let mut payload = tlv(1, &points(&[(0.0, 0.0, 0.0, 0.0)]));
    payload.extend_from_slice(&tlv(7, &[0xff, 0xff, 0x80, 0x80]));
    let objs = decode(&header(1, 2, payload.len()), &payload).unwrap();
    assert_eq!(objs[0].snr, 65535);
    assert_eq!(objs[0].noise, 0x8080);
}

#[test]
fn zero_objects_with_empty_point_cloud() {
    let payload = tlv(1, &[]);
    assert_eq!(payload.len(), 8);
    let objs = decode(&header(0, 1, payload.len()), &payload).unwrap();
    assert!(objs.is_empty());
}

#[test]
fn zero_objects_with_empty_point_cloud_and_side_info() {
    let mut payload = tlv(1, &[]);
    payload.extend_from_slice(&tlv(7, &[]));
    let objs = decode(&header(0, 2, payload.len()), &payload).unwrap();
    assert!(objs.is_empty());
}

#[test]
fn no_tlvs_gives_no_objects() {
    let objs = decode(&header(3, 0, 5), &[1, 2, 3, 4, 5]).unwrap();
    assert!(objs.is_empty());
}

#[test]
fn unknown_types_are_skipped_by_length() {
    let mut payload = tlv(2, &[0xaa; 13]);
    payload.extend_from_slice(&tlv(1, &points(&[(1.5, 2.5, 3.5, 4.5)])));
    payload.extend_from_slice(&tlv(0x0102_0304, &[]));
    payload.extend_from_slice(&tlv(6, &[1, 0, 0, 0, 8, 0, 0, 0, 7, 7]));
    payload.extend_from_slice(&tlv(7, &side_info(&[(9, 8)])));
    payload.extend_from_slice(&tlv(9, &[0x55; 3]));
    let with_unknown = decode(&header(1, 6, payload.len()), &payload).unwrap();

    let mut plain = tlv(1, &points(&[(1.5, 2.5, 3.5, 4.5)]));
    plain.extend_from_slice(&tlv(7, &side_info(&[(9, 8)])));
    let without = decode(&header(1, 2, plain.len()), &plain).unwrap();

    assert_eq!(with_unknown.len(), 1);
    assert_eq!(without.len(), 1);
    assert_eq!(floats(&with_unknown[0]), (1.5, 2.5, 3.5, 4.5));
    assert_eq!(floats(&with_unknown[0]), floats(&without[0]));
    assert_eq!(with_unknown[0].snr, 9);
    assert_eq!(with_unknown[0].noise, 8);
    assert_eq!(with_unknown[0].snr, without[0].snr);
    assert_eq!(with_unknown[0].noise, without[0].noise);
    assert_eq!(with_unknown[0].obj_num, without[0].obj_num);
}

#[test]
fn unknown_type_alone_gives_no_objects() {
    let payload = tlv(3, &[1, 2, 3, 4, 5, 6]);
    let objs = decode(&header(4, 1, payload.len()), &payload).unwrap();
    assert!(objs.is_empty());
}

#[test]
fn side_info_before_point_cloud_fails() {
    let mut payload = tlv(7, &side_info(&[(300, 20), (10, 5)]));
    payload.extend_from_slice(&tlv(1, &points(&[(1.0, 2.0, 3.0, 0.5), (4.0, 5.0, 6.0, -0.25)])));
    let result = decode(&header(2, 2, payload.len()), &payload);
    assert_eq!(result.unwrap_err(), TlvError::OutOfOrderMerge);
}

#[test]
fn side_info_without_point_cloud_fails() {
    let mut payload = tlv(5, &[0; 4]);
    payload.extend_from_slice(&tlv(7, &side_info(&[(1, 2)])));
    let result = decode(&header(1, 2, payload.len()), &payload);
    assert_eq!(result.unwrap_err(), TlvError::OutOfOrderMerge);
}

#[test]
fn side_info_without_point_cloud_fails_for_zero_objects() {
    let payload = tlv(7, &[]);
    let result = decode(&header(0, 1, payload.len()), &payload);
    assert_eq!(result.unwrap_err(), TlvError::OutOfOrderMerge);
}

#[test]
fn missing_sub_header_is_truncated() {
    let payload = tlv(1, &points(&[(1.0, 2.0, 3.0, 4.0)]));
    let result = decode(&header(1, 2, payload.len()), &payload);
    assert_eq!(result.unwrap_err(), TlvError::Truncated);
    let result = decode(&header(1, 1, 7), &payload[..7]);
    assert_eq!(result.unwrap_err(), TlvError::Truncated);
    let result = decode(&header(0, 1, 0), &[]);
    assert_eq!(result.unwrap_err(), TlvError::Truncated);
}

#[test]
fn length_below_sub_header_is_invalid() {
    let mut payload = Vec::new();
    payload.extend_from_slice(&2u32.to_le_bytes());
    payload.extend_from_slice(&7u32.to_le_bytes());
    payload.extend_from_slice(&[0; 8]);
    let result = decode(&header(0, 1, payload.len()), &payload);
    assert_eq!(result.unwrap_err(), TlvError::InvalidLength);
}

#[test]
fn length_past_payload_is_invalid() {
    let mut payload = Vec::new();
    payload.extend_from_slice(&2u32.to_le_bytes());
    payload.extend_from_slice(&17u32.to_le_bytes());
    payload.extend_from_slice(&[0; 8]);
    let result = decode(&header(0, 1, payload.len()), &payload);
    assert_eq!(result.unwrap_err(), TlvError::InvalidLength);
    let mut huge = Vec::new();
    huge.extend_from_slice(&1u32.to_le_bytes());
    huge.extend_from_slice(&u32::MAX.to_le_bytes());
    let result = decode(&header(u32::MAX, 1, huge.len()), &huge);
    assert_eq!(result.unwrap_err(), TlvError::InvalidLength);
}

#[test]
fn length_that_reaches_the_end_exactly_is_accepted() {
    let mut payload = Vec::new();
    payload.extend_from_slice(&2u32.to_le_bytes());
    payload.extend_from_slice(&16u32.to_le_bytes());
    payload.extend_from_slice(&[0; 8]);
    let objs = decode(&header(0, 1, payload.len()), &payload).unwrap();
    assert!(objs.is_empty());
}

#[test]
fn point_cloud_of_wrong_size_is_invalid() {
    let payload = tlv(1, &points(&[(1.0, 2.0, 3.0, 4.0)]));
    let result = decode(&header(2, 1, payload.len()), &payload);
    assert_eq!(result.unwrap_err(), TlvError::InvalidLength);
    let result = decode(&header(0, 1, payload.len()), &payload);
    assert_eq!(result.unwrap_err(), TlvError::InvalidLength);
}

#[test]
fn side_info_of_wrong_size_is_invalid() {
    let mut payload = tlv(1, &points(&[(1.0, 2.0, 3.0, 4.0)]));
    payload.extend_from_slice(&tlv(7, &side_info(&[(1, 2), (3, 4)])));
    let result = decode(&header(1, 2, payload.len()), &payload);
    assert_eq!(result.unwrap_err(), TlvError::InvalidLength);
}

#[test]
fn side_info_of_wrong_size_is_reported_before_its_order() {
    let payload = tlv(7, &side_info(&[(1, 2), (3, 4)]));
    let result = decode(&header(1, 1, payload.len()), &payload);
    assert_eq!(result.unwrap_err(), TlvError::InvalidLength);
}

#[test]
fn bytes_after_the_last_record_are_ignored() {
    let mut payload = tlv(1, &points(&[(1.0, 2.0, 3.0, 4.0)]));
    payload.extend_from_slice(&[0xde, 0xad, 0xbe]);
    let objs = decode(&header(1, 1, payload.len()), &payload).unwrap();
    assert_eq!(objs.len(), 1);
    assert_eq!(floats(&objs[0]), (1.0, 2.0, 3.0, 4.0));
}

#[test]
fn second_point_cloud_appends_and_side_info_goes_to_the_first() {
    let mut payload = tlv(1, &points(&[(1.0, 1.0, 1.0, 1.0)]));
    payload.extend_from_slice(&tlv(1, &points(&[(2.0, 2.0, 2.0, 2.0)])));
    payload.extend_from_slice(&tlv(7, &side_info(&[(11, 12)])));
    let objs = decode(&header(1, 3, payload.len()), &payload).unwrap();
    assert_eq!(objs.len(), 2);
    assert_eq!(objs[0].obj_num, 0);
    assert_eq!(objs[1].obj_num, 0);
    assert_eq!(floats(&objs[0]), (1.0, 1.0, 1.0, 1.0));
    assert_eq!(floats(&objs[1]), (2.0, 2.0, 2.0, 2.0));
    assert_eq!((objs[0].snr, objs[0].noise), (11, 12));
    assert_eq!((objs[1].snr, objs[1].noise), (0, 0));
}

#[test]
fn later_side_info_overwrites_earlier() {
    let mut payload = tlv(1, &points(&[(1.0, 1.0, 1.0, 1.0)]));
    payload.extend_from_slice(&tlv(7, &side_info(&[(11, 12)])));
    payload.extend_from_slice(&tlv(7, &side_info(&[(21, 22)])));
    let objs = decode(&header(1, 3, payload.len()), &payload).unwrap();
    assert_eq!(objs.len(), 1);
    assert_eq!((objs[0].snr, objs[0].noise), (21, 22));
}

#[test]
fn objects_carry_a_timestamp() {
    let payload = tlv(1, &points(&[(1.0, 2.0, 3.0, 4.0)]));
    let objs = decode(&header(1, 1, payload.len()), &payload).unwrap();
    assert!(!objs[0].date.is_empty());
}

#[test]
fn new_object_has_no_side_info() {
    let obj = Obj::new(String::from("now"), 3, 1, 2, 3, 4);
    assert_eq!(obj.date, "now");
    assert_eq!(obj.obj_num, 3);
    assert_eq!((obj.x, obj.y, obj.z, obj.v), (1, 2, 3, 4));
    assert_eq!((obj.snr, obj.noise), (0, 0));
}

#[test]
fn merge_side_info_sets_one_object() {
    let mut objs = vec![
        Obj::new(String::from("a"), 0, 1, 2, 3, 4),
        Obj::new(String::from("b"), 1, 5, 6, 7, 8),
    ];
    assert_eq!(merge_side_info(&mut objs, 1, 300, 20), Ok(()));
    assert_eq!((objs[0].snr, objs[0].noise), (0, 0));
    assert_eq!((objs[1].snr, objs[1].noise), (300, 20));
    assert_eq!(objs[1].date, "b");
    assert_eq!(objs[1].obj_num, 1);
    assert_eq!((objs[1].x, objs[1].y, objs[1].z, objs[1].v), (5, 6, 7, 8));
}

#[test]
fn merge_side_info_past_the_end_fails() {
    let mut objs = vec![Obj::new(String::from("a"), 0, 1, 2, 3, 4)];
    assert_eq!(merge_side_info(&mut objs, 1, 300, 20), Err(TlvError::OutOfOrderMerge));
    assert_eq!(objs.len(), 1);
    assert_eq!((objs[0].snr, objs[0].noise), (0, 0));
    let mut none: Vec<Obj> = Vec::new();
    assert_eq!(merge_side_info(&mut none, 0, 1, 1), Err(TlvError::OutOfOrderMerge));
    assert!(none.is_empty());
}
