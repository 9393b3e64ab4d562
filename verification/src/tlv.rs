//! Decoding of a packet's payload: a run of type-length-value records that
//! together describe the objects the sensor detected.
use crate::bytes::le_u16;
use crate::bytes::le_u32;
use crate::bytes::u16_from_le;
use crate::bytes::wire_u32_at;
use crate::header::Data;
use vstd::prelude::*;
use vstd::slice::slice_subrange;

verus! {

/// Bytes in the sub-header that opens every TLV record.
pub const TLV_HEADER_LEN: usize = 8;

/// TLV type of the point cloud: x, y, z and velocity of every object.
pub const TLV_POINT_CLOUD: u32 = 1;

/// TLV type of the side information: snr and noise of every object.
pub const TLV_SIDE_INFO: u32 = 7;

/// Bytes that one object takes in a point-cloud record.
pub const POINT_LEN: usize = 16;

/// Bytes that one object takes in a side-information record.
pub const SIDE_INFO_LEN: usize = 4;

/// Why a payload could not be decoded.
#[derive(Clone, Copy, Debug, PartialEq, Eq, Structural)]
pub enum TlvError {
    /// Fewer than eight bytes were left where a TLV sub-header was due.
    Truncated,
    /// A TLV declared a length that is below eight, runs past the payload, or
    /// does not fit the number of objects.
    InvalidLength,
    /// Side information arrived before any point cloud in the same packet.
    OutOfOrderMerge,
}

/// One detected object.
///
/// The coordinates and the velocity are kept as the bit patterns of the
/// IEEE-754 single-precision numbers that the sensor sent.
#[derive(Debug)]
pub struct Obj {
    /// When the object's coordinates were decoded, as text. Not part of the
    /// wire format.
    pub date: String,
    /// Position of the object in the packet's detection list.
    pub obj_num: usize,
    /// Bits of the x coordinate.
    pub x: u32,
    /// Bits of the y coordinate.
    pub y: u32,
    /// Bits of the z coordinate.
    pub z: u32,
    /// Bits of the radial velocity.
    pub v: u32,
    /// Signal-to-noise ratio.
    pub snr: u32,
    /// Noise floor.
    pub noise: u32,
}

/// What the wire says of one object: every field of an `Obj` but its
/// timestamp.
pub struct Reading {
    pub index: nat,
    pub x: u32,
    pub y: u32,
    pub z: u32,
    pub v: u32,
    pub snr: u32,
    pub noise: u32,
}

impl View for Obj {
    type V = Reading;

    open spec fn view(&self) -> Reading {
        Reading {
            index: self.obj_num as nat,
            x: self.x,
            y: self.y,
            z: self.z,
            v: self.v,
            snr: self.snr,
            noise: self.noise,
        }
    }
}

/// The readings of a list of objects, in order.
pub open spec fn readings(objs: Seq<Obj>) -> Seq<Reading> {
    objs.map_values(|o: Obj| o@)
}

/// One TLV record: its type and the bytes that follow its sub-header.
pub struct Tlv {
    pub kind: u32,
    pub body: Seq<u8>,
}

/// Splits the record at the front of `bytes` from what follows it.
pub open spec fn split_tlv(bytes: Seq<u8>) -> Result<(Tlv, Seq<u8>), TlvError> {
    if bytes.len() < 8 {
        Err(TlvError::Truncated)
    } else {
        let length = le_u32(bytes.subrange(4, 8));
        if length < 8 || length > bytes.len() {
            Err(TlvError::InvalidLength)
        } else {
            Ok(
                (
                    Tlv { kind: le_u32(bytes.subrange(0, 4)), body: bytes.subrange(8, length as int) },
                    bytes.skip(length as int),
                ),
            )
        }
    }
}

/// The reading that a point-cloud body holds for object `i`.
pub open spec fn point_at(body: Seq<u8>, i: int) -> Reading {
    Reading {
        index: i as nat,
        x: le_u32(body.subrange(16 * i, 16 * i + 4)),
        y: le_u32(body.subrange(16 * i + 4, 16 * i + 8)),
        z: le_u32(body.subrange(16 * i + 8, 16 * i + 12)),
        v: le_u32(body.subrange(16 * i + 12, 16 * i + 16)),
        snr: 0,
        noise: 0,
    }
}

/// The `n` readings of a point-cloud body, side information still zero.
pub open spec fn point_cloud(body: Seq<u8>, n: nat) -> Seq<Reading> {
    Seq::new(n, |i: int| point_at(body, i))
}

/// `r` with the side information that `body` holds for object `i`.
pub open spec fn merged(r: Reading, body: Seq<u8>, i: int) -> Reading {
    Reading {
        snr: le_u16(body.subrange(4 * i, 4 * i + 2)),
        noise: le_u16(body.subrange(4 * i + 2, 4 * i + 4)),
        ..r
    }
}

/// `objs` after the side information of `body` has been merged into its
/// first `n` readings.
pub open spec fn with_side_info(objs: Seq<Reading>, body: Seq<u8>, n: nat) -> Seq<Reading> {
    Seq::new(
        objs.len(),
        |i: int|
            if i < n {
                merged(objs[i], body, i)
            } else {
                objs[i]
            },
    )
}

/// What has been decoded of a packet so far.
pub struct Decoded {
    /// The readings collected so far.
    pub objects: Seq<Reading>,
    /// Whether a point cloud has been decoded in this packet.
    pub located: bool,
}

/// The effect of one record on what has been decoded, for a packet of `n`
/// objects.
pub open spec fn apply_tlv(n: nat, tlv: Tlv, state: Decoded) -> Result<Decoded, TlvError> {
    if tlv.kind == TLV_POINT_CLOUD {
        if tlv.body.len() != 16 * n {
            Err(TlvError::InvalidLength)
        } else {
            Ok(Decoded { objects: state.objects + point_cloud(tlv.body, n), located: true })
        }
    } else if tlv.kind == TLV_SIDE_INFO {
        if tlv.body.len() != 4 * n {
            Err(TlvError::InvalidLength)
        } else if !state.located {
            Err(TlvError::OutOfOrderMerge)
        } else {
            Ok(Decoded { objects: with_side_info(state.objects, tlv.body, n), located: true })
        }
    } else {
        Ok(state)
    }
}

/// Decodes `count` records from the front of `bytes`, starting from `state`.
pub open spec fn decode_tlvs(n: nat, count: nat, bytes: Seq<u8>, state: Decoded) -> Result<
    Seq<Reading>,
    TlvError,
>
    decreases count,
{
    if count == 0 {
        Ok(state.objects)
    } else {
        match split_tlv(bytes) {
            Err(e) => Err(e),
            Ok((tlv, rest)) => match apply_tlv(n, tlv, state) {
                Err(e) => Err(e),
                Ok(next) => decode_tlvs(n, (count - 1) as nat, rest, next),
            },
        }
    }
}

/// Nothing decoded yet.
pub open spec fn nothing_decoded() -> Decoded {
    Decoded { objects: Seq::empty(), located: false }
}

/// The readings that a packet's payload holds, or the first error met while
/// walking its records.
pub open spec fn spec_decode(header: Data, payload: Seq<u8>) -> Result<Seq<Reading>, TlvError> {
    decode_tlvs(
        header.num_detected_obj as nat,
        header.num_tlvs as nat,
        payload,
        nothing_decoded(),
    )
}

/// `chrono::offset::Local::now`, formatted by `to_string`: the local time at
/// the moment of the call. Nothing is claimed of the text.
#[verifier::external_body]
pub(crate) fn local_timestamp() -> (stamp: String) {
    chrono::offset::Local::now().to_string()
}

impl Obj {
    /// An object located at `x`, `y`, `z` with velocity `v`, stamped `date`,
    /// whose side information has not arrived yet.
    pub fn new(date: String, obj_num: usize, x: u32, y: u32, z: u32, v: u32) -> (obj: Obj)
        ensures
            obj.date == date,
            obj@ == (Reading { index: obj_num as nat, x, y, z, v, snr: 0, noise: 0 }),
    {
        Obj { date, obj_num, x, y, z, v, snr: 0, noise: 0 }
    }
}

/// Stores `snr` and `noise` in the object at `index`.
///
/// Fails with `OutOfOrderMerge`, leaving the list as it was, when no object
/// exists at `index`.
pub fn merge_side_info(objects: &mut Vec<Obj>, index: usize, snr: u32, noise: u32) -> (result:
    Result<(), TlvError>)
    ensures
        index < old(objects).len() ==> result.is_ok() && final(objects)@ == old(objects)@.update(
            index as int,
            (Obj {
                date: old(objects)[index as int].date,
                obj_num: old(objects)[index as int].obj_num,
                x: old(objects)[index as int].x,
                y: old(objects)[index as int].y,
                z: old(objects)[index as int].z,
                v: old(objects)[index as int].v,
                snr,
                noise,
            }),
        ),
        index >= old(objects).len() ==> result == Err::<(), TlvError>(TlvError::OutOfOrderMerge)
            && final(objects)@ == old(objects)@,
{
    if index >= objects.len() {
        return Err(TlvError::OutOfOrderMerge);
    }
    objects[index].snr = snr;
    objects[index].noise = noise;
    Ok(())
}

/// Appends the `n` objects of a point-cloud body to `objects`, each stamped
/// with the time at which it was decoded.
fn append_point_cloud(body: &[u8], n: usize, objects: &mut Vec<Obj>)
    requires
        body.len() == 16 * n,
    ensures
        final(objects).len() == old(objects).len() + n,
        readings(final(objects)@) == readings(old(objects)@) + point_cloud(body@, n as nat),
{
    let ghost before = objects@;
    let mut j: usize = 0;
    while j < n
        invariant
            j <= n,
            body.len() == 16 * n,
            objects.len() == before.len() + j,
            readings(objects@) == readings(before) + point_cloud(body@, j as nat),
        decreases n - j,
    {
        let at: usize = j * POINT_LEN;
        let x: u32 = wire_u32_at(body, at);
        let y: u32 = wire_u32_at(body, at + 4);
        let z: u32 = wire_u32_at(body, at + 8);
        let v: u32 = wire_u32_at(body, at + 12);
        let obj = Obj::new(local_timestamp(), j, x, y, z, v);
        assert(obj@ == point_at(body@, j as int));
        let ghost grown = objects@.push(obj);
        assert(readings(grown) =~= readings(objects@).push(obj@));
        assert(point_cloud(body@, (j + 1) as nat) =~= point_cloud(body@, j as nat).push(
            point_at(body@, j as int),
        ));
        objects.push(obj);
        j += 1;
    }
}

/// Merges the side information of `body` into the first `n` objects.
fn merge_all_side_info(body: &[u8], n: usize, objects: &mut Vec<Obj>) -> (result: Result<
    (),
    TlvError,
>)
    requires
        body.len() == 4 * n,
        n <= old(objects).len(),
    ensures
        result.is_ok(),
        final(objects).len() == old(objects).len(),
        readings(final(objects)@) == with_side_info(readings(old(objects)@), body@, n as nat),
{
    let ghost before = readings(objects@);
    let mut j: usize = 0;
    while j < n
        invariant
            j <= n,
            body.len() == 4 * n,
            n <= objects.len(),
            before.len() == objects.len(),
            readings(objects@) == with_side_info(before, body@, j as nat),
        decreases n - j,
    {
        let at: usize = j * SIDE_INFO_LEN;
        let snr: u32 = u16_from_le(body[at], body[at + 1]);
        let noise: u32 = u16_from_le(body[at + 2], body[at + 3]);
        let ghost earlier = readings(objects@);
        match merge_side_info(objects, j, snr, noise) {
            Ok(()) => {},
            Err(e) => {
                return Err(e);
            },
        }
        assert(readings(objects@) =~= with_side_info(before, body@, (j + 1) as nat)) by {
            assert(readings(objects@).len() == before.len());
            assert forall|i: int| 0 <= i < before.len() implies readings(objects@)[i]
                == with_side_info(before, body@, (j + 1) as nat)[i] by {
                if i == j {
                    assert(earlier[i] == before[i]);
                    assert(snr == le_u16(body@.subrange(4 * i, 4 * i + 2)));
                    assert(noise == le_u16(body@.subrange(4 * i + 2, 4 * i + 4)));
                } else {
                    assert(readings(objects@)[i] == earlier[i]);
                }
            }
        }
        j += 1;
    }
    assert(with_side_info(before, body@, 0) =~= before);
    Ok(())
}

/// Decodes the payload of one packet into its detected objects.
///
/// Walks `header.num_tlvs` records from the front of `payload`. A point cloud
/// appends `header.num_detected_obj` objects; side information is merged into
/// the objects that a point cloud of the same packet created; records of any
/// other type are skipped by their declared length. Bytes after the last
/// record are ignored. The first malformed record ends the decoding with its
/// error and no objects. Only the timestamps of the objects are not fixed by
/// the arguments.
pub fn decode(header: &Data, payload: &[u8]) -> (result: Result<Vec<Obj>, TlvError>)
    ensures
        match result {
            Ok(objs) => spec_decode(*header, payload@) == Ok::<Seq<Reading>, TlvError>(
                readings(objs@),
            ),
            Err(e) => spec_decode(*header, payload@) == Err::<Seq<Reading>, TlvError>(e),
        },
{
    let n: u32 = header.num_detected_obj;
    let mut objects: Vec<Obj> = Vec::new();
    let mut located: bool = false;
    let mut pos: usize = 0;
    let mut done: u32 = 0;
    assert(readings(objects@) =~= Seq::<Reading>::empty());
    assert(payload@.skip(0) =~= payload@);
    while done < header.num_tlvs
        invariant
            pos <= payload.len(),
            done <= header.num_tlvs,
            n == header.num_detected_obj,
            located ==> objects.len() >= n,
            spec_decode(*header, payload@) == decode_tlvs(
                n as nat,
                (header.num_tlvs - done) as nat,
                payload@.skip(pos as int),
                (Decoded { objects: readings(objects@), located }),
            ),
        decreases header.num_tlvs - done,
    {
        let ghost rest = payload@.skip(pos as int);
        let left: usize = payload.len() - pos;
        if left < TLV_HEADER_LEN {
            return Err(TlvError::Truncated);
        }
        let kind: u32 = wire_u32_at(payload, pos);
        let length: u32 = wire_u32_at(payload, pos + 4);
        assert(rest.subrange(0, 4) =~= payload@.subrange(pos as int, pos + 4));
        assert(rest.subrange(4, 8) =~= payload@.subrange(pos + 4, pos + 8));
        if length < 8 || length as usize > left {
            return Err(TlvError::InvalidLength);
        }
        let end: usize = pos + length as usize;
        let body = slice_subrange(payload, pos + TLV_HEADER_LEN, end);
        assert(body@ =~= rest.subrange(8, length as int));
        assert(payload@.skip(end as int) =~= rest.skip(length as int));
        if kind == TLV_POINT_CLOUD {
            if body.len() as u64 != (n as u64) * 16 {
                return Err(TlvError::InvalidLength);
            }
            append_point_cloud(body, n as usize, &mut objects);
            located = true;
        } else if kind == TLV_SIDE_INFO {
            if body.len() as u64 != (n as u64) * 4 {
                return Err(TlvError::InvalidLength);
            }
            if !located {
                return Err(TlvError::OutOfOrderMerge);
            }
            match merge_all_side_info(body, n as usize, &mut objects) {
                Ok(()) => {},
                Err(e) => {
                    return Err(e);
                },
            }
        }
        pos = end;
        done += 1;
    }
    Ok(objects)
}

} // verus!
