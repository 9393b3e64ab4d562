//! What holds of the TLV decoder on every payload: the wire encoding that it
//! inverts, and how it treats records it does not know or that come out of
//! order.
use crate::bytes::le_u32;
use crate::bytes::lemma_le_u16_round_trip;
use crate::bytes::lemma_le_u32_round_trip;
use crate::bytes::u16_le_bytes;
use crate::bytes::u32_le_bytes;
use crate::header::Data;
use crate::tlv::apply_tlv;
use crate::tlv::decode_tlvs;
use crate::tlv::nothing_decoded;
use crate::tlv::merged;
use crate::tlv::point_at;
use crate::tlv::point_cloud;
use crate::tlv::spec_decode;
use crate::tlv::split_tlv;
use crate::tlv::with_side_info;
use crate::tlv::Decoded;
use crate::tlv::Reading;
use crate::tlv::Tlv;
use crate::tlv::TlvError;
use crate::tlv::TLV_POINT_CLOUD;
use crate::tlv::TLV_SIDE_INFO;
use vstd::prelude::*;

verus! {

/// Whether a record fits the wire format: its length, sub-header included,
/// can be written in 32 bits.
pub open spec fn encodable(tlv: Tlv) -> bool {
    tlv.body.len() + 8 <= u32::MAX
}

/// The bytes of one record: type, length with the sub-header counted in, body.
pub open spec fn tlv_bytes(tlv: Tlv) -> Seq<u8> {
    u32_le_bytes(tlv.kind) + u32_le_bytes((tlv.body.len() + 8) as u32) + tlv.body
}

/// The bytes of a run of records.
pub open spec fn tlvs_bytes(tlvs: Seq<Tlv>) -> Seq<u8>
    decreases tlvs.len(),
{
    if tlvs.len() == 0 {
        Seq::empty()
    } else {
        tlv_bytes(tlvs[0]) + tlvs_bytes(tlvs.skip(1))
    }
}

/// The 16 bytes of one object in a point cloud.
pub open spec fn point_bytes(r: Reading) -> Seq<u8> {
    u32_le_bytes(r.x) + u32_le_bytes(r.y) + u32_le_bytes(r.z) + u32_le_bytes(r.v)
}

/// The 4 bytes of one object in a side-information record.
pub open spec fn side_bytes(r: Reading) -> Seq<u8> {
    u16_le_bytes(r.snr) + u16_le_bytes(r.noise)
}

/// The body of the point cloud of `objs`.
pub open spec fn point_cloud_bytes(objs: Seq<Reading>) -> Seq<u8>
    decreases objs.len(),
{
    if objs.len() == 0 {
        Seq::empty()
    } else {
        point_cloud_bytes(objs.drop_last()) + point_bytes(objs.last())
    }
}

/// The body of the side information of `objs`.
pub open spec fn side_info_bytes(objs: Seq<Reading>) -> Seq<u8>
    decreases objs.len(),
{
    if objs.len() == 0 {
        Seq::empty()
    } else {
        side_info_bytes(objs.drop_last()) + side_bytes(objs.last())
    }
}

/// The payload that describes `objs`: their point cloud, then their side
/// information.
pub open spec fn payload_of(objs: Seq<Reading>) -> Seq<u8> {
    tlv_bytes(Tlv { kind: TLV_POINT_CLOUD, body: point_cloud_bytes(objs) }) + tlv_bytes(
        Tlv { kind: TLV_SIDE_INFO, body: side_info_bytes(objs) },
    )
}

/// Whether `objs` can be the detection list of one packet: the readings are
/// numbered from zero, and their side information fits 16 bits.
pub open spec fn detection_list(objs: Seq<Reading>) -> bool {
    forall|i: int|
        0 <= i < objs.len() ==> {
            &&& (#[trigger] objs[i]).index == i
            &&& objs[i].snr < 0x1_0000
            &&& objs[i].noise < 0x1_0000
        }
}

/// A record written by `tlv_bytes` is split off again as it was, whatever
/// follows it.
pub proof fn lemma_split_inverts_tlv_bytes(tlv: Tlv, rest: Seq<u8>)
    requires
        encodable(tlv),
    ensures
        split_tlv(tlv_bytes(tlv) + rest) == Ok::<(Tlv, Seq<u8>), TlvError>((tlv, rest)),
{
    let length = (tlv.body.len() + 8) as u32;
    let bytes = tlv_bytes(tlv) + rest;
    lemma_le_u32_round_trip(tlv.kind);
    lemma_le_u32_round_trip(length);
    assert(bytes.subrange(0, 4) =~= u32_le_bytes(tlv.kind));
    assert(bytes.subrange(4, 8) =~= u32_le_bytes(length));
    assert(bytes.subrange(8, length as int) =~= tlv.body);
    assert(bytes.skip(length as int) =~= rest);
}

/// A record of a type other than point cloud and side information is skipped
/// by its declared length: decoding goes on behind it as if it had not been
/// there, whatever its body holds.
pub proof fn lemma_unknown_tlv_skipped(n: nat, count: nat, bytes: Seq<u8>, state: Decoded)
    requires
        bytes.len() >= 8,
        le_u32(bytes.subrange(0, 4)) != TLV_POINT_CLOUD,
        le_u32(bytes.subrange(0, 4)) != TLV_SIDE_INFO,
        8 <= le_u32(bytes.subrange(4, 8)) <= bytes.len(),
    ensures
        decode_tlvs(n, count + 1, bytes, state) == decode_tlvs(
            n,
            count,
            bytes.skip(le_u32(bytes.subrange(4, 8)) as int),
            state,
        ),
{
}

/// A run of well-formed records of unknown types in front of a payload
/// changes nothing but the number of records that are left to walk.
pub proof fn lemma_unknown_tlvs_skipped(
    n: nat,
    count: nat,
    tlvs: Seq<Tlv>,
    rest: Seq<u8>,
    state: Decoded,
)
    requires
        forall|i: int|
            0 <= i < tlvs.len() ==> {
                &&& encodable(#[trigger] tlvs[i])
                &&& tlvs[i].kind != TLV_POINT_CLOUD
                &&& tlvs[i].kind != TLV_SIDE_INFO
            },
    ensures
        decode_tlvs(n, tlvs.len() + count, tlvs_bytes(tlvs) + rest, state) == decode_tlvs(
            n,
            count,
            rest,
            state,
        ),
    decreases tlvs.len(),
{
    if tlvs.len() == 0 {
        assert(tlvs_bytes(tlvs) + rest =~= rest);
    } else {
        let later = tlvs.skip(1);
        assert forall|i: int| 0 <= i < later.len() implies {
            &&& encodable(#[trigger] later[i])
            &&& later[i].kind != TLV_POINT_CLOUD
            &&& later[i].kind != TLV_SIDE_INFO
        } by {
            assert(later[i] == tlvs[i + 1]);
        }
        let behind = tlvs_bytes(later) + rest;
        assert(tlvs_bytes(tlvs) + rest =~= tlv_bytes(tlvs[0]) + behind);
        lemma_split_inverts_tlv_bytes(tlvs[0], behind);
        lemma_unknown_tlvs_skipped(n, count, later, rest, state);
        assert((tlvs.len() + count - 1) as nat == later.len() + count);
    }
}

/// Side information that no point cloud precedes fails the whole packet with
/// `OutOfOrderMerge`: no object comes out of it. The records in front of it
/// are well formed and of unknown types, the side information itself has the
/// length that the object count asks for, and the header counts it among the
/// records to walk.
pub proof fn lemma_side_info_needs_point_cloud(
    header: Data,
    before: Seq<Tlv>,
    side: Seq<u8>,
    rest: Seq<u8>,
)
    requires
        forall|i: int|
            0 <= i < before.len() ==> {
                &&& encodable(#[trigger] before[i])
                &&& before[i].kind != TLV_POINT_CLOUD
                &&& before[i].kind != TLV_SIDE_INFO
            },
        side.len() == 4 * header.num_detected_obj,
        side.len() + 8 <= u32::MAX,
        before.len() < header.num_tlvs,
    ensures
        spec_decode(
            header,
            tlvs_bytes(before) + tlv_bytes(Tlv { kind: TLV_SIDE_INFO, body: side }) + rest,
        ) == Err::<Seq<Reading>, TlvError>(TlvError::OutOfOrderMerge),
{
    let record = Tlv { kind: TLV_SIDE_INFO, body: side };
    let behind = tlv_bytes(record) + rest;
    let left = (header.num_tlvs - before.len()) as nat;
    assert(tlvs_bytes(before) + tlv_bytes(record) + rest =~= tlvs_bytes(before) + behind);
    lemma_unknown_tlvs_skipped(
        header.num_detected_obj as nat,
        left,
        before,
        behind,
        nothing_decoded(),
    );
    assert(before.len() + left == header.num_tlvs as nat);
    lemma_split_inverts_tlv_bytes(record, rest);
}

/// The point cloud of `objs` holds 16 bytes for each of them, and reading
/// object `i` back gives its coordinates and velocity.
pub proof fn lemma_point_cloud_read_back(objs: Seq<Reading>, i: int)
    requires
        0 <= i < objs.len(),
    ensures
        point_cloud_bytes(objs).len() == 16 * objs.len(),
        point_at(point_cloud_bytes(objs), i) == (Reading {
            index: i as nat,
            snr: 0,
            noise: 0,
            ..objs[i]
        }),
    decreases objs.len(),
{
    let body = point_cloud_bytes(objs);
    let front = point_cloud_bytes(objs.drop_last());
    let last = objs.last();
    lemma_point_cloud_len(objs.drop_last());
    lemma_le_u32_round_trip(last.x);
    lemma_le_u32_round_trip(last.y);
    lemma_le_u32_round_trip(last.z);
    lemma_le_u32_round_trip(last.v);
    if i == objs.len() - 1 {
        assert(body.subrange(16 * i, 16 * i + 4) =~= u32_le_bytes(last.x));
        assert(body.subrange(16 * i + 4, 16 * i + 8) =~= u32_le_bytes(last.y));
        assert(body.subrange(16 * i + 8, 16 * i + 12) =~= u32_le_bytes(last.z));
        assert(body.subrange(16 * i + 12, 16 * i + 16) =~= u32_le_bytes(last.v));
    } else {
        lemma_point_cloud_read_back(objs.drop_last(), i);
        assert(body.subrange(16 * i, 16 * i + 4) =~= front.subrange(16 * i, 16 * i + 4));
        assert(body.subrange(16 * i + 4, 16 * i + 8) =~= front.subrange(16 * i + 4, 16 * i + 8));
        assert(body.subrange(16 * i + 8, 16 * i + 12) =~= front.subrange(
            16 * i + 8,
            16 * i + 12,
        ));
        assert(body.subrange(16 * i + 12, 16 * i + 16) =~= front.subrange(
            16 * i + 12,
            16 * i + 16,
        ));
    }
}

/// The point cloud of `objs` holds 16 bytes for each of them.
pub proof fn lemma_point_cloud_len(objs: Seq<Reading>)
    ensures
        point_cloud_bytes(objs).len() == 16 * objs.len(),
    decreases objs.len(),
{
    if objs.len() > 0 {
        lemma_point_cloud_len(objs.drop_last());
        lemma_le_u32_round_trip(objs.last().x);
        lemma_le_u32_round_trip(objs.last().y);
        lemma_le_u32_round_trip(objs.last().z);
        lemma_le_u32_round_trip(objs.last().v);
    }
}

/// The side information of `objs` holds 4 bytes for each of them.
pub proof fn lemma_side_info_len(objs: Seq<Reading>)
    ensures
        side_info_bytes(objs).len() == 4 * objs.len(),
    decreases objs.len(),
{
    if objs.len() > 0 {
        lemma_side_info_len(objs.drop_last());
    }
}

/// Merging object `i` of the side information of `objs` into a reading gives
/// it the snr and the noise of `objs[i]`.
pub proof fn lemma_side_info_read_back(objs: Seq<Reading>, i: int, r: Reading)
    requires
        0 <= i < objs.len(),
        objs[i].snr < 0x1_0000,
        objs[i].noise < 0x1_0000,
    ensures
        merged(r, side_info_bytes(objs), i) == (Reading {
            snr: objs[i].snr,
            noise: objs[i].noise,
            ..r
        }),
    decreases objs.len(),
{
    let body = side_info_bytes(objs);
    let front = side_info_bytes(objs.drop_last());
    let last = objs.last();
    lemma_side_info_len(objs.drop_last());
    if i == objs.len() - 1 {
        lemma_le_u16_round_trip(last.snr);
        lemma_le_u16_round_trip(last.noise);
        assert(body.subrange(4 * i, 4 * i + 2) =~= u16_le_bytes(last.snr));
        assert(body.subrange(4 * i + 2, 4 * i + 4) =~= u16_le_bytes(last.noise));
    } else {
        lemma_side_info_read_back(objs.drop_last(), i, r);
        assert(body.subrange(4 * i, 4 * i + 2) =~= front.subrange(4 * i, 4 * i + 2));
        assert(body.subrange(4 * i + 2, 4 * i + 4) =~= front.subrange(4 * i + 2, 4 * i + 4));
    }
}

/// A reading as it stands after its point cloud and before its side
/// information.
pub open spec fn located_only(r: Reading) -> Reading {
    Reading { snr: 0, noise: 0, ..r }
}

/// Reading back the point cloud of a detection list gives the list without
/// its side information.
pub proof fn lemma_point_cloud_inverts(objs: Seq<Reading>)
    requires
        detection_list(objs),
    ensures
        point_cloud_bytes(objs).len() == 16 * objs.len(),
        point_cloud(point_cloud_bytes(objs), objs.len()) == objs.map_values(
            |r: Reading| located_only(r),
        ),
{
    lemma_point_cloud_len(objs);
    let read = point_cloud(point_cloud_bytes(objs), objs.len());
    let expected = objs.map_values(|r: Reading| located_only(r));
    assert forall|i: int| 0 <= i < objs.len() implies read[i] == expected[i] by {
        lemma_point_cloud_read_back(objs, i);
    }
    assert(read =~= expected);
}

/// Merging the side information of a detection list into the list without
/// its side information gives the list.
pub proof fn lemma_side_info_inverts(objs: Seq<Reading>)
    requires
        detection_list(objs),
    ensures
        side_info_bytes(objs).len() == 4 * objs.len(),
        with_side_info(
            objs.map_values(|r: Reading| located_only(r)),
            side_info_bytes(objs),
            objs.len(),
        ) == objs,
{
    lemma_side_info_len(objs);
    let located = objs.map_values(|r: Reading| located_only(r));
    let done = with_side_info(located, side_info_bytes(objs), objs.len());
    assert forall|i: int| 0 <= i < objs.len() implies done[i] == objs[i] by {
        lemma_side_info_read_back(objs, i, located[i]);
    }
    assert(done =~= objs);
}

/// Round trip: a payload written for a detection list decodes to exactly that
/// list, bit for bit in the coordinates and the velocity, value for value in
/// snr and noise.
pub proof fn lemma_round_trip(header: Data, objs: Seq<Reading>)
    requires
        detection_list(objs),
        header.num_detected_obj == objs.len(),
        header.num_tlvs == 2,
        16 * objs.len() + 8 <= u32::MAX,
    ensures
        spec_decode(header, payload_of(objs)) == Ok::<Seq<Reading>, TlvError>(objs),
{
    let n = objs.len();
    let cloud = Tlv { kind: TLV_POINT_CLOUD, body: point_cloud_bytes(objs) };
    let side = Tlv { kind: TLV_SIDE_INFO, body: side_info_bytes(objs) };
    let located = objs.map_values(|r: Reading| located_only(r));
    let first = Decoded { objects: located, located: true };
    let second = Decoded { objects: objs, located: true };
    lemma_point_cloud_inverts(objs);
    lemma_side_info_inverts(objs);
    assert(apply_tlv(n, cloud, nothing_decoded()) == Ok::<Decoded, TlvError>(first))
        by {
        assert(Seq::<Reading>::empty() + point_cloud(cloud.body, n) =~= located);
    }
    assert(apply_tlv(n, side, first) == Ok::<Decoded, TlvError>(second));
    assert(decode_tlvs(n, 1, tlv_bytes(side), first) == Ok::<Seq<Reading>, TlvError>(objs)) by {
        lemma_split_inverts_tlv_bytes(side, Seq::empty());
        assert(tlv_bytes(side) + Seq::<u8>::empty() =~= tlv_bytes(side));
        assert(decode_tlvs(n, 0, Seq::empty(), second) == Ok::<Seq<Reading>, TlvError>(objs));
    }
    assert(decode_tlvs(n, 2, payload_of(objs), nothing_decoded()) == decode_tlvs(
        n,
        1,
        tlv_bytes(side),
        first,
    )) by {
        lemma_split_inverts_tlv_bytes(cloud, tlv_bytes(side));
    }
}

} // verus!
