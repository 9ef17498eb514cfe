use vstd::prelude::*;

use std::collections::hash_map::RandomState;
use std::hash::BuildHasher;

use crate::frame::{EthernetFrame, FrameModel};

verus! {

/// Reserved EtherType for the switch's own loop-detection probes, never real
/// user traffic. Recognized and pulled out of the data path before any
/// VLAN/tag processing, the way real switches special-case BPDUs.
pub const PROBE_ETHERTYPE: u16 = 0x88B7;

/// First byte of a probe's source MAC: locally administered and multicast,
/// so the "never learn a multicast source" rule keeps probes out of the MAC
/// table with no special-casing.
pub const PROBE_SRC_PREFIX: u8 = 0x03;

/// The eight big-endian bytes of `v`.
pub open spec fn be64_bytes(v: u64) -> Seq<u8> {
    seq![
        (v / 256 / 256 / 256 / 256 / 256 / 256 / 256 % 256) as u8,
        (v / 256 / 256 / 256 / 256 / 256 / 256 % 256) as u8,
        (v / 256 / 256 / 256 / 256 / 256 % 256) as u8,
        (v / 256 / 256 / 256 / 256 % 256) as u8,
        (v / 256 / 256 / 256 % 256) as u8,
        (v / 256 / 256 % 256) as u8,
        (v / 256 % 256) as u8,
        (v % 256) as u8,
    ]
}

/// The big-endian value of the first eight bytes of `b`.
pub open spec fn be64(b: Seq<u8>) -> u64 {
    (((((((b[0] as int * 256 + b[1] as int) * 256 + b[2] as int) * 256 + b[3] as int) * 256
        + b[4] as int) * 256 + b[5] as int) * 256 + b[6] as int) * 256 + b[7] as int) as u64
}

/// A MAC address is a group (multicast/broadcast) address when the I/G bit,
/// the least-significant bit of its first octet, is set.
pub open spec fn is_group_address_spec(mac: Seq<u8>) -> bool {
    mac[0] % 2 == 1
}

pub fn is_group_address(mac: &[u8; 6]) -> (b: bool)
    ensures
        b == is_group_address_spec(mac@),
{
    mac[0] % 2 == 1
}

/// The probe id a probe payload carries: its first eight bytes, big-endian.
/// Anything shorter carries none. Bytes past the first eight (the zero
/// padding a minimum-size Ethernet frame adds) are ignored.
pub open spec fn payload_probe_id_spec(payload: Seq<u8>) -> Option<u64> {
    if payload.len() >= 8 {
        Some(be64(payload))
    } else {
        None
    }
}

/// Whether a frame is a loop-guard probe at all, regardless of whose.
pub open spec fn is_any_probe_spec(f: FrameModel) -> bool {
    f.ethertype == PROBE_ETHERTYPE
}

/// Whether a frame is one of the probes of the switch whose probe id is
/// `probe_id`, i.e. it came back to the same switch.
pub open spec fn is_own_probe_spec(f: FrameModel, probe_id: u64) -> bool {
    f.ethertype == PROBE_ETHERTYPE && payload_probe_id_spec(f.payload) == Some(probe_id)
}

/// The probe frame a switch with probe id `probe_id` sends: broadcast,
/// untagged, from a multicast source built from the id, carrying the id.
pub open spec fn probe_frame(probe_id: u64) -> FrameModel {
    FrameModel {
        dst: seq![0xFFu8, 0xFF, 0xFF, 0xFF, 0xFF, 0xFF],
        src: seq![PROBE_SRC_PREFIX].add(be64_bytes(probe_id).subrange(0, 5)),
        tag: None,
        ethertype: PROBE_ETHERTYPE,
        payload: be64_bytes(probe_id),
    }
}

fn u64_to_be_bytes(v: u64) -> (b: [u8; 8])
    ensures
        b@ == be64_bytes(v),
{
    let b: [u8; 8] = [
        (v / 256 / 256 / 256 / 256 / 256 / 256 / 256 % 256) as u8,
        (v / 256 / 256 / 256 / 256 / 256 / 256 % 256) as u8,
        (v / 256 / 256 / 256 / 256 / 256 % 256) as u8,
        (v / 256 / 256 / 256 / 256 % 256) as u8,
        (v / 256 / 256 / 256 % 256) as u8,
        (v / 256 / 256 % 256) as u8,
        (v / 256 % 256) as u8,
        (v % 256) as u8,
    ];
    assert(b@ =~= be64_bytes(v));
    b
}

/// Reading back the eight big-endian bytes of `v` gives `v`.
pub proof fn lemma_be64_roundtrip(v: u64)
    ensures
        be64(be64_bytes(v)) == v,
{
    let q0 = v as int;
    let q1 = q0 / 256;
    let q2 = q1 / 256;
    let q3 = q2 / 256;
    let q4 = q3 / 256;
    let q5 = q4 / 256;
    let q6 = q5 / 256;
    let q7 = q6 / 256;
    assert(q0 == q1 * 256 + q0 % 256);
    assert(q1 == q2 * 256 + q1 % 256);
    assert(q2 == q3 * 256 + q2 % 256);
    assert(q3 == q4 * 256 + q3 % 256);
    assert(q4 == q5 * 256 + q4 % 256);
    assert(q5 == q6 * 256 + q5 % 256);
    assert(q6 == q7 * 256 + q6 % 256);
    assert(q7 < 256);
    let b = be64_bytes(v);
    assert(b[0] == q7 % 256);
    assert(b[7] == q0 % 256);
}

/// `RandomState::new()` from std: a hash builder keyed with random keys
/// drawn for this process. Nothing is claimed of the keys.
#[verifier::external_body]
fn new_random_state() -> RandomState {
    RandomState::new()
}

/// `BuildHasher::hash_one` from std, hashing `()` under `state`: the digest
/// depends on the state's random keys, so nothing is claimed of it.
#[verifier::external_body]
fn hash_unit(state: &RandomState) -> u64 {
    state.hash_one(())
}

/// A fresh random probe id, astronomically unlikely to collide between two
/// switch instances on the same segment.
pub fn new_probe_id() -> u64 {
    let state = new_random_state();
    hash_unit(&state)
}

/// Builds the wire bytes for a loop-detection probe carrying `probe_id`.
pub fn build_probe(probe_id: u64) -> (bytes: Vec<u8>)
    ensures
        bytes@ == probe_frame(probe_id).wire_bytes(),
{
    let id = u64_to_be_bytes(probe_id);
    let src: [u8; 6] = [PROBE_SRC_PREFIX, id[0], id[1], id[2], id[3], id[4]];
    assert(src@ =~= seq![PROBE_SRC_PREFIX].add(be64_bytes(probe_id).subrange(0, 5)));
    let dst: [u8; 6] = [0xFF, 0xFF, 0xFF, 0xFF, 0xFF, 0xFF];
    assert(dst@ =~= seq![0xFFu8, 0xFF, 0xFF, 0xFF, 0xFF, 0xFF]);
    let frame = EthernetFrame {
        dst,
        src,
        tag: None,
        ethertype: PROBE_ETHERTYPE,
        payload: id.as_slice(),
    };
    let mut bytes: Vec<u8> = Vec::new();
    let r = frame.write_into(&mut bytes);
    assert(r is Ok);
    assert(frame@ == probe_frame(probe_id));
    assert(bytes@ =~= probe_frame(probe_id).wire_bytes());
    bytes
}

/// The probe id a payload carries, if it is long enough to carry one.
pub fn payload_probe_id(payload: &[u8]) -> (r: Option<u64>)
    ensures
        r == payload_probe_id_spec(payload@),
{
    if payload.len() < 8 {
        return None;
    }
    let mut v: u64 = payload[0] as u64;
    v = v * 256 + payload[1] as u64;
    v = v * 256 + payload[2] as u64;
    v = v * 256 + payload[3] as u64;
    v = v * 256 + payload[4] as u64;
    v = v * 256 + payload[5] as u64;
    v = v * 256 + payload[6] as u64;
    v = v * 256 + payload[7] as u64;
    Some(v)
}

/// Whether `frame` is this switch's own probe (its probe id is `probe_id`),
/// meaning it looped back, as opposed to some other switch's probe arriving
/// on a shared segment.
pub fn is_own_probe(frame: &EthernetFrame, probe_id: u64) -> (b: bool)
    ensures
        b == is_own_probe_spec(frame@, probe_id),
{
    if frame.ethertype != PROBE_ETHERTYPE {
        return false;
    }
    match payload_probe_id(frame.payload) {
        Some(id) => id == probe_id,
        None => false,
    }
}

/// Whether `frame` is a loop-guard probe at all, regardless of whose.
pub fn is_any_probe(frame: &EthernetFrame) -> (b: bool)
    ensures
        b == is_any_probe_spec(frame@),
{
    frame.ethertype == PROBE_ETHERTYPE
}

} // verus!
