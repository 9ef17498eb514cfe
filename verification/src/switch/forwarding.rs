use vstd::prelude::*;

use crate::frame::{Dot1qTag, EthernetFrame, FrameModel, TAGGED_HEADER_LEN, UNTAGGED_HEADER_LEN};

use super::counters::{counter_add, lemma_wadd_twice, Counters};
use super::error::SwitchError;
use super::loop_guard::{
    is_any_probe, is_any_probe_spec, is_group_address, is_group_address_spec, is_own_probe,
    is_own_probe_spec,
};
use super::port::carries_spec;
use super::vlan_counters::counters_or_zero;
use super::loop_guard::{build_probe, new_probe_id, probe_frame};
use super::mac_table::{is_fresh, retain_entries, MacEntry, MacKey, MacTable};
use super::port::{PortId, PortMode, PortModeView};
use super::port::Vlan;
use super::vlan_counters::{lists_in_order, VlanCounters};

verus! {

/// One registered port, as plain values.
pub struct PortView {
    pub id: PortId,
    pub mode: PortModeView,
    /// Shut down by the loop guard: nothing is forwarded in or out.
    pub blocked: bool,
    pub counters: Counters,
}

/// The whole state of a switch, as plain values.
pub struct SwitchView {
    /// The registered ports, in ascending id order.
    pub ports: Seq<PortView>,
    /// Learned (VLAN, MAC) -> port mappings.
    pub macs: Map<MacKey, MacEntry>,
    /// Counters of every VLAN that has seen traffic.
    pub vlans: Map<Vlan, Counters>,
    /// Identifies this switch's own loop-guard probes.
    pub probe_id: u64,
}

/// Port ids strictly increase along `ports`.
pub open spec fn ports_ascending(ports: Seq<PortView>) -> bool {
    forall|i: int, j: int| 0 <= i < j < ports.len() ==> ports[i].id.0 < ports[j].id.0
}

pub open spec fn has_port_at(ports: Seq<PortView>, p: PortId, i: int) -> bool {
    0 <= i < ports.len() && ports[i].id == p
}

/// The registered port with id `p`, if any.
pub open spec fn lookup_port(ports: Seq<PortView>, p: PortId) -> Option<PortView> {
    if exists|i: int| has_port_at(ports, p, i) {
        Some(ports[choose|i: int| has_port_at(ports, p, i)])
    } else {
        None
    }
}

/// `ports` with the port whose id is `p` (if any) replaced by `f` of it.
pub open spec fn update_port(ports: Seq<PortView>, p: PortId, f: spec_fn(PortView) -> PortView) -> Seq<PortView> {
    ports.map_values(|e: PortView| if e.id == p { f(e) } else { e })
}

/// `e` with its loop-guard block set to `blocked`.
pub open spec fn with_blocked(e: PortView, blocked: bool) -> PortView {
    PortView { blocked, ..e }
}

/// `e` with its counters replaced.
pub open spec fn with_counters(e: PortView, counters: Counters) -> PortView {
    PortView { counters, ..e }
}

/// The counters of port `p`, all zero if it is not registered.
pub open spec fn port_counters_or_zero(ports: Seq<PortView>, p: PortId) -> Counters {
    match lookup_port(ports, p) {
        Some(e) => e.counters,
        None => Counters::zero_spec(),
    }
}

pub proof fn lemma_lookup_port_at(ports: Seq<PortView>, i: int)
    requires
        ports_ascending(ports),
        0 <= i < ports.len(),
    ensures
        lookup_port(ports, ports[i].id) == Some(ports[i]),
{
    let p = ports[i].id;
    assert(has_port_at(ports, p, i));
    let j = choose|j: int| has_port_at(ports, p, j);
    if j < i {
        assert(ports[j].id.0 < ports[i].id.0);
    } else if j > i {
        assert(ports[i].id.0 < ports[j].id.0);
    }
}

/// Updating the entry of `p` in place keeps the order, changes the lookup
/// of `p` only, and leaves every other port alone.
pub proof fn lemma_update_port(ports: Seq<PortView>, p: PortId, f: spec_fn(PortView) -> PortView)
    requires
        ports_ascending(ports),
        forall|e: PortView| #[trigger] f(e).id == e.id,
    ensures
        ports_ascending(update_port(ports, p, f)),
        lookup_port(update_port(ports, p, f), p) == (match lookup_port(ports, p) {
            Some(e) => Some(f(e)),
            None => None,
        }),
        forall|q: PortId| q != p ==> lookup_port(update_port(ports, p, f), q) == lookup_port(ports, q),
{
    let t = update_port(ports, p, f);
    assert forall|i: int, j: int| 0 <= i < j < t.len() implies t[i].id.0 < t[j].id.0 by {
        assert(t[i].id == ports[i].id);
        assert(t[j].id == ports[j].id);
    }
    assert forall|q: PortId| lookup_port(t, q) == (match lookup_port(ports, q) {
        Some(e) => Some(if q == p { f(e) } else { e }),
        None => None,
    }) by {
        if exists|i: int| has_port_at(ports, q, i) {
            let i = choose|i: int| has_port_at(ports, q, i);
            lemma_lookup_port_at(ports, i);
            assert(t[i].id == q);
            lemma_lookup_port_at(t, i);
        } else {
            if exists|i: int| has_port_at(t, q, i) {
                let i = choose|i: int| has_port_at(t, q, i);
                assert(has_port_at(ports, q, i));
            }
        }
    }
}


/// Inserting a port at the position that keeps ids ascending adds exactly
/// that port and leaves every other lookup alone.
proof fn lemma_insert_port(ports: Seq<PortView>, pos: int, v: PortView)
    requires
        ports_ascending(ports),
        0 <= pos <= ports.len(),
        forall|k: int| 0 <= k < pos ==> ports[k].id.0 < v.id.0,
        forall|k: int| pos <= k < ports.len() ==> ports[k].id.0 > v.id.0,
    ensures
        ports_ascending(ports.insert(pos, v)),
        lookup_port(ports.insert(pos, v), v.id) == Some(v),
        forall|q: PortId| q != v.id ==> lookup_port(ports.insert(pos, v), q) == lookup_port(ports, q),
{
    let t = ports.insert(pos, v);
    assert forall|i: int, j: int| 0 <= i < j < t.len() implies t[i].id.0 < t[j].id.0 by {
        if j < pos {
            assert(t[i] == ports[i] && t[j] == ports[j]);
        } else if j == pos {
            assert(t[i] == ports[i]);
        } else if i < pos {
            assert(t[i] == ports[i] && t[j] == ports[j - 1]);
        } else if i == pos {
            assert(t[j] == ports[j - 1]);
        } else {
            assert(t[i] == ports[i - 1] && t[j] == ports[j - 1]);
        }
    }
    assert(t[pos] == v);
    lemma_lookup_port_at(t, pos);
    assert forall|q: PortId| q != v.id implies lookup_port(t, q) == lookup_port(ports, q) by {
        if exists|i: int| has_port_at(ports, q, i) {
            let i = choose|i: int| has_port_at(ports, q, i);
            lemma_lookup_port_at(ports, i);
            if i < pos {
                assert(t[i] == ports[i]);
                lemma_lookup_port_at(t, i);
            } else {
                assert(t[i + 1] == ports[i]);
                lemma_lookup_port_at(t, i + 1);
            }
        } else if exists|i: int| has_port_at(t, q, i) {
            let i = choose|i: int| has_port_at(t, q, i);
            if i < pos {
                assert(has_port_at(ports, q, i));
            } else if i > pos {
                assert(has_port_at(ports, q, i - 1));
            }
        }
    }
}

/// Removing the port at position `i` drops exactly that port.
proof fn lemma_remove_port_at(ports: Seq<PortView>, i: int)
    requires
        ports_ascending(ports),
        0 <= i < ports.len(),
    ensures
        ports_ascending(ports.remove(i)),
        lookup_port(ports.remove(i), ports[i].id) is None,
        forall|q: PortId| q != ports[i].id ==> lookup_port(ports.remove(i), q) == lookup_port(ports, q),
{
    let t = ports.remove(i);
    let p = ports[i].id;
    assert forall|a: int, b: int| 0 <= a < b < t.len() implies t[a].id.0 < t[b].id.0 by {
        if b < i {
            assert(t[a] == ports[a] && t[b] == ports[b]);
        } else if a < i {
            assert(t[a] == ports[a] && t[b] == ports[b + 1]);
        } else {
            assert(t[a] == ports[a + 1] && t[b] == ports[b + 1]);
        }
    }
    if exists|k: int| has_port_at(t, p, k) {
        let k = choose|k: int| has_port_at(t, p, k);
        if k < i {
            assert(t[k] == ports[k]);
        } else {
            assert(t[k] == ports[k + 1]);
        }
    }
    assert forall|q: PortId| q != p implies lookup_port(t, q) == lookup_port(ports, q) by {
        if exists|k: int| has_port_at(ports, q, k) {
            let k = choose|k: int| has_port_at(ports, q, k);
            lemma_lookup_port_at(ports, k);
            assert(k != i);
            if k < i {
                assert(t[k] == ports[k]);
                lemma_lookup_port_at(t, k);
            } else {
                assert(t[k - 1] == ports[k]);
                lemma_lookup_port_at(t, k - 1);
            }
        } else if exists|k: int| has_port_at(t, q, k) {
            let k = choose|k: int| has_port_at(t, q, k);
            if k < i {
                assert(has_port_at(ports, q, k));
            } else {
                assert(has_port_at(ports, q, k + 1));
            }
        }
    }
}

/// Replacing the entry at position `i` by one with the same id is
/// `update_port` on that id.
proof fn lemma_update_at(ports: Seq<PortView>, i: int, v: PortView)
    requires
        ports_ascending(ports),
        0 <= i < ports.len(),
        v.id == ports[i].id,
    ensures
        ports.update(i, v) == update_port(ports, v.id, |e: PortView| PortView { id: e.id, ..v }),
{
    let f = |e: PortView| PortView { id: e.id, ..v };
    let u = update_port(ports, v.id, f);
    assert forall|k: int| 0 <= k < ports.len() implies #[trigger] u[k] == ports.update(i, v)[k] by {
        if k != i {
            if k < i {
                assert(ports[k].id.0 < ports[i].id.0);
            } else {
                assert(ports[i].id.0 < ports[k].id.0);
            }
        }
    }
    assert(u =~= ports.update(i, v));
}


/// A frame ready to hand to `port`'s writer, encoded exactly as that port's
/// mode requires.
#[derive(Debug, PartialEq, Eq)]
pub struct Delivery {
    pub port: PortId,
    pub bytes: Vec<u8>,
}

/// A delivery as plain values.
pub struct DeliveryView {
    pub port: PortId,
    pub bytes: Seq<u8>,
}

impl View for Delivery {
    type V = DeliveryView;

    open spec fn view(&self) -> DeliveryView {
        DeliveryView { port: self.port, bytes: self.bytes@ }
    }
}

pub open spec fn deliveries_view(ds: Seq<Delivery>) -> Seq<DeliveryView> {
    ds.map_values(|d: Delivery| d@)
}

/// The broadcast MAC address.
pub const BROADCAST: [u8; 6] = [0xFF, 0xFF, 0xFF, 0xFF, 0xFF, 0xFF];

/// The broadcast MAC address, as plain values.
pub open spec fn broadcast_mac() -> Seq<u8> {
    seq![0xFFu8, 0xFF, 0xFF, 0xFF, 0xFF, 0xFF]
}

/// The VLAN a frame tagged `tag` arriving on `port` in mode `mode` belongs
/// to. An access port ignores the wire (it is always its one VLAN) but
/// rejects a tagged frame outright; a trunk takes a tagged frame for a VLAN
/// it carries and an untagged one for its native VLAN.
pub open spec fn ingress_vlan_spec(mode: PortModeView, tag: Option<Dot1qTag>, port: PortId) -> Result<
    Vlan,
    SwitchError,
> {
    match tag {
        Some(t) => match mode {
            PortModeView::Access { .. } => Err(SwitchError::TaggedFrameOnAccessPort { port }),
            PortModeView::Trunk { native, allowed } => if allowed.contains(t.vid) || native == Some(
                t.vid,
            ) {
                Ok(t.vid)
            } else {
                Err(SwitchError::VlanNotAllowedOnTrunk { port, vlan: t.vid })
            },
        },
        None => match mode {
            PortModeView::Access { vlan } => Ok(vlan),
            PortModeView::Trunk { native, .. } => match native {
                Some(v) => Ok(v),
                None => Err(SwitchError::UntaggedFrameOnTrunkWithoutNative { port }),
            },
        },
    }
}

/// The tag a frame of `vlan` leaves a port in mode `mode` with: none for an
/// access port or a trunk's native VLAN, otherwise an 802.1Q tag for `vlan`
/// keeping the incoming tag's priority bits (zero if it came untagged).
pub open spec fn egress_tag(mode: PortModeView, vlan: Vlan, tag: Option<Dot1qTag>) -> Option<Dot1qTag> {
    match mode {
        PortModeView::Access { .. } => None,
        PortModeView::Trunk { native, .. } => if native == Some(vlan) {
            None
        } else {
            Some(
                Dot1qTag {
                    pcp: match tag {
                        Some(t) => t.pcp,
                        None => 0,
                    },
                    dei: match tag {
                        Some(t) => t.dei,
                        None => false,
                    },
                    vid: vlan,
                },
            )
        },
    }
}

/// What port `p` receives of frame `f` in `vlan`: nothing if it is not
/// registered, blocked, or the re-tagged frame cannot be encoded.
pub open spec fn encode_spec(ports: Seq<PortView>, p: PortId, vlan: Vlan, f: FrameModel) -> Option<
    DeliveryView,
> {
    match lookup_port(ports, p) {
        None => None,
        Some(e) => if e.blocked {
            None
        } else {
            let out = FrameModel { tag: egress_tag(e.mode, vlan, f.tag), ..f };
            if out.writable() {
                Some(DeliveryView { port: p, bytes: out.wire_bytes() })
            } else {
                None
            }
        },
    }
}

/// The ports, in ascending id order, that a frame of `vlan` from `exclude`
/// floods to: every unblocked port other than `exclude` that carries `vlan`.
pub open spec fn flood_list(ports: Seq<PortView>, vlan: Vlan, exclude: PortId) -> Seq<PortId>
    decreases ports.len(),
{
    if ports.len() == 0 {
        Seq::empty()
    } else {
        let rest = flood_list(ports.drop_last(), vlan, exclude);
        let e = ports.last();
        if e.id != exclude && !e.blocked && carries_spec(e.mode, vlan) {
            rest.push(e.id)
        } else {
            rest
        }
    }
}

/// Where a frame of `vlan` to `dst` arriving on `ingress` goes: flooded if
/// broadcast or unknown, to its learned port if known, nowhere if that port
/// is the ingress itself.
pub open spec fn egress_targets_spec(
    ports: Seq<PortView>,
    macs: Map<MacKey, MacEntry>,
    ingress: PortId,
    vlan: Vlan,
    dst: Seq<u8>,
) -> Seq<PortId> {
    if dst == broadcast_mac() {
        flood_list(ports, vlan, ingress)
    } else if macs.dom().contains((vlan, dst)) {
        if macs[(vlan, dst)].port == ingress {
            Seq::empty()
        } else {
            seq![macs[(vlan, dst)].port]
        }
    } else {
        flood_list(ports, vlan, ingress)
    }
}

/// The deliveries for `targets`, in order, skipping targets that get none.
pub open spec fn deliveries_spec(ports: Seq<PortView>, targets: Seq<PortId>, vlan: Vlan, f: FrameModel) -> Seq<
    DeliveryView,
>
    decreases targets.len(),
{
    if targets.len() == 0 {
        Seq::empty()
    } else {
        let rest = deliveries_spec(ports, targets.drop_last(), vlan, f);
        match encode_spec(ports, targets.last(), vlan, f) {
            Some(d) => rest.push(d),
            None => rest,
        }
    }
}

/// Port and VLAN counters after sending `ds` in `vlan`.
pub open spec fn record_out(
    ports: Seq<PortView>,
    vlans: Map<Vlan, Counters>,
    ds: Seq<DeliveryView>,
    vlan: Vlan,
) -> (Seq<PortView>, Map<Vlan, Counters>)
    decreases ds.len(),
{
    if ds.len() == 0 {
        (ports, vlans)
    } else {
        let (p0, v0) = record_out(ports, vlans, ds.drop_last(), vlan);
        let d = ds.last();
        (
            update_port(
                p0,
                d.port,
                |e: PortView| with_counters(e, e.counters.count_out(d.bytes.len())),
            ),
            v0.insert(vlan, counters_or_zero(v0, vlan).count_out(d.bytes.len())),
        )
    }
}

/// What `Switch::forward` does: the next state and the result.
///
/// An unregistered ingress port is refused. A loop-guard probe is taken out
/// before any VLAN processing: if it is this switch's own, the ingress port
/// is blocked; either way nothing is forwarded and no counter moves. A
/// blocked ingress port is refused. A frame that does not resolve to a VLAN
/// on its ingress port is refused and counted as a drop there. Otherwise the
/// frame is counted in on its port and VLAN, its source is learned against
/// the ingress port (unless it is a group address), and it is delivered,
/// encoded for each egress port's mode, to the targets of
/// `egress_targets_spec`, each delivery counted out on its port and VLAN.
pub open spec fn forward_spec(s: SwitchView, ingress: PortId, f: FrameModel, now: u64) -> (
    SwitchView,
    Result<Seq<DeliveryView>, SwitchError>,
) {
    match lookup_port(s.ports, ingress) {
        None => (s, Err(SwitchError::UnknownPort(ingress))),
        Some(entry) => if is_any_probe_spec(f) {
            if is_own_probe_spec(f, s.probe_id) {
                (
                    SwitchView {
                        ports: update_port(s.ports, ingress, |e: PortView| with_blocked(e, true)),
                        ..s
                    },
                    Ok(Seq::empty()),
                )
            } else {
                (s, Ok(Seq::empty()))
            }
        } else if entry.blocked {
            (s, Err(SwitchError::PortBlocked(ingress)))
        } else {
            match ingress_vlan_spec(entry.mode, f.tag, ingress) {
                Err(e) => (
                    SwitchView {
                        ports: update_port(
                            s.ports,
                            ingress,
                            |p: PortView| with_counters(p, p.counters.count_drop()),
                        ),
                        ..s
                    },
                    Err(e),
                ),
                Ok(vlan) => {
                    let len = f.wire_bytes().len();
                    let ports1 = update_port(
                        s.ports,
                        ingress,
                        |p: PortView| with_counters(p, p.counters.count_in(len)),
                    );
                    let vlans1 = s.vlans.insert(vlan, counters_or_zero(s.vlans, vlan).count_in(len));
                    let macs1 = if is_group_address_spec(f.src) {
                        s.macs
                    } else {
                        s.macs.insert((vlan, f.src), MacEntry { port: ingress, last_seen: now })
                    };
                    let targets = egress_targets_spec(ports1, macs1, ingress, vlan, f.dst);
                    let ds = deliveries_spec(ports1, targets, vlan, f);
                    let out = record_out(ports1, vlans1, ds, vlan);
                    (SwitchView { ports: out.0, macs: macs1, vlans: out.1, probe_id: s.probe_id }, Ok(ds))
                },
            }
        },
    }
}

/// The ids of the ports of `ports` that are not blocked, in order.
pub open spec fn unblocked_ids(ports: Seq<PortView>) -> Seq<PortId>
    decreases ports.len(),
{
    if ports.len() == 0 {
        Seq::empty()
    } else if ports.last().blocked {
        unblocked_ids(ports.drop_last())
    } else {
        unblocked_ids(ports.drop_last()).push(ports.last().id)
    }
}

/// The result of `forward` as plain values.
pub open spec fn forward_result_view(r: Result<Vec<Delivery>, SwitchError>) -> Result<Seq<DeliveryView>, SwitchError> {
    match r {
        Ok(ds) => Ok(deliveries_view(ds@)),
        Err(e) => Err(e),
    }
}

fn is_broadcast(mac: &[u8; 6]) -> (b: bool)
    ensures
        b == (mac@ == broadcast_mac()),
{
    let b = mac[0] == 0xFF && mac[1] == 0xFF && mac[2] == 0xFF && mac[3] == 0xFF && mac[4] == 0xFF
        && mac[5] == 0xFF;
    proof {
        if b {
            assert(mac@ =~= broadcast_mac());
        } else if mac@ == broadcast_mac() {
            assert(mac@[0] == 0xFF && mac@[1] == 0xFF && mac@[2] == 0xFF);
            assert(mac@[3] == 0xFF && mac@[4] == 0xFF && mac@[5] == 0xFF);
        }
    }
    b
}

fn ingress_vlan(mode: &PortMode, tag: Option<Dot1qTag>, port: PortId) -> (r: Result<Vlan, SwitchError>)
    ensures
        r == ingress_vlan_spec(mode@, tag, port),
{
    match tag {
        Some(t) => match mode {
            PortMode::Access { .. } => Err(SwitchError::TaggedFrameOnAccessPort { port }),
            PortMode::Trunk { native, allowed } => {
                let native_match = match native {
                    Some(n) => *n == t.vid,
                    None => false,
                };
                if allowed.contains(t.vid) || native_match {
                    Ok(t.vid)
                } else {
                    Err(SwitchError::VlanNotAllowedOnTrunk { port, vlan: t.vid })
                }
            },
        },
        None => match mode {
            PortMode::Access { vlan } => Ok(*vlan),
            PortMode::Trunk { native, .. } => match native {
                Some(v) => Ok(*v),
                None => Err(SwitchError::UntaggedFrameOnTrunkWithoutNative { port }),
            },
        },
    }
}

fn egress_tag_for(mode: &PortMode, vlan: Vlan, tag: Option<Dot1qTag>) -> (t: Option<Dot1qTag>)
    ensures
        t == egress_tag(mode@, vlan, tag),
{
    match mode {
        PortMode::Access { .. } => None,
        PortMode::Trunk { native, .. } => {
            let is_native = match native {
                Some(n) => *n == vlan,
                None => false,
            };
            if is_native {
                None
            } else {
                let (pcp, dei) = match tag {
                    Some(t) => (t.pcp, t.dei),
                    None => (0, false),
                };
                Some(Dot1qTag { pcp, dei, vid: vlan })
            }
        },
    }
}


/// Replacing the entry at position `i` by `f` of it is `update_port` on its
/// id, for any `f` that keeps ids.
proof fn lemma_update_at_with(ports: Seq<PortView>, i: int, f: spec_fn(PortView) -> PortView)
    requires
        ports_ascending(ports),
        0 <= i < ports.len(),
        forall|e: PortView| #[trigger] f(e).id == e.id,
    ensures
        ports.update(i, f(ports[i])) == update_port(ports, ports[i].id, f),
{
    let u = update_port(ports, ports[i].id, f);
    assert forall|k: int| 0 <= k < ports.len() implies #[trigger] u[k] == ports.update(i, f(ports[i]))[k] by {
        if k < i {
            assert(ports[k].id.0 < ports[i].id.0);
        } else if k > i {
            assert(ports[i].id.0 < ports[k].id.0);
        }
    }
    assert(u =~= ports.update(i, f(ports[i])));
}

/// `update_port` on an unregistered id changes nothing.
proof fn lemma_update_absent(ports: Seq<PortView>, p: PortId, f: spec_fn(PortView) -> PortView)
    requires
        lookup_port(ports, p) is None,
    ensures
        update_port(ports, p, f) == ports,
{
    assert forall|k: int| 0 <= k < ports.len() implies ports[k].id != p by {
        if ports[k].id == p {
            assert(has_port_at(ports, p, k));
        }
    }
    assert(update_port(ports, p, f) =~= ports);
}


/// Every learned MAC entry points at a registered port that carries the VLAN
/// it was learned in.
pub open spec fn macs_consistent_with(ports: Seq<PortView>, macs: Map<MacKey, MacEntry>) -> bool {
    forall|k: MacKey|
        #[trigger] macs.dom().contains(k) ==> (lookup_port(ports, macs[k].port) matches Some(e)
            && carries_spec(e.mode, k.0))
}

pub open spec fn macs_consistent(s: SwitchView) -> bool {
    macs_consistent_with(s.ports, s.macs)
}

/// An update that keeps ids and modes keeps every learned entry consistent.
pub proof fn lemma_consistent_after_update(
    ports: Seq<PortView>,
    p: PortId,
    f: spec_fn(PortView) -> PortView,
    macs: Map<MacKey, MacEntry>,
)
    requires
        ports_ascending(ports),
        forall|e: PortView| #[trigger] f(e).id == e.id && f(e).mode == e.mode,
        macs_consistent_with(ports, macs),
    ensures
        macs_consistent_with(update_port(ports, p, f), macs),
{
    lemma_update_port(ports, p, f);
    assert forall|k: MacKey| #[trigger] macs.dom().contains(k) implies (lookup_port(
        update_port(ports, p, f),
        macs[k].port,
    ) matches Some(e) && carries_spec(e.mode, k.0)) by {
        let q = macs[k].port;
        if q == p {
            let e = lookup_port(ports, q)->Some_0;
            assert(f(e).mode == e.mode);
        }
    }
}

/// A registered port: its id, mode, loop-guard state and counters.
struct PortEntry {
    id: PortId,
    mode: PortMode,
    blocked: bool,
    counters: Counters,
}

impl PortEntry {
    spec fn view(&self) -> PortView {
        PortView { id: self.id, mode: self.mode@, blocked: self.blocked, counters: self.counters }
    }
}

spec fn entry_views(entries: Seq<PortEntry>) -> Seq<PortView> {
    entries.map_values(|e: PortEntry| e.view())
}

/// The switch core: per-VLAN MAC learning, access and trunk ports, a
/// self-loop guard and per-port/per-VLAN counters, with zero I/O. Ports are
/// handles the caller assigns meaning to; moving the bytes of the
/// deliveries `forward` returns is the caller's job.
pub struct Switch {
    ports: Vec<PortEntry>,
    mac_table: MacTable,
    vlan_counters: VlanCounters,
    probe_id: u64,
}

impl View for Switch {
    type V = SwitchView;

    closed spec fn view(&self) -> SwitchView {
        SwitchView {
            ports: entry_views(self.ports@),
            macs: self.mac_table.view(),
            vlans: self.vlan_counters.view(),
            probe_id: self.probe_id,
        }
    }
}

impl Switch {
    /// The switch's internal invariant: ports in ascending id order, each
    /// learned (VLAN, MAC) held once, VLAN counters in ascending order.
    pub closed spec fn wf(&self) -> bool {
        &&& ports_ascending(self@.ports)
        &&& macs_consistent(self@)
        &&& self.mac_table.wf()
        &&& self.vlan_counters.wf()
    }

    /// Every learned MAC points at a registered port that carries the VLAN
    /// it was learned in.
    pub proof fn lemma_macs_consistent(&self)
        requires
            self.wf(),
        ensures
            ports_ascending(self@.ports),
            macs_consistent(self@),
    {
    }

    /// A switch with no ports and nothing learned, whose loop-guard probes
    /// carry `probe_id`.
    pub fn with_probe_id(probe_id: u64) -> (s: Switch)
        ensures
            s.wf(),
            s@.ports == Seq::<PortView>::empty(),
            s@.macs == Map::<MacKey, MacEntry>::empty(),
            s@.vlans == Map::<Vlan, Counters>::empty(),
            s@.probe_id == probe_id,
    {
        let s = Switch {
            ports: Vec::new(),
            mac_table: MacTable::new(),
            vlan_counters: VlanCounters::new(),
            probe_id,
        };
        assert(s@.ports =~= Seq::<PortView>::empty());
        s
    }

    /// A switch with no ports and nothing learned, with a fresh random
    /// probe id, so two switches on one segment never mistake each other's
    /// probes for their own.
    pub fn new() -> (s: Switch)
        ensures
            s.wf(),
            s@.ports == Seq::<PortView>::empty(),
            s@.macs == Map::<MacKey, MacEntry>::empty(),
            s@.vlans == Map::<Vlan, Counters>::empty(),
    {
        Self::with_probe_id(new_probe_id())
    }

    /// The id this switch's loop-guard probes carry.
    pub fn probe_id(&self) -> (id: u64)
        ensures
            id == self@.probe_id,
    {
        self.probe_id
    }

    /// The wire bytes of this switch's loop-guard probe.
    pub fn build_loop_probe(&self) -> (bytes: Vec<u8>)
        ensures
            bytes@ == probe_frame(self@.probe_id).wire_bytes(),
    {
        build_probe(self.probe_id)
    }

    fn find(&self, port: PortId) -> (r: Option<usize>)
        requires
            self.wf(),
        ensures
            match r {
                Some(i) => i < self.ports@.len() && self@.ports[i as int].id == port
                    && lookup_port(self@.ports, port) == Some(self@.ports[i as int]),
                None => lookup_port(self@.ports, port) is None,
            },
    {
        let n = self.ports.len();
        let mut i: usize = 0;
        while i < n
            invariant
                n == self.ports@.len(),
                i <= n,
                self.wf(),
                forall|k: int| 0 <= k < i ==> self@.ports[k].id != port,
            decreases n - i,
        {
            if self.ports[i].id.0 == port.0 {
                proof {
                    lemma_lookup_port_at(self@.ports, i as int);
                }
                return Some(i);
            }
            i = i + 1;
        }
        proof {
            if exists|k: int| has_port_at(self@.ports, port, k) {
                let k = choose|k: int| has_port_at(self@.ports, port, k);
                assert(self@.ports[k].id != port);
            }
        }
        None
    }

    /// Whether `port` is registered and currently shut down by the loop
    /// guard.
    pub fn is_blocked(&self, port: PortId) -> (b: bool)
        requires
            self.wf(),
        ensures
            b == (lookup_port(self@.ports, port) matches Some(e) && e.blocked),
    {
        match self.find(port) {
            Some(i) => self.ports[i].blocked,
            None => false,
        }
    }

    /// The mode `port` is registered in, if it is registered.
    pub fn port_mode(&self, port: PortId) -> (m: Option<PortMode>)
        requires
            self.wf(),
        ensures
            match lookup_port(self@.ports, port) {
                Some(e) => m matches Some(mode) && mode@ == e.mode,
                None => m is None,
            },
    {
        match self.find(port) {
            Some(i) => Some(self.ports[i].mode.duplicate()),
            None => None,
        }
    }

    /// The counters of `port`, all zero if it is not registered.
    pub fn port_counters(&self, port: PortId) -> (c: Counters)
        requires
            self.wf(),
        ensures
            c == port_counters_or_zero(self@.ports, port),
    {
        match self.find(port) {
            Some(i) => self.ports[i].counters,
            None => Counters::zero(),
        }
    }

    /// Every registered port, in ascending id order.
    pub fn port_ids(&self) -> (ids: Vec<PortId>)
        requires
            self.wf(),
        ensures
            ids@ == self@.ports.map_values(|e: PortView| e.id),
    {
        let mut out: Vec<PortId> = Vec::new();
        let n = self.ports.len();
        let mut i: usize = 0;
        while i < n
            invariant
                n == self.ports@.len(),
                i <= n,
                out@ == self@.ports.map_values(|e: PortView| e.id).subrange(0, i as int),
            decreases n - i,
        {
            out.push(self.ports[i].id);
            i = i + 1;
            assert(out@ =~= self@.ports.map_values(|e: PortView| e.id).subrange(0, i as int));
        }
        assert(out@ =~= self@.ports.map_values(|e: PortView| e.id));
        out
    }

    /// The ports the loop-guard probe goes out of: every registered port
    /// that is not blocked, in ascending id order.
    pub fn loop_probe_targets(&self) -> (ids: Vec<PortId>)
        requires
            self.wf(),
        ensures
            ids@ == unblocked_ids(self@.ports),
    {
        let mut out: Vec<PortId> = Vec::new();
        let n = self.ports.len();
        let mut i: usize = 0;
        while i < n
            invariant
                n == self.ports@.len(),
                i <= n,
                out@ == unblocked_ids(self@.ports.take(i as int)),
            decreases n - i,
        {
            proof {
                assert(self@.ports.take(i + 1).drop_last() =~= self@.ports.take(i as int));
                assert(self@.ports.take(i + 1).last() == self@.ports[i as int]);
            }
            if !self.ports[i].blocked {
                out.push(self.ports[i].id);
            }
            i = i + 1;
        }
        assert(self@.ports.take(n as int) =~= self@.ports);
        out
    }

    /// Every registered port with its counters, in ascending id order.
    pub fn all_port_counters(&self) -> (list: Vec<(PortId, Counters)>)
        requires
            self.wf(),
        ensures
            list@ == self@.ports.map_values(|e: PortView| (e.id, e.counters)),
    {
        let mut out: Vec<(PortId, Counters)> = Vec::new();
        let n = self.ports.len();
        let mut i: usize = 0;
        while i < n
            invariant
                n == self.ports@.len(),
                i <= n,
                out@ == self@.ports.map_values(|e: PortView| (e.id, e.counters)).subrange(
                    0,
                    i as int,
                ),
            decreases n - i,
        {
            out.push((self.ports[i].id, self.ports[i].counters));
            i = i + 1;
            assert(out@ =~= self@.ports.map_values(|e: PortView| (e.id, e.counters)).subrange(
                0,
                i as int,
            ));
        }
        assert(out@ =~= self@.ports.map_values(|e: PortView| (e.id, e.counters)));
        out
    }

    fn insert_position(&self, port: PortId) -> (pos: usize)
        requires
            self.wf(),
            lookup_port(self@.ports, port) is None,
        ensures
            pos <= self.ports@.len(),
            forall|k: int| 0 <= k < pos ==> self@.ports[k].id.0 < port.0,
            forall|k: int| pos <= k < self@.ports.len() ==> self@.ports[k].id.0 > port.0,
    {
        let n = self.ports.len();
        let mut pos: usize = 0;
        while pos < n && self.ports[pos].id.0 < port.0
            invariant
                n == self.ports@.len(),
                pos <= n,
                forall|k: int| 0 <= k < pos ==> self@.ports[k].id.0 < port.0,
            decreases n - pos,
        {
            pos = pos + 1;
        }
        proof {
            if pos < n {
                assert(!has_port_at(self@.ports, port, pos as int));
                assert(self@.ports[pos as int].id.0 >= port.0);
                assert forall|k: int| pos <= k < self@.ports.len() implies self@.ports[k].id.0 > port.0 by {
                    if k > pos {
                        assert(self@.ports[pos as int].id.0 < self@.ports[k].id.0);
                    }
                }
            }
        }
        pos
    }

    /// Registers `port` in `mode`. Re-registering a port (e.g. to change its
    /// mode) purges the MAC entries learned against it, so a stale route
    /// cannot leak traffic into the VLANs its new mode carries, and clears
    /// any loop-guard block; its counters carry on.
    pub fn add_port(&mut self, port: PortId, mode: PortMode)
        requires
            old(self).wf(),
        ensures
            final(self).wf(),
            lookup_port(final(self)@.ports, port) == Some(
                PortView {
                    id: port,
                    mode: mode@,
                    blocked: false,
                    counters: port_counters_or_zero(old(self)@.ports, port),
                },
            ),
            forall|q: PortId|
                q != port ==> lookup_port(final(self)@.ports, q) == lookup_port(old(self)@.ports, q),
            final(self)@.macs == retain_entries(old(self)@.macs, |e: MacEntry| e.port != port),
            final(self)@.vlans == old(self)@.vlans,
            final(self)@.probe_id == old(self)@.probe_id,
    {
        self.mac_table.remove_port(port);
        let ghost old_ports = self@.ports;
        match self.find(port) {
            Some(i) => {
                let counters = self.ports[i].counters;
                let entry = PortEntry { id: port, mode, blocked: false, counters };
                let ghost v = entry.view();
                self.ports.set(i, entry);
                proof {
                    assert(self@.ports =~= old_ports.update(i as int, v));
                    lemma_update_at(old_ports, i as int, v);
                    lemma_update_port(old_ports, port, |e: PortView| PortView { id: e.id, ..v });
                }
            },
            None => {
                let pos = self.insert_position(port);
                let entry = PortEntry { id: port, mode, blocked: false, counters: Counters::zero() };
                let ghost v = entry.view();
                self.ports.insert(pos, entry);
                proof {
                    assert(self@.ports =~= old_ports.insert(pos as int, v));
                    lemma_insert_port(old_ports, pos as int, v);
                }
            },
        }
    }

    /// Deregisters `port` and purges its learned MAC entries. A later
    /// `forward` from it fails with `UnknownPort`, and it drops out of every
    /// VLAN's flood set.
    pub fn remove_port(&mut self, port: PortId)
        requires
            old(self).wf(),
        ensures
            final(self).wf(),
            lookup_port(final(self)@.ports, port) is None,
            forall|q: PortId|
                q != port ==> lookup_port(final(self)@.ports, q) == lookup_port(old(self)@.ports, q),
            final(self)@.macs == retain_entries(old(self)@.macs, |e: MacEntry| e.port != port),
            final(self)@.vlans == old(self)@.vlans,
            final(self)@.probe_id == old(self)@.probe_id,
    {
        let ghost old_ports = self@.ports;
        match self.find(port) {
            Some(i) => {
                let _removed = self.ports.remove(i);
                proof {
                    assert(self@.ports =~= old_ports.remove(i as int));
                    lemma_remove_port_at(old_ports, i as int);
                }
            },
            None => {},
        }
        self.mac_table.remove_port(port);
    }

    fn set_blocked(&mut self, port: PortId, blocked: bool)
        requires
            old(self).wf(),
        ensures
            final(self).wf(),
            final(self)@ == (SwitchView {
                ports: update_port(old(self)@.ports, port, |e: PortView| with_blocked(e, blocked)),
                ..old(self)@
            }),
    {
        let ghost old_ports = self@.ports;
        let ghost f = |e: PortView| with_blocked(e, blocked);
        match self.find(port) {
            Some(i) => {
                let ghost v = with_blocked(old_ports[i as int], blocked);
                self.ports[i].blocked = blocked;
                proof {
                    assert(self@.ports =~= old_ports.update(i as int, v));
                    lemma_update_at(old_ports, i as int, v);
                    assert(update_port(old_ports, port, |e: PortView| PortView { id: e.id, ..v })
                        =~= update_port(old_ports, port, f));
                    lemma_update_port(old_ports, port, f);
                }
            },
            None => {
                proof {
                    assert forall|k: int| 0 <= k < old_ports.len() implies old_ports[k].id != port by {
                        if old_ports[k].id == port {
                            assert(has_port_at(old_ports, port, k));
                        }
                    }
                    assert(update_port(old_ports, port, f) =~= old_ports);
                }
            },
        }
    }

    /// Shuts `port` down: no forwarding in or out until it is unblocked or
    /// re-added. Does nothing to an unregistered port.
    pub fn block_port(&mut self, port: PortId)
        requires
            old(self).wf(),
        ensures
            final(self).wf(),
            final(self)@ == (SwitchView {
                ports: update_port(old(self)@.ports, port, |e: PortView| with_blocked(e, true)),
                ..old(self)@
            }),
    {
        self.set_blocked(port, true);
    }

    /// Restores normal forwarding on `port`. Does nothing to an unregistered
    /// port.
    pub fn unblock_port(&mut self, port: PortId)
        requires
            old(self).wf(),
        ensures
            final(self).wf(),
            final(self)@ == (SwitchView {
                ports: update_port(old(self)@.ports, port, |e: PortView| with_blocked(e, false)),
                ..old(self)@
            }),
    {
        self.set_blocked(port, false);
    }

    /// Evicts every MAC entry not relearned within `max_age` of `now`, and
    /// returns how many were evicted. Only source activity refreshes an
    /// entry; lookups as a destination never do.
    pub fn age_out(&mut self, max_age: u64, now: u64) -> (evicted: usize)
        requires
            old(self).wf(),
        ensures
            final(self).wf(),
            final(self)@ == (SwitchView {
                macs: retain_entries(old(self)@.macs, |e: MacEntry| is_fresh(e, max_age, now)),
                ..old(self)@
            }),
            old(self)@.macs.dom().finite(),
            evicted == old(self)@.macs.dom().len() - final(self)@.macs.dom().len(),
    {
        self.mac_table.evict_older_than(max_age, now)
    }

    fn set_counters_at(&mut self, i: usize, c: Counters)
        requires
            old(self).wf(),
            i < old(self)@.ports.len(),
        ensures
            final(self).wf(),
            final(self)@ == (SwitchView {
                ports: old(self)@.ports.update(i as int, with_counters(old(self)@.ports[i as int], c)),
                ..old(self)@
            }),
    {
        let ghost old_ports = self@.ports;
        self.ports[i].counters = c;
        proof {
            assert(self@.ports =~= old_ports.update(i as int, with_counters(old_ports[i as int], c)));
            let f = |e: PortView| PortView { id: e.id, ..with_counters(old_ports[i as int], c) };
            lemma_update_at_with(old_ports, i as int, f);
            lemma_update_port(old_ports, old_ports[i as int].id, f);
        }
    }

    /// The ports a frame of `vlan` from `exclude` floods to, in ascending id
    /// order.
    fn flood_targets(&self, vlan: Vlan, exclude: PortId) -> (targets: Vec<PortId>)
        requires
            self.wf(),
        ensures
            targets@ == flood_list(self@.ports, vlan, exclude),
    {
        let mut out: Vec<PortId> = Vec::new();
        let n = self.ports.len();
        let mut i: usize = 0;
        while i < n
            invariant
                n == self.ports@.len(),
                n == self@.ports.len(),
                i <= n,
                out@ == flood_list(self@.ports.take(i as int), vlan, exclude),
            decreases n - i,
        {
            let e = &self.ports[i];
            assert(self@.ports[i as int] == e.view());
            assert(self@.ports.take(i + 1).drop_last() =~= self@.ports.take(i as int));
            assert(self@.ports.take(i + 1).last() == e.view());
            if e.id.0 != exclude.0 && !e.blocked && e.mode.carries(vlan) {
                out.push(e.id);
            }
            i = i + 1;
        }
        assert(self@.ports.take(n as int) =~= self@.ports);
        out
    }

    /// Where a frame of `vlan` to `dst` arriving on `ingress` goes.
    fn egress_targets(&self, ingress: PortId, vlan: Vlan, dst: &[u8; 6]) -> (targets: Vec<PortId>)
        requires
            self.wf(),
        ensures
            targets@ == egress_targets_spec(self@.ports, self@.macs, ingress, vlan, dst@),
    {
        if is_broadcast(dst) {
            return self.flood_targets(vlan, ingress);
        }
        match self.mac_table.lookup(vlan, dst) {
            Some(egress) => {
                if egress.0 == ingress.0 {
                    Vec::new()
                } else {
                    let mut v: Vec<PortId> = Vec::new();
                    v.push(egress);
                    assert(v@ =~= seq![egress]);
                    v
                }
            },
            None => self.flood_targets(vlan, ingress),
        }
    }

    /// The frame `port` should get on the wire for `vlan`: untagged for an
    /// access port or a trunk's native VLAN, 802.1Q-tagged otherwise. `None`
    /// for an unregistered or blocked port, or when the untagged frame's
    /// EtherType collides with the 802.1Q TPID: that target is dropped
    /// rather than failing the whole call.
    fn encode_for_egress(&self, port: PortId, vlan: Vlan, frame: &EthernetFrame) -> (d: Option<Delivery>)
        requires
            self.wf(),
        ensures
            match d {
                Some(d) => encode_spec(self@.ports, port, vlan, frame@) == Some(d@),
                None => encode_spec(self@.ports, port, vlan, frame@) is None,
            },
    {
        let i = match self.find(port) {
            Some(i) => i,
            None => return None,
        };
        let e = &self.ports[i];
        assert(self@.ports[i as int] == e.view());
        if e.blocked {
            return None;
        }
        let tag = egress_tag_for(&e.mode, vlan, frame.tag);
        let out = EthernetFrame {
            dst: frame.dst,
            src: frame.src,
            tag,
            ethertype: frame.ethertype,
            payload: frame.payload,
        };
        assert(out@ == FrameModel { tag: egress_tag(e.mode@, vlan, frame.tag), ..frame@ });
        let mut bytes: Vec<u8> = Vec::new();
        match out.write_into(&mut bytes) {
            Ok(()) => {
                assert(bytes@ =~= out@.wire_bytes());
                Some(Delivery { port, bytes })
            },
            Err(_) => None,
        }
    }

    /// Learns `frame`'s source MAC against `ingress`'s VLAN, then decides
    /// where the frame goes, returning it pre-encoded for each egress port's
    /// mode, in ascending port order. Empty means drop. Loop-guard probes
    /// are handled first: this switch's own probe coming back blocks the
    /// port it arrived on. `now` is the caller's clock, in the same unit as
    /// the `max_age` given to `age_out`.
    pub fn forward(&mut self, ingress: PortId, frame: &EthernetFrame, now: u64) -> (r: Result<
        Vec<Delivery>,
        SwitchError,
    >)
        requires
            old(self).wf(),
        ensures
            final(self).wf(),
            (final(self)@, forward_result_view(r)) == forward_spec(old(self)@, ingress, frame@, now),
    {
        let ghost s0 = self@;
        let i = match self.find(ingress) {
            Some(i) => i,
            None => return Err(SwitchError::UnknownPort(ingress)),
        };
        assert(s0.ports[i as int] == self.ports@[i as int].view());
        if is_any_probe(frame) {
            if is_own_probe(frame, self.probe_id) {
                self.set_blocked(ingress, true);
            }
            let empty: Vec<Delivery> = Vec::new();
            assert(deliveries_view(empty@) =~= Seq::<DeliveryView>::empty());
            return Ok(empty);
        }
        if self.ports[i].blocked {
            return Err(SwitchError::PortBlocked(ingress));
        }
        let vlan = match ingress_vlan(&self.ports[i].mode, frame.tag, ingress) {
            Ok(v) => v,
            Err(e) => {
                let c = self.ports[i].counters;
                let nc = Counters {
                    frames_in: c.frames_in,
                    bytes_in: c.bytes_in,
                    frames_out: c.frames_out,
                    bytes_out: c.bytes_out,
                    drops: counter_add(c.drops, 1),
                };
                self.set_counters_at(i, nc);
                proof {
                    lemma_update_at_with(
                        s0.ports,
                        i as int,
                        |p: PortView| with_counters(p, p.counters.count_drop()),
                    );
                }
                return Err(e);
            },
        };
        // Count the frame in, on its port and its VLAN.
        let header: u64 = if frame.tag.is_some() {
            TAGGED_HEADER_LEN as u64
        } else {
            UNTAGGED_HEADER_LEN as u64
        };
        let payload_len = frame.payload.len() as u64;
        let ghost len = frame@.wire_bytes().len();
        assert(len == header + payload_len);
        proof {
            lemma_wadd_twice(self.ports[i as int].counters.bytes_in, header as nat, payload_len as nat);
        }
        let c = self.ports[i].counters;
        let nc = Counters {
            frames_in: counter_add(c.frames_in, 1),
            bytes_in: counter_add(counter_add(c.bytes_in, header), payload_len),
            frames_out: c.frames_out,
            bytes_out: c.bytes_out,
            drops: c.drops,
        };
        assert(nc == c.count_in(len));
        self.set_counters_at(i, nc);
        let ghost f_in = |p: PortView| with_counters(p, p.counters.count_in(len));
        proof {
            lemma_update_at_with(s0.ports, i as int, f_in);
        }
        let vc = self.vlan_counters.get(vlan);
        proof {
            lemma_wadd_twice(vc.bytes_in, header as nat, payload_len as nat);
        }
        let nvc = Counters {
            frames_in: counter_add(vc.frames_in, 1),
            bytes_in: counter_add(counter_add(vc.bytes_in, header), payload_len),
            frames_out: vc.frames_out,
            bytes_out: vc.bytes_out,
            drops: vc.drops,
        };
        assert(nvc == vc.count_in(len));
        self.vlan_counters.set(vlan, nvc);
        let ghost ports1 = self@.ports;
        let ghost vlans1 = self@.vlans;
        assert(ports1 == update_port(s0.ports, ingress, f_in));
        // A forged multicast/broadcast source is never learned.
        proof {
            lemma_update_port(s0.ports, ingress, f_in);
            assert(lookup_port(ports1, ingress) == Some(f_in(s0.ports[i as int])));
            assert(carries_spec(s0.ports[i as int].mode, vlan));
        }
        if !is_group_address(&frame.src) {
            self.mac_table.learn(vlan, frame.src, ingress, now);
            proof {
                let m = self@.macs;
                assert forall|k: MacKey| #[trigger] m.dom().contains(k) implies (lookup_port(
                    ports1,
                    m[k].port,
                ) matches Some(e) && carries_spec(e.mode, k.0)) by {
                    if k != (vlan, frame.src@) {
                        assert(macs_consistent_with(ports1, s0.macs));
                        assert(s0.macs.dom().contains(k));
                    }
                }
            }
        }
        let ghost macs1 = self@.macs;
        let targets = self.egress_targets(ingress, vlan, &frame.dst);
        // Encode for every target.
        let mut ds: Vec<Delivery> = Vec::new();
        let nt = targets.len();
        let mut j: usize = 0;
        while j < nt
            invariant
                self.wf(),
                self@.ports == ports1,
                nt == targets@.len(),
                j <= nt,
                deliveries_view(ds@) == deliveries_spec(ports1, targets@.take(j as int), vlan, frame@),
            decreases nt - j,
        {
            assert(targets@.take(j + 1).drop_last() =~= targets@.take(j as int));
            assert(targets@.take(j + 1).last() == targets@[j as int]);
            match self.encode_for_egress(targets[j], vlan, frame) {
                Some(d) => {
                    let ghost before = ds@;
                    ds.push(d);
                    assert(deliveries_view(ds@) =~= deliveries_view(before).push(d@));
                },
                None => {},
            }
            j = j + 1;
        }
        assert(targets@.take(nt as int) =~= targets@);
        let ghost dsv = deliveries_view(ds@);
        // Count every delivery out, on its port and the VLAN.
        let nd = ds.len();
        let mut k: usize = 0;
        while k < nd
            invariant
                self.wf(),
                nd == ds@.len(),
                dsv == deliveries_view(ds@),
                k <= nd,
                (self@.ports, self@.vlans) == record_out(ports1, vlans1, dsv.take(k as int), vlan),
                self@.macs == macs1,
                self@.probe_id == s0.probe_id,
            decreases nd - k,
        {
            let ghost pk = self@.ports;
            let ghost vk = self@.vlans;
            assert(dsv.take(k + 1).drop_last() =~= dsv.take(k as int));
            assert(dsv.take(k + 1).last() == ds@[k as int]@);
            let port = ds[k].port;
            let out_len = ds[k].bytes.len() as u64;
            let ghost f_out = |e: PortView| with_counters(e, e.counters.count_out(out_len as nat));
            match self.find(port) {
                Some(pi) => {
                    let c = self.ports[pi].counters;
                    let nc = Counters {
                        frames_in: c.frames_in,
                        bytes_in: c.bytes_in,
                        frames_out: counter_add(c.frames_out, 1),
                        bytes_out: counter_add(c.bytes_out, out_len),
                        drops: c.drops,
                    };
                    self.set_counters_at(pi, nc);
                    proof {
                        lemma_update_at_with(pk, pi as int, f_out);
                    }
                },
                None => {
                    proof {
                        lemma_update_absent(pk, port, f_out);
                    }
                },
            }
            let vc = self.vlan_counters.get(vlan);
            let nvc = Counters {
                frames_in: vc.frames_in,
                bytes_in: vc.bytes_in,
                frames_out: counter_add(vc.frames_out, 1),
                bytes_out: counter_add(vc.bytes_out, out_len),
                drops: vc.drops,
            };
            self.vlan_counters.set(vlan, nvc);
            k = k + 1;
        }
        assert(dsv.take(nd as int) =~= dsv);
        Ok(ds)
    }

    /// Every VLAN that has seen traffic with its counters, in ascending
    /// VLAN order.
    pub fn all_vlan_counters(&self) -> (list: Vec<(Vlan, Counters)>)
        requires
            self.wf(),
        ensures
            lists_in_order(list@, self@.vlans),
    {
        self.vlan_counters.to_vec()
    }
}

} // verus!
