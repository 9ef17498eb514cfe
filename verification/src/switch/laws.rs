use vstd::prelude::*;

use crate::frame::{lemma_parse_wire_bytes, parse_spec, Dot1qTag, FrameModel, ParseError, TPID_802_1Q};

use super::counters::{lemma_wadd_twice, wadd, Counters};
use super::forwarding::{
    broadcast_mac, deliveries_spec, egress_targets_spec, encode_spec, flood_list, forward_spec,
    ingress_vlan_spec, lemma_consistent_after_update, lemma_lookup_port_at, lemma_update_port,
    has_port_at, lookup_port, macs_consistent, macs_consistent_with, port_counters_or_zero, ports_ascending,
    record_out, update_port, with_blocked, with_counters, DeliveryView, PortView, SwitchView,
};
use super::loop_guard::{
    be64_bytes, is_any_probe_spec, is_group_address_spec, is_own_probe_spec, lemma_be64_roundtrip,
    probe_frame,
};
use super::mac_table::MacEntry;
use super::port::{carries_spec, PortId, PortModeView, Vlan};
use super::vlan_counters::counters_or_zero;

verus! {

/// Two port lists with the same ports, modes and blocks (counters may
/// differ).
pub open spec fn same_shape(a: Seq<PortView>, b: Seq<PortView>) -> bool {
    &&& a.len() == b.len()
    &&& forall|i: int|
        #![trigger a[i]]
        #![trigger b[i]]
        0 <= i < a.len() ==> a[i].id == b[i].id && a[i].mode == b[i].mode && a[i].blocked
            == b[i].blocked
}

proof fn lemma_same_shape_update(ports: Seq<PortView>, p: PortId, f: spec_fn(PortView) -> PortView)
    requires
        forall|e: PortView|
            #![trigger f(e)]
            f(e).id == e.id && f(e).mode == e.mode && f(e).blocked == e.blocked,
    ensures
        same_shape(ports, update_port(ports, p, f)),
{
    let u = update_port(ports, p, f);
    assert forall|i: int| 0 <= i < ports.len() implies #[trigger] ports[i].id == u[i].id
        && ports[i].mode == u[i].mode && ports[i].blocked == u[i].blocked by {
        let e = ports[i];
        assert(f(e).id == e.id && f(e).mode == e.mode && f(e).blocked == e.blocked);
    }
}

proof fn lemma_same_shape_trans(a: Seq<PortView>, b: Seq<PortView>, c: Seq<PortView>)
    requires
        same_shape(a, b),
        same_shape(b, c),
    ensures
        same_shape(a, c),
{
    assert forall|i: int| 0 <= i < a.len() implies #[trigger] a[i].id == c[i].id && a[i].mode
        == c[i].mode && a[i].blocked == c[i].blocked by {
        assert(a[i].id == b[i].id);
        assert(b[i].id == c[i].id);
    }
}

proof fn lemma_same_shape_lookup(a: Seq<PortView>, b: Seq<PortView>, q: PortId)
    requires
        same_shape(a, b),
        ports_ascending(a),
    ensures
        ports_ascending(b),
        lookup_port(a, q) is Some <==> lookup_port(b, q) is Some,
        lookup_port(a, q) is Some ==> lookup_port(b, q)->Some_0.mode == lookup_port(a, q)->Some_0.mode
            && lookup_port(b, q)->Some_0.blocked == lookup_port(a, q)->Some_0.blocked,
{
    assert forall|i: int, j: int| 0 <= i < j < b.len() implies b[i].id.0 < b[j].id.0 by {
        assert(a[i].id == b[i].id && a[j].id == b[j].id);
    }
    if exists|i: int| 0 <= i < a.len() && a[i].id == q {
        let i = choose|i: int| 0 <= i < a.len() && a[i].id == q;
        lemma_lookup_port_at(a, i);
        assert(a[i].id == b[i].id);
        lemma_lookup_port_at(b, i);
    } else if exists|i: int| 0 <= i < b.len() && b[i].id == q {
        let i = choose|i: int| 0 <= i < b.len() && b[i].id == q;
        assert(a[i].id == b[i].id);
    }
}

proof fn lemma_same_shape_flood(a: Seq<PortView>, b: Seq<PortView>, vlan: Vlan, exclude: PortId)
    requires
        same_shape(a, b),
    ensures
        flood_list(a, vlan, exclude) == flood_list(b, vlan, exclude),
    decreases a.len(),
{
    if a.len() > 0 {
        assert(same_shape(a.drop_last(), b.drop_last())) by {
            assert forall|i: int| 0 <= i < a.drop_last().len() implies #[trigger] a.drop_last()[i].id
                == b.drop_last()[i].id && a.drop_last()[i].mode == b.drop_last()[i].mode
                && a.drop_last()[i].blocked == b.drop_last()[i].blocked by {
                assert(a[i].id == b[i].id);
            }
        }
        lemma_same_shape_flood(a.drop_last(), b.drop_last(), vlan, exclude);
        assert(a[a.len() - 1].id == b[b.len() - 1].id);
    }
}

proof fn lemma_record_out_shape(
    ports: Seq<PortView>,
    vlans: Map<Vlan, Counters>,
    ds: Seq<DeliveryView>,
    vlan: Vlan,
)
    ensures
        same_shape(ports, record_out(ports, vlans, ds, vlan).0),
    decreases ds.len(),
{
    if ds.len() > 0 {
        lemma_record_out_shape(ports, vlans, ds.drop_last(), vlan);
        let p0 = record_out(ports, vlans, ds.drop_last(), vlan).0;
        let d = ds.last();
        let f = |e: PortView| with_counters(e, e.counters.count_out(d.bytes.len()));
        lemma_same_shape_update(p0, d.port, f);
        lemma_same_shape_trans(ports, p0, update_port(p0, d.port, f));
    }
}

/// A port is in the flood list of `vlan` from `exclude` exactly when it is
/// registered, is not `exclude`, is not blocked and carries `vlan`; the list
/// is in ascending id order.
pub proof fn law_flood_list_members(ports: Seq<PortView>, vlan: Vlan, exclude: PortId)
    requires
        ports_ascending(ports),
    ensures
        forall|p: PortId|
            flood_list(ports, vlan, exclude).contains(p) <==> (exists|i: int|
                0 <= i < ports.len() && #[trigger] ports[i].id == p && p != exclude
                    && !ports[i].blocked && carries_spec(ports[i].mode, vlan)),
        forall|i: int, j: int|
            0 <= i < j < flood_list(ports, vlan, exclude).len() ==> flood_list(ports, vlan, exclude)[i].0
                < flood_list(ports, vlan, exclude)[j].0,
    decreases ports.len(),
{
    let fl = flood_list(ports, vlan, exclude);
    if ports.len() > 0 {
        let rest = ports.drop_last();
        assert(ports_ascending(rest));
        law_flood_list_members(rest, vlan, exclude);
        let rl = flood_list(rest, vlan, exclude);
        let e = ports.last();
        assert forall|p: PortId| fl.contains(p) <==> (exists|i: int|
            0 <= i < ports.len() && #[trigger] ports[i].id == p && p != exclude && !ports[i].blocked
                && carries_spec(ports[i].mode, vlan)) by {
            if fl.contains(p) {
                let k = choose|k: int| 0 <= k < fl.len() && fl[k] == p;
                if k < rl.len() {
                    assert(rl.contains(p));
                    let i = choose|i: int|
                        0 <= i < rest.len() && #[trigger] rest[i].id == p && p != exclude
                            && !rest[i].blocked && carries_spec(rest[i].mode, vlan);
                    assert(ports[i] == rest[i]);
                } else {
                    assert(ports[ports.len() - 1] == e);
                }
            }
            if exists|i: int|
                0 <= i < ports.len() && #[trigger] ports[i].id == p && p != exclude
                    && !ports[i].blocked && carries_spec(ports[i].mode, vlan) {
                let i = choose|i: int|
                    0 <= i < ports.len() && #[trigger] ports[i].id == p && p != exclude
                        && !ports[i].blocked && carries_spec(ports[i].mode, vlan);
                if i < ports.len() - 1 {
                    assert(rest[i] == ports[i]);
                    assert(rl.contains(p));
                    let k = choose|k: int| 0 <= k < rl.len() && rl[k] == p;
                    assert(fl[k] == p);
                } else {
                    assert(fl[fl.len() - 1] == p);
                }
            }
        }
        assert forall|i: int, j: int| 0 <= i < j < fl.len() implies fl[i].0 < fl[j].0 by {
            if j == rl.len() && fl.len() == rl.len() + 1 {
                assert(rl.contains(fl[i]));
                let k = choose|k: int|
                    0 <= k < rest.len() && #[trigger] rest[k].id == fl[i] && fl[i] != exclude
                        && !rest[k].blocked && carries_spec(rest[k].mode, vlan);
                assert(ports[k].id.0 < ports[ports.len() - 1].id.0);
            }
        }
    }
}

/// Every delivery is `encode_spec` of one of the targets.
proof fn lemma_deliveries_from_targets(
    ports: Seq<PortView>,
    targets: Seq<PortId>,
    vlan: Vlan,
    f: FrameModel,
)
    ensures
        forall|j: int|
            0 <= j < deliveries_spec(ports, targets, vlan, f).len() ==> targets.contains(
                #[trigger] deliveries_spec(ports, targets, vlan, f)[j].port,
            ) && encode_spec(ports, deliveries_spec(ports, targets, vlan, f)[j].port, vlan, f)
                == Some(deliveries_spec(ports, targets, vlan, f)[j]),
    decreases targets.len(),
{
    if targets.len() > 0 {
        let rest = targets.drop_last();
        lemma_deliveries_from_targets(ports, rest, vlan, f);
        let ds = deliveries_spec(ports, targets, vlan, f);
        let rs = deliveries_spec(ports, rest, vlan, f);
        assert forall|j: int| 0 <= j < ds.len() implies targets.contains(#[trigger] ds[j].port)
            && encode_spec(ports, ds[j].port, vlan, f) == Some(ds[j]) by {
            if j < rs.len() {
                assert(ds[j] == rs[j]);
                let k = choose|k: int| 0 <= k < rest.len() && rest[k] == rs[j].port;
                assert(targets[k] == rest[k]);
            } else {
                let t = targets.last();
                assert(targets[targets.len() - 1] == t);
                assert(encode_spec(ports, t, vlan, f) == Some(ds[j]));
            }
        }
    }
}

proof fn lemma_encode_some(ports: Seq<PortView>, p: PortId, vlan: Vlan, f: FrameModel)
    requires
        encode_spec(ports, p, vlan, f) is Some,
    ensures
        encode_spec(ports, p, vlan, f)->Some_0.port == p,
        lookup_port(ports, p) matches Some(e) && !e.blocked,
{
}

/// VLAN isolation. From any consistent state, every delivery of a forwarded
/// frame goes to a registered, unblocked port other than the ingress port
/// that carries the VLAN the frame belongs to, and the learned MACs stay
/// consistent afterwards.
pub proof fn law_forward_isolation(s: SwitchView, ingress: PortId, f: FrameModel, now: u64)
    requires
        ports_ascending(s.ports),
        macs_consistent(s),
    ensures
        ports_ascending(forward_spec(s, ingress, f, now).0.ports),
        macs_consistent(forward_spec(s, ingress, f, now).0),
        forall|j: int|
            #![trigger forward_spec(s, ingress, f, now).1->Ok_0[j]]
            forward_spec(s, ingress, f, now).1 is Ok && 0 <= j < forward_spec(
                s,
                ingress,
                f,
                now,
            ).1->Ok_0.len() ==> {
                let d = forward_spec(s, ingress, f, now).1->Ok_0[j];
                &&& lookup_port(s.ports, ingress) matches Some(entry)
                &&& ingress_vlan_spec(entry.mode, f.tag, ingress) matches Ok(vlan)
                &&& d.port != ingress
                &&& lookup_port(s.ports, d.port) matches Some(e)
                &&& !e.blocked
                &&& carries_spec(e.mode, vlan)
            },
{
    let r = forward_spec(s, ingress, f, now);
    match lookup_port(s.ports, ingress) {
        None => {},
        Some(entry) => {
            if is_any_probe_spec(f) {
                if is_own_probe_spec(f, s.probe_id) {
                    let g = |e: PortView| with_blocked(e, true);
                    lemma_update_port(s.ports, ingress, g);
                    lemma_consistent_after_update(s.ports, ingress, g, s.macs);
                }
            } else if entry.blocked {
            } else {
                match ingress_vlan_spec(entry.mode, f.tag, ingress) {
                    Err(e) => {
                        let g = |p: PortView| with_counters(p, p.counters.count_drop());
                        lemma_update_port(s.ports, ingress, g);
                        lemma_consistent_after_update(s.ports, ingress, g, s.macs);
                    },
                    Ok(vlan) => {
                        let len = f.wire_bytes().len();
                        let g = |p: PortView| with_counters(p, p.counters.count_in(len));
                        let ports1 = update_port(s.ports, ingress, g);
                        let vlans1 = s.vlans.insert(vlan, counters_or_zero(s.vlans, vlan).count_in(len));
                        lemma_update_port(s.ports, ingress, g);
                        lemma_consistent_after_update(s.ports, ingress, g, s.macs);
                        lemma_same_shape_update(s.ports, ingress, g);
                        let macs1 = if is_group_address_spec(f.src) {
                            s.macs
                        } else {
                            s.macs.insert((vlan, f.src), MacEntry { port: ingress, last_seen: now })
                        };
                        assert(lookup_port(ports1, ingress) == Some(g(entry)));
                        assert(macs_consistent_with(ports1, macs1)) by {
                            assert forall|k: (Vlan, Seq<u8>)| #[trigger] macs1.dom().contains(k) implies (
                            lookup_port(ports1, macs1[k].port) matches Some(e) && carries_spec(
                                e.mode,
                                k.0,
                            )) by {
                                if k != (vlan, f.src) || is_group_address_spec(f.src) {
                                    assert(s.macs.dom().contains(k));
                                }
                            }
                        }
                        let targets = egress_targets_spec(ports1, macs1, ingress, vlan, f.dst);
                        let ds = deliveries_spec(ports1, targets, vlan, f);
                        lemma_record_out_shape(ports1, vlans1, ds, vlan);
                        let out = record_out(ports1, vlans1, ds, vlan);
                        assert forall|q: PortId| true implies (lookup_port(ports1, q) is Some <==> lookup_port(out.0, q) is Some) && (lookup_port(ports1, q) is Some ==> lookup_port(out.0, q)->Some_0.mode == lookup_port(ports1, q)->Some_0.mode) by {
                            lemma_same_shape_lookup(ports1, out.0, q);
                        }
                        lemma_same_shape_lookup(ports1, out.0, ingress);
                        assert(macs_consistent_with(out.0, macs1)) by {
                            assert forall|k: (Vlan, Seq<u8>)| #[trigger] macs1.dom().contains(k) implies (
                            lookup_port(out.0, macs1[k].port) matches Some(e) && carries_spec(
                                e.mode,
                                k.0,
                            )) by {
                                lemma_same_shape_lookup(ports1, out.0, macs1[k].port);
                            }
                        }
                        lemma_deliveries_from_targets(ports1, targets, vlan, f);
                        law_flood_list_members(ports1, vlan, ingress);
                        assert forall|j: int| 0 <= j < ds.len() implies {
                            let d = #[trigger] ds[j];
                            &&& d.port != ingress
                            &&& lookup_port(s.ports, d.port) matches Some(e)
                            &&& !e.blocked
                            &&& carries_spec(e.mode, vlan)
                        } by {
                            let d = ds[j];
                            lemma_encode_some(ports1, d.port, vlan, f);
                            lemma_same_shape_lookup(s.ports, ports1, d.port);
                            assert(targets.contains(d.port));
                            if targets == flood_list(ports1, vlan, ingress) {
                                let i = choose|i: int|
                                    0 <= i < ports1.len() && #[trigger] ports1[i].id == d.port
                                        && d.port != ingress && !ports1[i].blocked && carries_spec(
                                        ports1[i].mode,
                                        vlan,
                                    );
                                lemma_lookup_port_at(ports1, i);
                            } else {
                                assert(f.dst != broadcast_mac());
                                assert(macs1.dom().contains((vlan, f.dst)));
                                assert(targets == seq![macs1[(vlan, f.dst)].port]);
                                assert(targets[0] == d.port);
                            }
                        }
                    },
                }
            }
        },
    }
}

/// When every target gets a delivery, the deliveries go to exactly the
/// targets, in order.
proof fn lemma_deliveries_all(ports: Seq<PortView>, targets: Seq<PortId>, vlan: Vlan, f: FrameModel)
    requires
        forall|k: int| 0 <= k < targets.len() ==> encode_spec(ports, #[trigger] targets[k], vlan, f) is Some,
    ensures
        deliveries_spec(ports, targets, vlan, f).map_values(|d: DeliveryView| d.port) == targets,
    decreases targets.len(),
{
    if targets.len() > 0 {
        let rest = targets.drop_last();
        assert forall|k: int| 0 <= k < rest.len() implies encode_spec(ports, #[trigger] rest[k], vlan, f) is Some by {
            assert(rest[k] == targets[k]);
        }
        lemma_deliveries_all(ports, rest, vlan, f);
        let t = targets.last();
        assert(encode_spec(ports, targets[targets.len() - 1], vlan, f) is Some);
        lemma_encode_some(ports, t, vlan, f);
        let d = encode_spec(ports, t, vlan, f)->Some_0;
        let rs = deliveries_spec(ports, rest, vlan, f);
        let ds = deliveries_spec(ports, targets, vlan, f);
        assert(ds == rs.push(d));
        let pm = |x: DeliveryView| x.port;
        assert(ds.map_values(pm) =~= rs.map_values(pm).push(t));
        assert(rest.push(t) =~= targets);
    }
}

/// Broadcast floods the whole VLAN. A broadcast frame (whose EtherType is
/// not the 802.1Q TPID) that a registered, unblocked port accepts into a
/// VLAN is delivered to exactly the flood list of that VLAN: every other
/// unblocked registered port that carries it, in ascending id order.
pub proof fn law_broadcast_floods_vlan(s: SwitchView, ingress: PortId, f: FrameModel, now: u64)
    requires
        ports_ascending(s.ports),
        macs_consistent(s),
        f.dst == broadcast_mac(),
        f.ethertype != TPID_802_1Q,
        !is_any_probe_spec(f),
        lookup_port(s.ports, ingress) matches Some(entry) && !entry.blocked
            && ingress_vlan_spec(entry.mode, f.tag, ingress) is Ok,
    ensures
        forward_spec(s, ingress, f, now).1 matches Ok(ds) && ds.map_values(|d: DeliveryView| d.port)
            == flood_list(
            s.ports,
            ingress_vlan_spec(lookup_port(s.ports, ingress)->Some_0.mode, f.tag, ingress)->Ok_0,
            ingress,
        ),
{
    let entry = lookup_port(s.ports, ingress)->Some_0;
    let vlan = ingress_vlan_spec(entry.mode, f.tag, ingress)->Ok_0;
    let len = f.wire_bytes().len();
    let g = |p: PortView| with_counters(p, p.counters.count_in(len));
    let ports1 = update_port(s.ports, ingress, g);
    lemma_update_port(s.ports, ingress, g);
    lemma_same_shape_update(s.ports, ingress, g);
    lemma_same_shape_flood(s.ports, ports1, vlan, ingress);
    let targets = flood_list(ports1, vlan, ingress);
    law_flood_list_members(ports1, vlan, ingress);
    assert forall|k: int| 0 <= k < targets.len() implies encode_spec(ports1, #[trigger] targets[k], vlan, f) is Some by {
        assert(targets.contains(targets[k]));
        let i = choose|i: int|
            0 <= i < ports1.len() && #[trigger] ports1[i].id == targets[k] && targets[k] != ingress
                && !ports1[i].blocked && carries_spec(ports1[i].mode, vlan);
        lemma_lookup_port_at(ports1, i);
    }
    lemma_deliveries_all(ports1, targets, vlan, f);
}

/// Known unicast goes to exactly one port. When the destination has been
/// learned in the frame's VLAN on another unblocked port (and is not the
/// frame's own source), the frame is delivered to that port alone; when it
/// was learned on the ingress port itself, it is delivered nowhere.
pub proof fn law_known_unicast(s: SwitchView, ingress: PortId, f: FrameModel, now: u64, vlan: Vlan)
    requires
        ports_ascending(s.ports),
        macs_consistent(s),
        f.dst != broadcast_mac(),
        f.dst != f.src,
        f.ethertype != TPID_802_1Q,
        !is_any_probe_spec(f),
        lookup_port(s.ports, ingress) matches Some(entry) && !entry.blocked
            && ingress_vlan_spec(entry.mode, f.tag, ingress) == Ok::<Vlan, super::error::SwitchError>(vlan),
        s.macs.dom().contains((vlan, f.dst)),
        lookup_port(s.ports, s.macs[(vlan, f.dst)].port) matches Some(e) && !e.blocked,
    ensures
        forward_spec(s, ingress, f, now).1 matches Ok(ds) && ds.map_values(|d: DeliveryView| d.port)
            == (if s.macs[(vlan, f.dst)].port == ingress {
            Seq::<PortId>::empty()
        } else {
            seq![s.macs[(vlan, f.dst)].port]
        }),
{
    let entry = lookup_port(s.ports, ingress)->Some_0;
    let len = f.wire_bytes().len();
    let g = |p: PortView| with_counters(p, p.counters.count_in(len));
    let ports1 = update_port(s.ports, ingress, g);
    lemma_update_port(s.ports, ingress, g);
    lemma_same_shape_update(s.ports, ingress, g);
    let p = s.macs[(vlan, f.dst)].port;
    lemma_same_shape_lookup(s.ports, ports1, p);
    let macs1 = if is_group_address_spec(f.src) {
        s.macs
    } else {
        s.macs.insert((vlan, f.src), MacEntry { port: ingress, last_seen: now })
    };
    assert(macs1[(vlan, f.dst)] == s.macs[(vlan, f.dst)]);
    let targets = egress_targets_spec(ports1, macs1, ingress, vlan, f.dst);
    if p != ingress {
        assert(targets == seq![p]);
        assert(encode_spec(ports1, targets[0], vlan, f) is Some);
        lemma_deliveries_all(ports1, targets, vlan, f);
    } else {
        assert(targets == Seq::<PortId>::empty());
        lemma_deliveries_all(ports1, targets, vlan, f);
    }
}

/// Probes touch no counters and teach nothing: forwarding a loop-guard
/// probe leaves every port's and VLAN's counters and the MAC table as they
/// were, delivers nothing, and at most blocks the ingress port (exactly when
/// the probe is this switch's own).
pub proof fn law_probe_touches_no_counters(s: SwitchView, ingress: PortId, f: FrameModel, now: u64)
    requires
        ports_ascending(s.ports),
        is_any_probe_spec(f),
    ensures
        forward_spec(s, ingress, f, now).0.macs == s.macs,
        forward_spec(s, ingress, f, now).0.vlans == s.vlans,
        forall|q: PortId|
            port_counters_or_zero(forward_spec(s, ingress, f, now).0.ports, q)
                == port_counters_or_zero(s.ports, q),
        lookup_port(s.ports, ingress) is Some ==> forward_spec(s, ingress, f, now).1
            == Ok::<Seq<DeliveryView>, super::error::SwitchError>(Seq::empty()),
        lookup_port(s.ports, ingress) matches Some(e) ==> lookup_port(
            forward_spec(s, ingress, f, now).0.ports,
            ingress,
        ) == Some(with_blocked(e, e.blocked || is_own_probe_spec(f, s.probe_id))),
{
    let g = |e: PortView| with_blocked(e, true);
    lemma_update_port(s.ports, ingress, g);
    if let Some(e) = lookup_port(s.ports, ingress) {
        if !is_own_probe_spec(f, s.probe_id) {
            assert(with_blocked(e, e.blocked) == e);
        }
    }
}

/// Only a frame's source is ever (re)learned: forwarding never adds,
/// changes or refreshes the entry of any other MAC, so a MAC that is only
/// ever a destination ages out.
pub proof fn law_forward_learns_only_source(s: SwitchView, ingress: PortId, f: FrameModel, now: u64)
    ensures
        forall|k: (Vlan, Seq<u8>)|
            k.1 != f.src ==> (#[trigger] forward_spec(s, ingress, f, now).0.macs.dom().contains(k)
                == s.macs.dom().contains(k) && (s.macs.dom().contains(k) ==> forward_spec(
                s,
                ingress,
                f,
                now,
            ).0.macs[k] == s.macs[k])),
{
}

proof fn lemma_padded_probe_id(probe_id: u64, padding: Seq<u8>)
    ensures
        super::loop_guard::be64(be64_bytes(probe_id) + padding) == probe_id,
{
    lemma_be64_roundtrip(probe_id);
    let b = be64_bytes(probe_id);
    let padded = b + padding;
    assert(padded[0] == b[0] && padded[1] == b[1] && padded[2] == b[2] && padded[3] == b[3]);
    assert(padded[4] == b[4] && padded[5] == b[5] && padded[6] == b[6] && padded[7] == b[7]);
}

proof fn lemma_probe_parses(probe_id: u64)
    ensures
        parse_spec(probe_frame(probe_id).wire_bytes()) == Ok::<FrameModel, ParseError>(
            probe_frame(probe_id),
        ),
{
    let m = probe_frame(probe_id);
    assert(m.dst.len() == 6);
    assert(m.src.len() == 6);
    lemma_parse_wire_bytes(m);
}

/// A switch's own probe is recognized as its own, and as nobody else's.
/// The probe bytes parse back to the probe frame; its source is a group
/// address, so it is never learned; it still reads as the same switch's
/// probe with any padding after the id; and a probe built from another id
/// is not this switch's.
pub proof fn law_probe_recognition(probe_id: u64, other: u64, padding: Seq<u8>)
    ensures
        parse_spec(probe_frame(probe_id).wire_bytes()) == Ok::<FrameModel, ParseError>(
            probe_frame(probe_id),
        ),
        is_own_probe_spec(probe_frame(probe_id), probe_id),
        is_group_address_spec(probe_frame(probe_id).src),
        is_own_probe_spec(
            FrameModel { payload: be64_bytes(probe_id) + padding, ..probe_frame(probe_id) },
            probe_id,
        ),
        other != probe_id ==> !is_own_probe_spec(probe_frame(other), probe_id),
{
    lemma_probe_parses(probe_id);
    lemma_be64_roundtrip(probe_id);
    lemma_be64_roundtrip(other);
    lemma_padded_probe_id(probe_id, padding);
}

proof fn lemma_record_out_counters(
    ports: Seq<PortView>,
    vlans: Map<Vlan, Counters>,
    ds: Seq<DeliveryView>,
    vlan: Vlan,
    q: PortId,
)
    requires
        ports_ascending(ports),
        forall|j: int| 0 <= j < ds.len() ==> #[trigger] ds[j].port != q,
    ensures
        lookup_port(record_out(ports, vlans, ds, vlan).0, q) == lookup_port(ports, q),
        counters_or_zero(record_out(ports, vlans, ds, vlan).1, vlan).frames_in == counters_or_zero(
            vlans,
            vlan,
        ).frames_in,
        counters_or_zero(record_out(ports, vlans, ds, vlan).1, vlan).frames_out == wadd(
            counters_or_zero(vlans, vlan).frames_out,
            ds.len(),
        ),
    decreases ds.len(),
{
    if ds.len() == 0 {
        let x = counters_or_zero(vlans, vlan).frames_out;
        assert(wadd(x, 0) == x);
    } else {
        let rest = ds.drop_last();
        assert forall|j: int| 0 <= j < rest.len() implies #[trigger] rest[j].port != q by {
            assert(rest[j] == ds[j]);
        }
        lemma_record_out_counters(ports, vlans, rest, vlan, q);
        let p0 = record_out(ports, vlans, rest, vlan).0;
        let v0 = record_out(ports, vlans, rest, vlan).1;
        lemma_record_out_shape(ports, vlans, rest, vlan);
        lemma_same_shape_lookup(ports, p0, q);
        let d = ds.last();
        assert(d == ds[ds.len() - 1]);
        let f = |e: PortView| with_counters(e, e.counters.count_out(d.bytes.len()));
        lemma_update_port(p0, d.port, f);
        lemma_wadd_twice(counters_or_zero(vlans, vlan).frames_out, rest.len(), 1);
    }
}

/// Port and VLAN counters stay consistent with each other. A frame that is
/// forwarded (not a probe) counts once in on its ingress port and once in
/// on its VLAN, and each of its deliveries counts once out on the VLAN.
pub proof fn law_forward_counts_consistently(s: SwitchView, ingress: PortId, f: FrameModel, now: u64)
    requires
        ports_ascending(s.ports),
        macs_consistent(s),
        !is_any_probe_spec(f),
        forward_spec(s, ingress, f, now).1 is Ok,
    ensures
        ({
            let vlan = ingress_vlan_spec(lookup_port(s.ports, ingress)->Some_0.mode, f.tag, ingress)->Ok_0;
            let after = forward_spec(s, ingress, f, now).0;
            let ds = forward_spec(s, ingress, f, now).1->Ok_0;
            &&& port_counters_or_zero(after.ports, ingress) == port_counters_or_zero(s.ports, ingress).count_in(
                f.wire_bytes().len(),
            )
            &&& counters_or_zero(after.vlans, vlan).frames_in == wadd(counters_or_zero(s.vlans, vlan).frames_in, 1)
            &&& counters_or_zero(after.vlans, vlan).frames_out == wadd(
                counters_or_zero(s.vlans, vlan).frames_out,
                ds.len(),
            )
        }),
{
    let entry = lookup_port(s.ports, ingress)->Some_0;
    let vlan = ingress_vlan_spec(entry.mode, f.tag, ingress)->Ok_0;
    let len = f.wire_bytes().len();
    let g = |p: PortView| with_counters(p, p.counters.count_in(len));
    let ports1 = update_port(s.ports, ingress, g);
    let vlans1 = s.vlans.insert(vlan, counters_or_zero(s.vlans, vlan).count_in(len));
    lemma_update_port(s.ports, ingress, g);
    law_forward_isolation(s, ingress, f, now);
    let ds = forward_spec(s, ingress, f, now).1->Ok_0;
    assert forall|j: int| 0 <= j < ds.len() implies #[trigger] ds[j].port != ingress by {
        assert(forward_spec(s, ingress, f, now).1->Ok_0[j] == ds[j]);
    }
    lemma_record_out_counters(ports1, vlans1, ds, vlan, ingress);
}

/// What forwarding learns is what later forwarding uses. Once a frame from
/// a unicast source has been forwarded from port `p` into VLAN `vlan`, a
/// later frame of that VLAN addressed to that source, arriving on another
/// unblocked port, is delivered to `p` alone.
pub proof fn law_learned_source_is_delivered(
    s: SwitchView,
    p: PortId,
    f1: FrameModel,
    t1: u64,
    q: PortId,
    f2: FrameModel,
    t2: u64,
    vlan: Vlan,
)
    requires
        ports_ascending(s.ports),
        macs_consistent(s),
        !is_any_probe_spec(f1),
        !is_group_address_spec(f1.src),
        lookup_port(s.ports, p) matches Some(e) && !e.blocked
            && ingress_vlan_spec(e.mode, f1.tag, p) == Ok::<Vlan, super::error::SwitchError>(vlan),
        q != p,
        lookup_port(s.ports, q) matches Some(e) && !e.blocked
            && ingress_vlan_spec(e.mode, f2.tag, q) == Ok::<Vlan, super::error::SwitchError>(vlan),
        f2.dst == f1.src,
        f2.src != f2.dst,
        f2.ethertype != TPID_802_1Q,
        !is_any_probe_spec(f2),
    ensures
        forward_spec(forward_spec(s, p, f1, t1).0, q, f2, t2).1 matches Ok(ds) && ds.map_values(
            |d: DeliveryView| d.port,
        ) == seq![p],
{
    let s1 = forward_spec(s, p, f1, t1).0;
    law_forward_isolation(s, p, f1, t1);
    let len = f1.wire_bytes().len();
    let g = |e: PortView| with_counters(e, e.counters.count_in(len));
    let ports1 = update_port(s.ports, p, g);
    let vlans1 = s.vlans.insert(vlan, counters_or_zero(s.vlans, vlan).count_in(len));
    lemma_same_shape_update(s.ports, p, g);
    let macs1 = s.macs.insert((vlan, f1.src), MacEntry { port: p, last_seen: t1 });
    let targets = egress_targets_spec(ports1, macs1, p, vlan, f1.dst);
    let ds = deliveries_spec(ports1, targets, vlan, f1);
    lemma_record_out_shape(ports1, vlans1, ds, vlan);
    assert(s1.ports == record_out(ports1, vlans1, ds, vlan).0);
    lemma_same_shape_trans(s.ports, ports1, s1.ports);
    lemma_same_shape_lookup(s.ports, s1.ports, p);
    lemma_same_shape_lookup(s.ports, s1.ports, q);
    assert(s1.macs == macs1);
    assert(f2.dst != broadcast_mac()) by {
        if f2.dst == broadcast_mac() {
            assert(f1.src[0] == 0xFFu8);
        }
    }
    law_known_unicast(s1, q, f2, t2, vlan);
}

/// Unblocking undoes blocking: blocking a port that is not blocked and
/// then unblocking it gives back exactly the ports it started from.
pub proof fn law_unblock_undoes_block(s: SwitchView, p: PortId)
    requires
        ports_ascending(s.ports),
        lookup_port(s.ports, p) matches Some(e) ==> !e.blocked,
    ensures
        update_port(
            update_port(s.ports, p, |e: PortView| with_blocked(e, true)),
            p,
            |e: PortView| with_blocked(e, false),
        ) == s.ports,
{
    let b = update_port(s.ports, p, |e: PortView| with_blocked(e, true));
    let u = update_port(b, p, |e: PortView| with_blocked(e, false));
    assert forall|i: int| 0 <= i < s.ports.len() implies #[trigger] u[i] == s.ports[i] by {
        if s.ports[i].id == p {
            lemma_lookup_port_at(s.ports, i);
        }
    }
    assert(u =~= s.ports);
}

/// A removed (or never registered) port is unknown to the switch: any
/// frame from it is refused with `UnknownPort` and changes nothing, and it
/// is in no VLAN's flood list.
pub proof fn law_unregistered_port_is_unknown(s: SwitchView, p: PortId, f: FrameModel, now: u64)
    requires
        ports_ascending(s.ports),
        lookup_port(s.ports, p) is None,
    ensures
        forward_spec(s, p, f, now) == (s, Err::<Seq<DeliveryView>, super::error::SwitchError>(
            super::error::SwitchError::UnknownPort(p),
        )),
        forall|vlan: Vlan, x: PortId| !(#[trigger] flood_list(s.ports, vlan, x)).contains(p),
{
    assert forall|vlan: Vlan, x: PortId| !(#[trigger] flood_list(s.ports, vlan, x)).contains(p) by {
        law_flood_list_members(s.ports, vlan, x);
        if flood_list(s.ports, vlan, x).contains(p) {
            let i = choose|i: int|
                0 <= i < s.ports.len() && #[trigger] s.ports[i].id == p && p != x && !s.ports[i].blocked
                    && carries_spec(s.ports[i].mode, vlan);
            assert(has_port_at(s.ports, p, i));
        }
    }
}

/// No group address is ever learned. Forwarding a frame whose source is a
/// multicast or broadcast address leaves the learned MACs as they were, so
/// when no learned MAC is a group address beforehand, none is afterwards.
pub proof fn law_group_sources_are_never_learned(s: SwitchView, ingress: PortId, f: FrameModel, now: u64)
    ensures
        is_group_address_spec(f.src) ==> forward_spec(s, ingress, f, now).0.macs == s.macs,
        (forall|k: (Vlan, Seq<u8>)| #[trigger] s.macs.dom().contains(k) ==> !is_group_address_spec(k.1))
            ==> (forall|k: (Vlan, Seq<u8>)|
            #[trigger] forward_spec(s, ingress, f, now).0.macs.dom().contains(k)
                ==> !is_group_address_spec(k.1)),
{
}

/// Which VLANs a port carries, read off its mode: an access port exactly its
/// one VLAN, a trunk exactly the VLANs in its allowed set and its native
/// VLAN.
pub proof fn law_carried_vlans(m: PortModeView, v: Vlan)
    ensures
        carries_spec(m, v) <==> match m {
            PortModeView::Access { vlan } => vlan == v,
            PortModeView::Trunk { native, allowed } => allowed.contains(v) || native == Some(v),
        },
        m matches PortModeView::Trunk { native, allowed } && native != Some(v) && !allowed.contains(v)
            ==> !carries_spec(m, v),
{
}

/// Forwarding respects port membership: a frame of VLAN `v` is delivered to
/// an access port only if that port's VLAN is `v`, and to a trunk only if
/// `v` is in the trunk's allowed set or is its native VLAN.
pub proof fn law_forward_respects_membership(s: SwitchView, ingress: PortId, f: FrameModel, now: u64)
    requires
        ports_ascending(s.ports),
        macs_consistent(s),
    ensures
        forall|j: int|
            #![trigger forward_spec(s, ingress, f, now).1->Ok_0[j]]
            forward_spec(s, ingress, f, now).1 is Ok && 0 <= j < forward_spec(
                s,
                ingress,
                f,
                now,
            ).1->Ok_0.len() ==> {
                let d = forward_spec(s, ingress, f, now).1->Ok_0[j];
                let vlan = ingress_vlan_spec(lookup_port(s.ports, ingress)->Some_0.mode, f.tag, ingress)->Ok_0;
                &&& lookup_port(s.ports, d.port) is Some
                &&& match lookup_port(s.ports, d.port)->Some_0.mode {
                    PortModeView::Access { vlan: a } => a == vlan,
                    PortModeView::Trunk { native, allowed } => allowed.contains(vlan) || native
                        == Some(vlan),
                }
            },
{
    law_forward_isolation(s, ingress, f, now);
    assert forall|j: int|
        forward_spec(s, ingress, f, now).1 is Ok && 0 <= j < forward_spec(
            s,
            ingress,
            f,
            now,
        ).1->Ok_0.len() implies {
            let d = #[trigger] forward_spec(s, ingress, f, now).1->Ok_0[j];
            let vlan = ingress_vlan_spec(lookup_port(s.ports, ingress)->Some_0.mode, f.tag, ingress)->Ok_0;
            &&& lookup_port(s.ports, d.port) is Some
            &&& match lookup_port(s.ports, d.port)->Some_0.mode {
                PortModeView::Access { vlan: a } => a == vlan,
                PortModeView::Trunk { native, allowed } => allowed.contains(vlan) || native == Some(
                    vlan,
                ),
            }
        } by {
        let d = forward_spec(s, ingress, f, now).1->Ok_0[j];
        let vlan = ingress_vlan_spec(lookup_port(s.ports, ingress)->Some_0.mode, f.tag, ingress)->Ok_0;
        law_carried_vlans(lookup_port(s.ports, d.port)->Some_0.mode, vlan);
    }
}

/// The frame a port receives. A delivery of a frame of VLAN `v` to an access
/// port, or to a trunk whose native VLAN is `v`, parses back to the frame
/// untagged, with its destination, source, EtherType and payload, however
/// the frame arrived. A delivery to any other trunk parses back to the frame
/// tagged with VLAN `v`, keeping the incoming priority and drop-eligible
/// bits (zero when it arrived untagged).
pub proof fn law_egress_encoding(s: SwitchView, ingress: PortId, f: FrameModel, now: u64)
    requires
        ports_ascending(s.ports),
        macs_consistent(s),
        f.well_formed(),
    ensures
        forall|j: int|
            #![trigger forward_spec(s, ingress, f, now).1->Ok_0[j]]
            forward_spec(s, ingress, f, now).1 is Ok && 0 <= j < forward_spec(
                s,
                ingress,
                f,
                now,
            ).1->Ok_0.len() ==> {
                let d = forward_spec(s, ingress, f, now).1->Ok_0[j];
                let vlan = ingress_vlan_spec(lookup_port(s.ports, ingress)->Some_0.mode, f.tag, ingress)->Ok_0;
                let mode = lookup_port(s.ports, d.port)->Some_0.mode;
                let untagged = mode is Access || (mode matches PortModeView::Trunk { native, .. } && native == Some(vlan));
                &&& lookup_port(s.ports, d.port) is Some
                &&& untagged ==> parse_spec(d.bytes) == Ok::<FrameModel, ParseError>(
                    FrameModel {
                        dst: f.dst,
                        src: f.src,
                        tag: None,
                        ethertype: f.ethertype,
                        payload: f.payload,
                    },
                )
                &&& !untagged && vlan < 4096 ==> parse_spec(d.bytes) == Ok::<FrameModel, ParseError>(
                    FrameModel {
                        dst: f.dst,
                        src: f.src,
                        tag: Some(
                            Dot1qTag {
                                pcp: match f.tag {
                                    Some(t) => t.pcp,
                                    None => 0,
                                },
                                dei: match f.tag {
                                    Some(t) => t.dei,
                                    None => false,
                                },
                                vid: vlan,
                            },
                        ),
                        ethertype: f.ethertype,
                        payload: f.payload,
                    },
                )
            },
{
    law_forward_isolation(s, ingress, f, now);
    let r = forward_spec(s, ingress, f, now);
    if r.1 is Ok && lookup_port(s.ports, ingress) is Some && !is_any_probe_spec(f) {
        let entry = lookup_port(s.ports, ingress)->Some_0;
        let vlan = ingress_vlan_spec(entry.mode, f.tag, ingress)->Ok_0;
        let len = f.wire_bytes().len();
        let g = |p: PortView| with_counters(p, p.counters.count_in(len));
        let ports1 = update_port(s.ports, ingress, g);
        lemma_update_port(s.ports, ingress, g);
        lemma_same_shape_update(s.ports, ingress, g);
        let macs1 = if is_group_address_spec(f.src) {
            s.macs
        } else {
            s.macs.insert((vlan, f.src), MacEntry { port: ingress, last_seen: now })
        };
        let targets = egress_targets_spec(ports1, macs1, ingress, vlan, f.dst);
        let ds = deliveries_spec(ports1, targets, vlan, f);
        assert(r.1->Ok_0 == ds);
        lemma_deliveries_from_targets(ports1, targets, vlan, f);
        assert forall|j: int| 0 <= j < ds.len() implies {
            let d = #[trigger] ds[j];
            let mode = lookup_port(s.ports, d.port)->Some_0.mode;
            let untagged = mode is Access || (mode matches PortModeView::Trunk { native, .. } && native == Some(vlan));
            &&& lookup_port(s.ports, d.port) is Some
            &&& untagged ==> parse_spec(d.bytes) == Ok::<FrameModel, ParseError>(
                FrameModel {
                    dst: f.dst,
                    src: f.src,
                    tag: None,
                    ethertype: f.ethertype,
                    payload: f.payload,
                },
            )
            &&& !untagged && vlan < 4096 ==> parse_spec(d.bytes) == Ok::<FrameModel, ParseError>(
                FrameModel {
                    dst: f.dst,
                    src: f.src,
                    tag: Some(
                        Dot1qTag {
                            pcp: match f.tag {
                                Some(t) => t.pcp,
                                None => 0,
                            },
                            dei: match f.tag {
                                Some(t) => t.dei,
                                None => false,
                            },
                            vid: vlan,
                        },
                    ),
                    ethertype: f.ethertype,
                    payload: f.payload,
                },
            )
        } by {
            let d = ds[j];
            lemma_encode_some(ports1, d.port, vlan, f);
            lemma_same_shape_lookup(s.ports, ports1, d.port);
            let e = lookup_port(ports1, d.port)->Some_0;
            let out = FrameModel { tag: super::forwarding::egress_tag(e.mode, vlan, f.tag), ..f };
            assert(encode_spec(ports1, d.port, vlan, f) == Some(d));
            assert(d.bytes == out.wire_bytes());
            let untagged = e.mode is Access || (e.mode matches PortModeView::Trunk { native, .. } && native == Some(vlan));
            if untagged {
                lemma_parse_wire_bytes(out);
            } else if vlan < 4096 {
                lemma_parse_wire_bytes(out);
            }
        }
    }
}

} // verus!
