use vlan_rs::frame::{Dot1qTag, EthernetFrame};
use vlan_rs::switch::{Counters, PortId, PortMode, Switch, SwitchError, BROADCAST};

const HOST_A: [u8; 6] = [0x00, 0x00, 0x00, 0x00, 0x00, 0x01];
const HOST_B: [u8; 6] = [0x00, 0x00, 0x00, 0x00, 0x00, 0x02];
const PORT1: PortId = PortId(1);
const PORT2: PortId = PortId(2);
const PORT3: PortId = PortId(3);

fn frame(dst: [u8; 6], src: [u8; 6], tag: Option<Dot1qTag>) -> EthernetFrame<'static> {
    EthernetFrame {
        dst,
        src,
        tag,
        ethertype: 0x0800,
        payload: &[0xAB, 0xCD],
    }
}

fn tag(vid: u16) -> Option<Dot1qTag> {
    Some(Dot1qTag { pcp: 0, dei: false, vid })
}

fn encode(f: &EthernetFrame) -> Vec<u8> {
    let mut out = Vec::new();
    f.write_into(&mut out).unwrap();
    out
}

/// Port 1 access VLAN 10, port 2 trunk native 10 allowed 20, port 3 trunk
/// without native allowed 10 and 20.
fn mixed() -> Switch {
    let mut switch = Switch::with_probe_id(0x1122_3344_5566_7788);
    switch.add_port(PORT1, PortMode::access(10).unwrap());
    switch.add_port(PORT2, PortMode::trunk(Some(10), vec![20]).unwrap());
    switch.add_port(PORT3, PortMode::trunk(None, vec![10, 20]).unwrap());
    switch
}

#[test]
fn egress_is_tagged_only_where_the_port_needs_it() {
    let mut switch = mixed();
    let f = frame(BROADCAST, HOST_A, None);
    let ds = switch.forward(PORT1, &f, 0).unwrap();
    assert_eq!(ds.len(), 2);
    // native VLAN of port 2: untagged
    assert_eq!(ds[0].port, PORT2);
    assert_eq!(ds[0].bytes, encode(&f));
    // port 3 carries VLAN 10 tagged
    assert_eq!(ds[1].port, PORT3);
    assert_eq!(ds[1].bytes, encode(&frame(BROADCAST, HOST_A, tag(10))));
}

#[test]
fn trunk_ingress_keeps_priority_bits_on_tagged_egress() {
    let mut switch = mixed();
    let incoming = frame(
        BROADCAST,
        HOST_A,
        Some(Dot1qTag { pcp: 6, dei: true, vid: 20 }),
    );
    let ds = switch.forward(PORT2, &incoming, 0).unwrap();
    assert_eq!(ds.len(), 1);
    assert_eq!(ds[0].port, PORT3);
    assert_eq!(ds[0].bytes, encode(&incoming));
}

#[test]
fn tagged_frame_on_access_port_is_rejected_and_counted_as_drop() {
    let mut switch = mixed();
    let err = switch.forward(PORT1, &frame(BROADCAST, HOST_A, tag(10)), 0).unwrap_err();
    assert_eq!(err, SwitchError::TaggedFrameOnAccessPort { port: PORT1 });
    assert_eq!(switch.port_counters(PORT1).drops, 1);
    assert_eq!(switch.port_counters(PORT1).frames_in, 0);
}

#[test]
fn trunk_rejects_vlans_it_does_not_carry() {
    let mut switch = mixed();
    let err = switch.forward(PORT2, &frame(BROADCAST, HOST_A, tag(30)), 0).unwrap_err();
    assert_eq!(err, SwitchError::VlanNotAllowedOnTrunk { port: PORT2, vlan: 30 });
    let err = switch.forward(PORT3, &frame(BROADCAST, HOST_A, None), 0).unwrap_err();
    assert_eq!(err, SwitchError::UntaggedFrameOnTrunkWithoutNative { port: PORT3 });
}

#[test]
fn a_trunk_accepts_a_tagged_frame_for_its_native_vlan() {
    let mut switch = mixed();
    let ds = switch.forward(PORT2, &frame(BROADCAST, HOST_A, tag(10)), 0).unwrap();
    let ports: Vec<PortId> = ds.iter().map(|d| d.port).collect();
    assert_eq!(ports, vec![PORT1, PORT3]);
}

#[test]
fn counters_follow_forwarding() {
    let mut switch = mixed();
    let f = frame(BROADCAST, HOST_A, None);
    switch.forward(PORT1, &f, 0).unwrap();
    let p1 = switch.port_counters(PORT1);
    assert_eq!(p1, Counters { frames_in: 1, bytes_in: 16, frames_out: 0, bytes_out: 0, drops: 0 });
    let p2 = switch.port_counters(PORT2);
    assert_eq!(p2, Counters { frames_in: 0, bytes_in: 0, frames_out: 1, bytes_out: 16, drops: 0 });
    let p3 = switch.port_counters(PORT3);
    assert_eq!(p3, Counters { frames_in: 0, bytes_in: 0, frames_out: 1, bytes_out: 20, drops: 0 });
    assert_eq!(
        switch.all_vlan_counters(),
        vec![(10, Counters { frames_in: 1, bytes_in: 16, frames_out: 2, bytes_out: 36, drops: 0 })]
    );
    assert_eq!(switch.port_counters(PortId(42)), Counters::default());
    assert_eq!(
        switch.all_port_counters(),
        vec![(PORT1, p1), (PORT2, p2), (PORT3, p3)]
    );
}

#[test]
fn a_multicast_source_is_never_learned() {
    let mut switch = mixed();
    let multicast = [0x01, 0x00, 0x5E, 0x00, 0x00, 0x01];
    switch.forward(PORT1, &frame(BROADCAST, multicast, None), 0).unwrap();
    let ds = switch.forward(PORT3, &frame(multicast, HOST_B, tag(10)), 0).unwrap();
    let ports: Vec<PortId> = ds.iter().map(|d| d.port).collect();
    assert_eq!(ports, vec![PORT1, PORT2]);
}

#[test]
fn ages_out_stale_entries_but_keeps_fresh_ones() {
    let mut switch = mixed();
    switch.forward(PORT1, &frame(BROADCAST, HOST_A, None), 0).unwrap();
    switch.forward(PORT2, &frame(BROADCAST, HOST_B, None), 200).unwrap();
    assert_eq!(switch.age_out(300, 350), 1);
    // A is gone: unicast to it floods again
    let ds = switch.forward(PORT2, &frame(HOST_A, HOST_B, None), 360).unwrap();
    assert_eq!(ds.len(), 2);
    // B is still known: unicast goes to port 2 only
    let ds = switch.forward(PORT1, &frame(HOST_B, HOST_A, None), 360).unwrap();
    assert_eq!(ds.len(), 1);
    assert_eq!(ds[0].port, PORT2);
}

#[test]
fn lookups_never_refresh_an_entrys_age() {
    let mut switch = mixed();
    switch.forward(PORT2, &frame(BROADCAST, HOST_B, None), 0).unwrap();
    // HOST_B is looked up as a destination at t=250, but never speaks again
    let ds = switch.forward(PORT1, &frame(HOST_B, HOST_A, None), 250).unwrap();
    assert_eq!(ds.len(), 1);
    assert_eq!(switch.age_out(300, 301), 1);
    let ds = switch.forward(PORT1, &frame(HOST_B, HOST_A, None), 302).unwrap();
    assert_eq!(ds.len(), 2);
}

#[test]
fn re_adding_a_port_purges_its_learned_macs() {
    let mut switch = mixed();
    switch.forward(PORT1, &frame(BROADCAST, HOST_A, None), 0).unwrap();
    switch.add_port(PORT1, PortMode::access(20).unwrap());
    assert_eq!(switch.port_mode(PORT1), Some(PortMode::access(20).unwrap()));
    let ds = switch.forward(PORT2, &frame(HOST_A, HOST_B, None), 0).unwrap();
    let ports: Vec<PortId> = ds.iter().map(|d| d.port).collect();
    assert_eq!(ports, vec![PORT3]);
}

#[test]
fn a_removed_port_is_unknown_and_never_flooded() {
    let mut switch = mixed();
    switch.remove_port(PORT2);
    assert_eq!(switch.port_ids(), vec![PORT1, PORT3]);
    assert_eq!(switch.port_mode(PORT2), None);
    assert_eq!(
        switch.forward(PORT2, &frame(BROADCAST, HOST_A, None), 0).unwrap_err(),
        SwitchError::UnknownPort(PORT2)
    );
    let ds = switch.forward(PORT1, &frame(BROADCAST, HOST_A, None), 0).unwrap();
    assert_eq!(ds.len(), 1);
    assert_eq!(ds[0].port, PORT3);
}

#[test]
fn ports_are_listed_in_id_order() {
    let mut switch = Switch::new();
    switch.add_port(PortId(7), PortMode::access(1).unwrap());
    switch.add_port(PortId(2), PortMode::access(1).unwrap());
    switch.add_port(PortId(5), PortMode::access(1).unwrap());
    assert_eq!(switch.port_ids(), vec![PortId(2), PortId(5), PortId(7)]);
}

fn probe_frame(bytes: &[u8]) -> EthernetFrame<'_> {
    EthernetFrame::parse(bytes).unwrap()
}

#[test]
fn a_switchs_own_probe_looping_back_blocks_the_receiving_port() {
    let mut switch = mixed();
    let probe = switch.build_loop_probe();
    let ds = switch.forward(PORT1, &probe_frame(&probe), 0).unwrap();
    assert!(ds.is_empty());
    assert!(switch.is_blocked(PORT1));
    assert!(!switch.is_blocked(PORT2));
}

#[test]
fn a_different_switchs_probe_does_not_block_anything() {
    let mut switch = mixed();
    let other = Switch::with_probe_id(7);
    let probe = other.build_loop_probe();
    let ds = switch.forward(PORT1, &probe_frame(&probe), 0).unwrap();
    assert!(ds.is_empty());
    assert!(!switch.is_blocked(PORT1));
}

#[test]
fn a_zero_padded_probe_is_still_recognized() {
    let mut switch = mixed();
    let mut probe = switch.build_loop_probe();
    probe.resize(60, 0);
    switch.forward(PORT3, &probe_frame(&probe), 0).unwrap();
    assert!(switch.is_blocked(PORT3));
}

#[test]
fn a_probe_touches_no_counters() {
    let mut switch = mixed();
    let probe = switch.build_loop_probe();
    switch.forward(PORT1, &probe_frame(&probe), 0).unwrap();
    assert_eq!(switch.port_counters(PORT1), Counters::default());
    assert!(switch.all_vlan_counters().is_empty());
}

#[test]
fn the_probe_is_a_broadcast_from_a_multicast_source() {
    let switch = Switch::with_probe_id(0x0102_0304_0506_0708);
    assert_eq!(switch.probe_id(), 0x0102_0304_0506_0708);
    let probe = switch.build_loop_probe();
    assert_eq!(
        probe,
        vec![
            0xFF, 0xFF, 0xFF, 0xFF, 0xFF, 0xFF, 0x03, 0x01, 0x02, 0x03, 0x04, 0x05, 0x88, 0xB7,
            0x01, 0x02, 0x03, 0x04, 0x05, 0x06, 0x07, 0x08,
        ]
    );
}

#[test]
fn two_switches_get_different_probe_ids() {
    assert_ne!(Switch::new().probe_id(), Switch::new().probe_id());
}

#[test]
fn a_blocked_port_rejects_forward_calls() {
    let mut switch = mixed();
    switch.block_port(PORT1);
    assert_eq!(
        switch.forward(PORT1, &frame(BROADCAST, HOST_A, None), 0).unwrap_err(),
        SwitchError::PortBlocked(PORT1)
    );
}

#[test]
fn a_blocked_port_is_excluded_from_flooding() {
    let mut switch = mixed();
    switch.block_port(PORT3);
    let ds = switch.forward(PORT1, &frame(BROADCAST, HOST_A, None), 0).unwrap();
    let ports: Vec<PortId> = ds.iter().map(|d| d.port).collect();
    assert_eq!(ports, vec![PORT2]);
}

#[test]
fn unicast_to_a_mac_learned_on_a_since_blocked_port_does_not_egress_it() {
    let mut switch = mixed();
    switch.forward(PORT2, &frame(BROADCAST, HOST_B, None), 0).unwrap();
    switch.block_port(PORT2);
    let ds = switch.forward(PORT1, &frame(HOST_B, HOST_A, None), 0).unwrap();
    assert!(ds.is_empty());
}

#[test]
fn unblock_port_restores_normal_forwarding() {
    let mut switch = mixed();
    switch.block_port(PORT1);
    switch.unblock_port(PORT1);
    assert!(!switch.is_blocked(PORT1));
    assert!(switch.forward(PORT1, &frame(BROADCAST, HOST_A, None), 0).is_ok());
}

#[test]
fn re_adding_a_port_clears_a_block() {
    let mut switch = mixed();
    switch.block_port(PORT1);
    switch.add_port(PORT1, PortMode::access(10).unwrap());
    assert!(!switch.is_blocked(PORT1));
}

#[test]
fn loop_probes_go_out_of_every_unblocked_port() {
    let mut switch = mixed();
    assert_eq!(switch.loop_probe_targets(), vec![PORT1, PORT2, PORT3]);
    switch.block_port(PORT2);
    assert_eq!(switch.loop_probe_targets(), vec![PORT1, PORT3]);
    switch.remove_port(PORT1);
    assert_eq!(switch.loop_probe_targets(), vec![PORT3]);
    assert_eq!(Switch::new().loop_probe_targets(), vec![]);
}
