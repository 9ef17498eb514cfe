use vlan_rs::frame::{append_bytes, EthernetFrame};
use vlan_rs::switch::{
    assignable, build_probe, counter_add, is_any_probe, is_group_address, is_own_probe,
    new_probe_id, payload_probe_id, Counters, InvalidVlan, PortId, PortMode, PortModeError,
    SwitchError, VlanSet, PROBE_ETHERTYPE,
};
use vlan_rs::text::{chars_of, equals_text, find_char, parse_u16, push_decimal};

#[test]
fn append_bytes_appends_in_order() {
    let mut out = vec![1, 2];
    append_bytes(&mut out, &[3, 4, 5]);
    assert_eq!(out, vec![1, 2, 3, 4, 5]);
    append_bytes(&mut out, &[]);
    assert_eq!(out, vec![1, 2, 3, 4, 5]);
}

#[test]
fn assignable_vlans_are_1_to_4094() {
    assert!(!assignable(0));
    assert!(assignable(1));
    assert!(assignable(4094));
    assert!(!assignable(4095));
    assert!(!assignable(u16::MAX));
    assert_eq!(PortModeError::from_invalid_vlan(InvalidVlan(4095)), PortModeError::InvalidVlan(4095));
}

#[test]
fn counters_wrap_at_2_to_the_64() {
    assert_eq!(counter_add(1, 2), 3);
    assert_eq!(counter_add(u64::MAX, 1), 0);
    assert_eq!(counter_add(u64::MAX - 1, 5), 3);
    assert_eq!(
        Counters::zero(),
        Counters { frames_in: 0, bytes_in: 0, frames_out: 0, bytes_out: 0, drops: 0 }
    );
    assert_eq!(Counters::default(), Counters::zero());
}

#[test]
fn group_addresses_have_the_low_bit_of_the_first_octet_set() {
    assert!(is_group_address(&[0x01, 0, 0x5e, 0, 0, 1]));
    assert!(is_group_address(&[0xFF; 6]));
    assert!(!is_group_address(&[0x00, 0x11, 0x22, 0x33, 0x44, 0x55]));
    assert!(!is_group_address(&[0x02, 0, 0, 0, 0, 1]));
}

#[test]
fn a_probe_is_exactly_its_bytes() {
    let bytes = build_probe(0x0102_0304_0506_0708);
    assert_eq!(
        bytes,
        vec![
            0xFF, 0xFF, 0xFF, 0xFF, 0xFF, 0xFF, // broadcast
            0x03, 0x01, 0x02, 0x03, 0x04, 0x05, // group, locally administered source
            0x88, 0xB7, // probe EtherType
            0x01, 0x02, 0x03, 0x04, 0x05, 0x06, 0x07, 0x08, // probe id
        ]
    );
    let frame = EthernetFrame::parse(&bytes).unwrap();
    assert_eq!(frame.ethertype, PROBE_ETHERTYPE);
    assert!(is_any_probe(&frame));
    assert!(is_own_probe(&frame, 0x0102_0304_0506_0708));
    assert!(!is_own_probe(&frame, 0x0102_0304_0506_0709));
}

#[test]
fn a_probe_id_is_read_from_the_first_eight_payload_bytes() {
    assert_eq!(payload_probe_id(&[]), None);
    assert_eq!(payload_probe_id(&[1, 2, 3, 4, 5, 6, 7]), None);
    assert_eq!(payload_probe_id(&[0, 0, 0, 0, 0, 0, 1, 2]), Some(0x0102));
    assert_eq!(payload_probe_id(&[0xFF; 12]), Some(u64::MAX));
}

#[test]
fn an_ordinary_frame_is_no_probe() {
    let frame = EthernetFrame {
        dst: [0xFF; 6],
        src: [0x03, 1, 2, 3, 4, 5],
        tag: None,
        ethertype: 0x0800,
        payload: &[1, 2, 3, 4, 5, 6, 7, 8],
    };
    assert!(!is_any_probe(&frame));
    assert!(!is_own_probe(&frame, 0x0102_0304_0506_0708));
}

#[test]
fn fresh_probe_ids_differ() {
    assert_ne!(new_probe_id(), new_probe_id());
}

#[test]
fn vlan_sets_are_sorted_and_deduplicated() {
    let set = VlanSet::from_vlans(&[30, 10, 20, 10, 30]);
    assert_eq!(set.len(), 3);
    assert_eq!((set.get(0), set.get(1), set.get(2)), (10, 20, 30));
    assert!(set.contains(20));
    assert!(!set.contains(40));
    assert_eq!(set.duplicate(), set);
    assert_eq!(VlanSet::empty().len(), 0);
    let mode = PortMode::trunk(Some(5), vec![30, 10]).unwrap();
    assert_eq!(mode.duplicate(), mode);
    assert_eq!(mode, PortMode::trunk(Some(5), vec![10, 30, 10]).unwrap());
}

#[test]
fn switch_errors_read_like_their_display_text() {
    assert_eq!(SwitchError::UnknownPort(PortId(99)).message(), "unknown port: PortId(99)");
    assert_eq!(
        SwitchError::VlanNotAllowedOnTrunk { port: PortId(2), vlan: 30 }.message(),
        "PortId(2): VLAN 30 not allowed on this trunk"
    );
    assert_eq!(
        SwitchError::UntaggedFrameOnTrunkWithoutNative { port: PortId(3) }.message(),
        "PortId(3): untagged frame on a trunk with no native VLAN"
    );
    assert_eq!(
        SwitchError::TaggedFrameOnAccessPort { port: PortId(0) }.message(),
        "PortId(0): tagged frame on an access port"
    );
    assert_eq!(
        SwitchError::PortBlocked(PortId(4294967295)).message(),
        "PortId(4294967295): port blocked by the loop guard"
    );
}

#[test]
fn text_helpers() {
    let cs = chars_of("a:bé:c");
    assert_eq!(cs, vec!['a', ':', 'b', 'é', ':', 'c']);
    assert!(equals_text(&cs, "a:bé:c"));
    assert!(!equals_text(&cs, "a:be:c"));
    assert_eq!(find_char(&cs, ':', 0, cs.len()), Some(1));
    assert_eq!(find_char(&cs, ':', 2, cs.len()), Some(4));
    assert_eq!(find_char(&cs, ':', 2, 4), None);
    let digits = chars_of("x+65535 65536");
    assert_eq!(parse_u16(&digits, 1, 7), Some(65535));
    assert_eq!(parse_u16(&digits, 8, 13), None);
    assert_eq!(parse_u16(&digits, 1, 2), None);
    let mut out = String::from("n=");
    push_decimal(&mut out, 0);
    out.push(',');
    push_decimal(&mut out, u64::MAX);
    assert_eq!(out, "n=0,18446744073709551615");
}
