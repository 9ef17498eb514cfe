use vlan_rs::daemon::{handle_frame_event, FrameEventError};
use vlan_rs::dashboard::render_counters_json;
use vlan_rs::frame::{EthernetFrame, ParseError};
use vlan_rs::switch::{PortId, PortMode, Switch, BROADCAST};

const PORT1: PortId = PortId(1);
const PORT2: PortId = PortId(2);
const HOST_A: [u8; 6] = [0x00, 0x00, 0x00, 0x00, 0x00, 0x01];

fn frame(dst: [u8; 6], src: [u8; 6]) -> EthernetFrame<'static> {
    EthernetFrame {
        dst,
        src,
        tag: None,
        ethertype: 0x0800,
        payload: &[0xAB; 46],
    }
}

#[test]
fn renders_an_empty_switch_as_empty_arrays() {
    let switch = Switch::new();
    assert_eq!(render_counters_json(&switch), r#"{"ports":[],"vlans":[]}"#);
}

#[test]
fn renders_an_access_ports_mode_and_counters() {
    let mut switch = Switch::new();
    switch.add_port(PORT1, PortMode::access(10).unwrap());
    switch.add_port(PORT2, PortMode::access(10).unwrap());
    switch.forward(PORT1, &frame(BROADCAST, HOST_A), 0).unwrap();

    let json = render_counters_json(&switch);
    assert!(json.contains(
        r#"{"port":1,"blocked":false,"mode":{"kind":"access","vlan":10},"frames_in":"1","#
    ));
    assert!(json.contains(r#""vlans":[{"vlan":10,"frames_in":"1","#));
}

#[test]
fn counter_values_are_quoted_json_strings_not_bare_numbers() {
    let mut switch = Switch::new();
    switch.add_port(PORT1, PortMode::access(10).unwrap());
    switch.forward(PORT1, &frame(BROADCAST, HOST_A), 0).unwrap();

    let json = render_counters_json(&switch);
    assert!(json.contains(r#""frames_in":"1""#));
    assert!(!json.contains(r#""frames_in":1"#));
    assert!(json.contains(r#""drops":"0""#));
}

#[test]
fn renders_a_trunk_ports_mode_with_sorted_allowed_vlans() {
    let mut switch = Switch::new();
    switch.add_port(PORT1, PortMode::trunk(Some(10), vec![30, 20]).unwrap());

    let json = render_counters_json(&switch);
    assert!(json.contains(r#""mode":{"kind":"trunk","native":10,"allowed":[20,30]}"#));
}

#[test]
fn renders_an_untagged_only_trunks_null_native() {
    let mut switch = Switch::new();
    switch.add_port(PORT1, PortMode::trunk(None, vec![20]).unwrap());

    let json = render_counters_json(&switch);
    assert!(json.contains(r#""mode":{"kind":"trunk","native":null,"allowed":[20]}"#));
}

#[test]
fn renders_a_blocked_ports_status() {
    let mut switch = Switch::new();
    switch.add_port(PORT1, PortMode::access(10).unwrap());
    switch.block_port(PORT1);

    assert!(render_counters_json(&switch).contains(r#""port":1,"blocked":true"#));
}

#[test]
fn ports_and_vlans_are_sorted_by_id() {
    let mut switch = Switch::new();
    switch.add_port(PortId(3), PortMode::access(30).unwrap());
    switch.add_port(PortId(1), PortMode::access(10).unwrap());

    let json = render_counters_json(&switch);
    let port1 = json.find(r#""port":1"#).unwrap();
    let port3 = json.find(r#""port":3"#).unwrap();
    assert!(port1 < port3, "port 1 should be listed before port 3");
    let vlan10 = json.find(r#""vlan":10"#).unwrap();
    let vlan30 = json.find(r#""vlan":30"#).unwrap();
    assert!(vlan10 < vlan30, "vlan 10 should be listed before vlan 30");
}

#[test]
fn renders_the_whole_document_exactly() {
    let mut switch = Switch::new();
    switch.add_port(PortId(2), PortMode::access(30).unwrap());
    switch.add_port(PortId(1), PortMode::access(30).unwrap());
    switch.add_port(PortId(4), PortMode::access(7).unwrap());
    switch.forward(PortId(4), &frame(BROADCAST, HOST_A), 0).unwrap();
    switch.forward(PortId(1), &frame(BROADCAST, HOST_A), 0).unwrap();
    assert_eq!(
        render_counters_json(&switch),
        [
            r#"{"ports":["#,
            r#"{"port":1,"blocked":false,"mode":{"kind":"access","vlan":30},"frames_in":"1","bytes_in":"60","frames_out":"0","bytes_out":"0","drops":"0"},"#,
            r#"{"port":2,"blocked":false,"mode":{"kind":"access","vlan":30},"frames_in":"0","bytes_in":"0","frames_out":"1","bytes_out":"60","drops":"0"},"#,
            r#"{"port":4,"blocked":false,"mode":{"kind":"access","vlan":7},"frames_in":"1","bytes_in":"60","frames_out":"0","bytes_out":"0","drops":"0"}"#,
            r#"],"vlans":["#,
            r#"{"vlan":7,"frames_in":"1","bytes_in":"60","frames_out":"0","bytes_out":"0"},"#,
            r#"{"vlan":30,"frames_in":"1","bytes_in":"60","frames_out":"1","bytes_out":"60"}"#,
            r#"]}"#,
        ]
        .join("")
    );
}

#[test]
fn frame_events_parse_then_forward() {
    let mut switch = Switch::new();
    switch.add_port(PORT1, PortMode::access(10).unwrap());
    switch.add_port(PORT2, PortMode::access(10).unwrap());
    let mut wire = Vec::new();
    frame(BROADCAST, HOST_A).write_into(&mut wire).unwrap();
    let ds = handle_frame_event(&mut switch, PORT1, &wire, 0).unwrap();
    assert_eq!(ds.len(), 1);
    assert_eq!(ds[0].port, PORT2);
    assert_eq!(ds[0].bytes, wire);
    assert_eq!(
        handle_frame_event(&mut switch, PORT1, &wire[..5], 0),
        Err(FrameEventError::Malformed(ParseError::TooShort { len: 5 }))
    );
    assert!(matches!(
        handle_frame_event(&mut switch, PortId(9), &wire, 0),
        Err(FrameEventError::Rejected(_))
    ));
}
