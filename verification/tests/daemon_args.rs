use vlan_rs::daemon::{
    parse_port_specs, plan_ports, take_dashboard_addr, MissingDashboardAddress, SpecError, TooManyPorts,
};
use vlan_rs::switch::{PortId, PortMode, PortModeError};

fn args(strs: &[&str]) -> Vec<String> {
    strs.iter().map(|s| (*s).to_owned()).collect()
}

#[test]
fn parses_zero_or_more_access_specs() {
    assert_eq!(parse_port_specs(args(&[])).unwrap(), vec![]);
    assert_eq!(
        parse_port_specs(args(&["tap0:10", "tap1:10", "tap2:20"])).unwrap(),
        vec![
            ("tap0".to_owned(), PortMode::access(10).unwrap()),
            ("tap1".to_owned(), PortMode::access(10).unwrap()),
            ("tap2".to_owned(), PortMode::access(20).unwrap()),
        ]
    );
}

#[test]
fn parses_a_trunk_spec_with_native_and_allowed() {
    assert_eq!(
        parse_port_specs(args(&["tap0:trunk:10:10,20,30"])).unwrap(),
        vec![(
            "tap0".to_owned(),
            PortMode::trunk(Some(10), vec![10, 20, 30]).unwrap()
        )]
    );
}

#[test]
fn parses_a_trunk_spec_with_no_native() {
    assert_eq!(
        parse_port_specs(args(&["tap0:trunk:-:10,20"])).unwrap(),
        vec![("tap0".to_owned(), PortMode::trunk(None, vec![10, 20]).unwrap())]
    );
}

#[test]
fn parses_an_untagged_only_trunk() {
    assert_eq!(
        parse_port_specs(args(&["tap0:trunk:10:"])).unwrap(),
        vec![("tap0".to_owned(), PortMode::trunk(Some(10), vec![]).unwrap())]
    );
}

#[test]
fn daemon_args_rejects_a_trunk_with_neither_native_nor_allowed() {
    assert!(parse_port_specs(args(&["tap0:trunk:-:"])).is_err());
}

#[test]
fn rejects_an_empty_field_in_the_allowed_list() {
    // a stray or trailing comma is a likely typo, not an empty list
    assert!(parse_port_specs(args(&["tap0:trunk:-:10,,20"])).is_err());
    assert!(parse_port_specs(args(&["tap0:trunk:-:10,20,"])).is_err());
}

#[test]
fn rejects_a_spec_with_no_colon() {
    assert!(parse_port_specs(args(&["tap0"])).is_err());
}

#[test]
fn rejects_a_non_numeric_vlan_id() {
    assert!(parse_port_specs(args(&["tap0:ten"])).is_err());
}

#[test]
fn rejects_an_out_of_range_vlan_id() {
    assert!(parse_port_specs(args(&["tap0:0"])).is_err());
    assert!(parse_port_specs(args(&["tap0:4095"])).is_err());
    assert!(parse_port_specs(args(&["tap0:4096"])).is_err());
    assert!(parse_port_specs(args(&["tap0:trunk:0:10"])).is_err());
    assert!(parse_port_specs(args(&["tap0:trunk:-:0,10"])).is_err());
    assert!(parse_port_specs(args(&["tap0:trunk:4096:10"])).is_err());
    assert!(parse_port_specs(args(&["tap0:trunk:-:4096"])).is_err());
}

#[test]
fn accepts_assignable_vlan_id_bounds() {
    assert_eq!(
        parse_port_specs(args(&["tap0:1", "tap1:4094"])).unwrap(),
        vec![
            ("tap0".to_owned(), PortMode::access(1).unwrap()),
            ("tap1".to_owned(), PortMode::access(4094).unwrap()),
        ]
    );
}

#[test]
fn rejects_a_duplicate_tap_name() {
    // even across different VLANs
    assert!(parse_port_specs(args(&["tap0:10", "tap0:20"])).is_err());
}

#[test]
fn reports_which_argument_is_wrong_and_why() {
    assert_eq!(
        parse_port_specs(args(&["tap0:10", "tap1"])),
        Err(SpecError::MissingColon { index: 1 })
    );
    assert_eq!(
        parse_port_specs(args(&["tap0:10", "tap1:70000"])),
        Err(SpecError::BadVlanId { index: 1 })
    );
    assert_eq!(
        parse_port_specs(args(&["tap0:trunk:10"])),
        Err(SpecError::MissingAllowedList { index: 0 })
    );
    assert_eq!(
        parse_port_specs(args(&["tap0:trunk:-:"])),
        Err(SpecError::InvalidMode { index: 0, source: PortModeError::EmptyTrunk })
    );
    assert_eq!(
        parse_port_specs(args(&["tap0:10", "tap0:20"])),
        Err(SpecError::DuplicateName { index: 1 })
    );
}

#[test]
fn vlan_ids_read_like_u16_from_str() {
    assert_eq!(
        parse_port_specs(args(&["tap0:+10", "tap1:0010"])).unwrap(),
        vec![
            ("tap0".to_owned(), PortMode::access(10).unwrap()),
            ("tap1".to_owned(), PortMode::access(10).unwrap()),
        ]
    );
    assert!(parse_port_specs(args(&["tap0:+"])).is_err());
    assert!(parse_port_specs(args(&["tap0:-10"])).is_err());
    assert!(parse_port_specs(args(&["tap0:"])).is_err());
    assert!(parse_port_specs(args(&["tap0: 10"])).is_err());
}

#[test]
fn the_tap_name_ends_at_the_first_colon() {
    assert_eq!(
        parse_port_specs(args(&["tap0:trunk:20:30"])).unwrap(),
        vec![("tap0".to_owned(), PortMode::trunk(Some(20), vec![30]).unwrap())]
    );
}

#[test]
fn takes_the_dashboard_address_from_anywhere() {
    let mut a = args(&["tap0:10", "--dashboard", "127.0.0.1:8080", "tap1:20"]);
    assert_eq!(take_dashboard_addr(&mut a), Ok(Some("127.0.0.1:8080".to_owned())));
    assert_eq!(a, args(&["tap0:10", "tap1:20"]));

    let mut a = args(&["--dashboard", "[::1]:80", "--config", "x.toml"]);
    assert_eq!(take_dashboard_addr(&mut a), Ok(Some("[::1]:80".to_owned())));
    assert_eq!(a, args(&["--config", "x.toml"]));
}

#[test]
fn without_dashboard_the_args_are_untouched() {
    let mut a = args(&["tap0:10", "--dashboards", "x"]);
    assert_eq!(take_dashboard_addr(&mut a), Ok(None));
    assert_eq!(a, args(&["tap0:10", "--dashboards", "x"]));
}

#[test]
fn dashboard_without_an_address_is_refused() {
    let mut a = args(&["tap0:10", "--dashboard"]);
    assert_eq!(take_dashboard_addr(&mut a), Err(MissingDashboardAddress));
    assert_eq!(a, args(&["tap0:10", "--dashboard"]));
}

#[test]
fn only_the_first_dashboard_flag_is_taken() {
    let mut a = args(&["--dashboard", "a", "--dashboard", "b"]);
    assert_eq!(take_dashboard_addr(&mut a), Ok(Some("a".to_owned())));
    assert_eq!(a, args(&["--dashboard", "b"]));
}

fn open_ports(list: &[(&str, u32)]) -> Vec<(String, PortId)> {
    list.iter().map(|(n, id)| ((*n).to_owned(), PortId(*id))).collect()
}

#[test]
fn a_first_topology_opens_every_port_under_fresh_ids() {
    let specs = parse_port_specs(args(&["tap0:10", "tap1:trunk:-:10,20"])).unwrap();
    let plan = plan_ports(&vec![], &specs, 0).unwrap();
    assert_eq!(plan.remove, vec![]);
    assert_eq!(
        plan.ports,
        vec![
            ("tap0".to_owned(), PortId(0), PortMode::access(10).unwrap(), true),
            ("tap1".to_owned(), PortId(1), PortMode::trunk(None, vec![10, 20]).unwrap(), true),
        ]
    );
    assert_eq!(plan.next, 2);
}

#[test]
fn a_reload_keeps_ids_removes_the_gone_and_opens_the_new() {
    let open = open_ports(&[("tap0", 0), ("tap1", 1), ("tap2", 2)]);
    let specs = parse_port_specs(args(&["tap3:30", "tap2:20", "tap4:40", "tap0:11"])).unwrap();
    let plan = plan_ports(&open, &specs, 3).unwrap();
    assert_eq!(plan.remove, open_ports(&[("tap1", 1)]));
    assert_eq!(
        plan.ports,
        vec![
            ("tap3".to_owned(), PortId(3), PortMode::access(30).unwrap(), true),
            ("tap2".to_owned(), PortId(2), PortMode::access(20).unwrap(), false),
            ("tap4".to_owned(), PortId(4), PortMode::access(40).unwrap(), true),
            ("tap0".to_owned(), PortId(0), PortMode::access(11).unwrap(), false),
        ]
    );
    assert_eq!(plan.next, 5);
}

#[test]
fn an_empty_topology_removes_every_port() {
    let open = open_ports(&[("tap0", 7), ("tap1", 3)]);
    let plan = plan_ports(&open, &vec![], 9).unwrap();
    assert_eq!(plan.remove, open);
    assert_eq!(plan.ports, vec![]);
    assert_eq!(plan.next, 9);
}

#[test]
fn port_ids_must_fit_in_32_bits() {
    let specs = parse_port_specs(args(&["tap0:10", "tap1:10"])).unwrap();
    let plan = plan_ports(&vec![], &specs, u64::from(u32::MAX) - 1).unwrap();
    assert_eq!(plan.ports[1].1, PortId(u32::MAX));
    assert_eq!(plan.next, 1 << 32);
    assert_eq!(plan_ports(&vec![], &specs, u64::from(u32::MAX)), Err(TooManyPorts));
    let open = open_ports(&[("tap0", 0), ("tap1", 1)]);
    assert!(plan_ports(&open, &specs, 1 << 32).is_ok());
}
