use vlan_rs::config::{Config, ConfigError, PortConfig, PortConfigMode};
use vlan_rs::switch::{PortMode, PortModeError};

fn access(name: &str, vlan: u16) -> PortConfig {
    PortConfig { name: name.to_owned(), mode: PortConfigMode::Access { vlan } }
}

fn trunk(name: &str, native: Option<u16>, allowed: Vec<u16>) -> PortConfig {
    PortConfig { name: name.to_owned(), mode: PortConfigMode::Trunk { native, allowed } }
}

#[test]
fn parses_an_empty_config() {
    let specs = Config::from_ports(vec![]).into_specs().unwrap();
    assert_eq!(specs, vec![]);
}

#[test]
fn parses_access_and_trunk_ports() {
    // [[port]] name = "tap0", mode = "access", vlan = 10
    // [[port]] name = "tap1", mode = "trunk", native = 10, allowed = [10, 20]
    let config = Config::from_ports(vec![
        access("tap0", 10),
        trunk("tap1", Some(10), vec![10, 20]),
    ]);
    let specs = config.into_specs().unwrap();
    assert_eq!(
        specs,
        vec![
            ("tap0".to_owned(), PortMode::access(10).unwrap()),
            (
                "tap1".to_owned(),
                PortMode::trunk(Some(10), vec![10, 20]).unwrap()
            ),
        ]
    );
}

#[test]
fn trunk_native_and_allowed_are_optional() {
    let config = Config::from_ports(vec![trunk("tap0", None, vec![10, 20])]);
    let specs = config.into_specs().unwrap();
    assert_eq!(
        specs,
        vec![("tap0".to_owned(), PortMode::trunk(None, vec![10, 20]).unwrap())]
    );
}

#[test]
fn rejects_an_out_of_range_vlan() {
    let err = Config::from_ports(vec![access("tap0", 4095)])
        .into_specs()
        .unwrap_err();
    assert!(matches!(err, ConfigError::InvalidPort { .. }));
    assert_eq!(
        err,
        ConfigError::InvalidPort { name: "tap0".to_owned(), source: PortModeError::InvalidVlan(4095) }
    );
}

#[test]
fn config_rejects_a_trunk_with_neither_native_nor_allowed() {
    let err = Config::from_ports(vec![trunk("tap0", None, vec![])])
        .into_specs()
        .unwrap_err();
    assert!(matches!(err, ConfigError::InvalidPort { .. }));
    assert_eq!(
        err,
        ConfigError::InvalidPort { name: "tap0".to_owned(), source: PortModeError::EmptyTrunk }
    );
}

#[test]
fn rejects_a_duplicate_port_name() {
    let err = Config::from_ports(vec![access("tap0", 10), access("tap0", 20)])
        .into_specs()
        .unwrap_err();
    assert!(matches!(err, ConfigError::DuplicateName(name) if name == "tap0"));
}

#[test]
fn a_duplicate_name_is_reported_before_its_bad_vlan() {
    let err = Config::from_ports(vec![access("tap0", 10), access("tap0", 0)])
        .into_specs()
        .unwrap_err();
    assert_eq!(err, ConfigError::DuplicateName("tap0".to_owned()));
}
