use vlan_rs::switch::{InvalidVlan, PortMode, PortModeError};

#[test]
fn access_accepts_the_assignable_range() {
    assert_eq!(PortMode::access(1), Ok(PortMode::Access { vlan: 1 }));
    assert_eq!(PortMode::access(4094), Ok(PortMode::Access { vlan: 4094 }));
}

#[test]
fn access_rejects_reserved_and_out_of_range_vids() {
    assert_eq!(PortMode::access(0), Err(InvalidVlan(0)));
    assert_eq!(PortMode::access(4095), Err(InvalidVlan(4095)));
    assert_eq!(PortMode::access(4096), Err(InvalidVlan(4096)));
}

#[test]
fn trunk_accepts_the_assignable_range() {
    assert!(PortMode::trunk(Some(1), vec![4094]).is_ok());
    assert!(PortMode::trunk(Some(4094), vec![1]).is_ok());
}

#[test]
fn trunk_rejects_reserved_and_out_of_range_vids() {
    assert_eq!(
        PortMode::trunk(Some(0), vec![10]),
        Err(PortModeError::InvalidVlan(0))
    );
    assert_eq!(
        PortMode::trunk(Some(4095), vec![10]),
        Err(PortModeError::InvalidVlan(4095))
    );
    assert_eq!(
        PortMode::trunk(Some(4096), vec![10]),
        Err(PortModeError::InvalidVlan(4096))
    );
    assert_eq!(
        PortMode::trunk(None, vec![4096]),
        Err(PortModeError::InvalidVlan(4096))
    );
    assert_eq!(
        PortMode::trunk(None, vec![0]),
        Err(PortModeError::InvalidVlan(0))
    );
    assert_eq!(
        PortMode::trunk(None, vec![4095]),
        Err(PortModeError::InvalidVlan(4095))
    );
}

#[test]
fn trunk_rejects_an_empty_trunk() {
    assert_eq!(PortMode::trunk(None, vec![]), Err(PortModeError::EmptyTrunk));
    assert!(PortMode::trunk(Some(10), vec![]).is_ok());
}

#[test]
fn trunk_reports_the_first_bad_allowed_vlan() {
    assert_eq!(
        PortMode::trunk(Some(5), vec![10, 0, 4095]),
        Err(PortModeError::InvalidVlan(0))
    );
}

#[test]
fn trunk_allowed_vlans_are_a_set() {
    let a = PortMode::trunk(Some(10), vec![30, 20, 30]).unwrap();
    let b = PortMode::trunk(Some(10), vec![20, 30]).unwrap();
    assert_eq!(a, b);
    match &a {
        PortMode::Trunk { allowed, .. } => {
            assert_eq!(allowed.len(), 2);
            assert_eq!(allowed.get(0), 20);
            assert_eq!(allowed.get(1), 30);
            assert!(allowed.contains(30));
            assert!(!allowed.contains(10));
        }
        PortMode::Access { .. } => panic!("expected a trunk"),
    }
    assert!(a.carries(10));
    assert!(a.carries(20));
    assert!(!a.carries(40));
}
