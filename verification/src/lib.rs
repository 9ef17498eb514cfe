//! An 802.1Q software switch core: Ethernet/802.1Q frame parsing and
//! building, per-VLAN MAC learning with aging, access and trunk ports,
//! loop-guard probes, per-port/per-VLAN counters, port-spec and config
//! validation, and the dashboard's JSON rendering.
pub mod config;
pub mod daemon;
pub mod dashboard;
pub mod frame;
pub mod http;
pub mod text;
pub mod switch;
