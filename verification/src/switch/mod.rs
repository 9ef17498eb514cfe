mod counters;
mod error;
mod forwarding;
mod laws;
mod loop_guard;
mod mac_table;
mod port;
mod vlan_counters;

pub use counters::{counter_add, counter_modulus, wadd, Counters};
pub use error::{port_text, switch_error_text, SwitchError};
pub use port::{
    ascending_list, lemma_ascending_list, lemma_ascending_unique, assignable, carries_spec, first_unassignable_from, is_assignable, strictly_increasing,
    trunk_spec, InvalidVlan, PortId, PortMode, PortModeError, PortModeView, Vlan, VlanSet,
    MAX_ASSIGNABLE_VLAN, MIN_ASSIGNABLE_VLAN,
};
pub use mac_table::{age_since, is_fresh, retain_entries, MacEntry, MacKey};
pub use loop_guard::{
    be64, be64_bytes, build_probe, is_any_probe, is_any_probe_spec, is_group_address,
    is_group_address_spec, is_own_probe, is_own_probe_spec, lemma_be64_roundtrip, new_probe_id,
    payload_probe_id, payload_probe_id_spec, probe_frame, PROBE_ETHERTYPE, PROBE_SRC_PREFIX,
};
pub use vlan_counters::{counters_or_zero, lists_in_order};
pub use forwarding::{
    broadcast_mac, BROADCAST, deliveries_spec, deliveries_view, egress_tag, egress_targets_spec, encode_spec,
    flood_list, forward_result_view, forward_spec, has_port_at, ingress_vlan_spec,
    lemma_consistent_after_update, lemma_lookup_port_at, lemma_update_port, lookup_port,
    macs_consistent, macs_consistent_with, port_counters_or_zero, ports_ascending, record_out,
    unblocked_ids, update_port, with_blocked, with_counters, Delivery, DeliveryView, PortView, Switch, SwitchView,
};
pub use laws::{
    law_broadcast_floods_vlan, law_flood_list_members, law_forward_counts_consistently, law_forward_isolation,
    law_forward_learns_only_source, law_known_unicast, law_learned_source_is_delivered, law_probe_recognition,
    law_carried_vlans, law_egress_encoding, law_forward_respects_membership,
    law_group_sources_are_never_learned, law_unblock_undoes_block, law_unregistered_port_is_unknown,
    law_probe_touches_no_counters, same_shape,
};
