use vstd::prelude::*;
use vstd::string::StringExecFns;

use super::port::{PortId, Vlan};
use crate::text::{decimal, push_decimal};

verus! {

/// Why `Switch::forward` refused a frame.
#[derive(Debug, Clone, Copy, PartialEq, Eq)]
pub enum SwitchError {
    /// `forward` was called with a port never registered via `add_port`.
    UnknownPort(PortId),
    /// A trunk port received a tagged frame for a VLAN not in its allowed
    /// set and not its native VLAN.
    VlanNotAllowedOnTrunk { port: PortId, vlan: Vlan },
    /// A trunk port received an untagged frame but has no native VLAN
    /// configured to associate it with.
    UntaggedFrameOnTrunkWithoutNative { port: PortId },
    /// An access port received a tagged frame: access ports are
    /// untagged-only by definition, so this is a protocol violation.
    TaggedFrameOnAccessPort { port: PortId },
    /// The port was shut down by the loop guard; it forwards nothing in or
    /// out until it is re-added.
    PortBlocked(PortId),
}

/// How a port id reads in messages: `PortId(<n>)`.
pub open spec fn port_text(p: PortId) -> Seq<char> {
    "PortId("@ + decimal(p.0 as nat) + ")"@
}

/// The human-readable text of a switch error.
pub open spec fn switch_error_text(e: SwitchError) -> Seq<char> {
    match e {
        SwitchError::UnknownPort(port) => "unknown port: "@ + port_text(port),
        SwitchError::VlanNotAllowedOnTrunk { port, vlan } => port_text(port) + ": VLAN "@ + decimal(
            vlan as nat,
        ) + " not allowed on this trunk"@,
        SwitchError::UntaggedFrameOnTrunkWithoutNative { port } => port_text(port)
            + ": untagged frame on a trunk with no native VLAN"@,
        SwitchError::TaggedFrameOnAccessPort { port } => port_text(port)
            + ": tagged frame on an access port"@,
        SwitchError::PortBlocked(port) => port_text(port) + ": port blocked by the loop guard"@,
    }
}

fn push_port_text(out: &mut String, p: PortId)
    ensures
        final(out)@ == old(out)@ + port_text(p),
{
    out.append("PortId(");
    push_decimal(out, p.0 as u64);
    out.append(")");
    assert(final(out)@ =~= old(out)@ + port_text(p));
}

impl SwitchError {
    /// The human-readable text of this error.
    pub fn message(&self) -> (text: String)
        ensures
            text@ == switch_error_text(*self),
    {
        let mut out = String::new();
        match self {
            SwitchError::UnknownPort(port) => {
                out.append("unknown port: ");
                push_port_text(&mut out, *port);
            },
            SwitchError::VlanNotAllowedOnTrunk { port, vlan } => {
                push_port_text(&mut out, *port);
                out.append(": VLAN ");
                push_decimal(&mut out, *vlan as u64);
                out.append(" not allowed on this trunk");
            },
            SwitchError::UntaggedFrameOnTrunkWithoutNative { port } => {
                push_port_text(&mut out, *port);
                out.append(": untagged frame on a trunk with no native VLAN");
            },
            SwitchError::TaggedFrameOnAccessPort { port } => {
                push_port_text(&mut out, *port);
                out.append(": tagged frame on an access port");
            },
            SwitchError::PortBlocked(port) => {
                push_port_text(&mut out, *port);
                out.append(": port blocked by the loop guard");
            },
        }
        assert(out@ =~= switch_error_text(*self));
        out
    }
}

} // verus!
