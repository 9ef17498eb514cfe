use vstd::prelude::*;

verus! {

/// Why a byte buffer is not a parseable Ethernet II frame.
#[derive(Debug, Clone, Copy, PartialEq, Eq)]
pub enum ParseError {
    /// Fewer than 14 bytes: not enough for dst + src + EtherType/TPID.
    TooShort { len: usize },
    /// TPID was 0x8100 but fewer than 18 bytes: not enough for TCI + EtherType.
    TruncatedTag { len: usize },
}

/// Why a frame cannot be encoded.
#[derive(Debug, Clone, Copy, PartialEq, Eq)]
pub enum WriteError {
    /// `tag: None` with `ethertype: 0x8100` would be indistinguishable from a
    /// tagged frame on the wire: parsing it back would misread it as tagged.
    AmbiguousUntaggedEtherType,
}

} // verus!
