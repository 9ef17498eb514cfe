mod dot1q;
mod error;
mod ethernet;

pub use dot1q::{lemma_tag_tci_roundtrip, lemma_tci_tag_roundtrip, Dot1qTag};
pub use error::{ParseError, WriteError};
pub use ethernet::{
    append_bytes, be16, be16_bytes, lemma_parse_wire_bytes, lemma_wire_bytes_of_parse, parse_spec,
    EthernetFrame, FrameModel, TAGGED_HEADER_LEN, TPID_802_1Q, UNTAGGED_HEADER_LEN,
};
