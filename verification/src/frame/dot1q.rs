use vstd::prelude::*;

verus! {

/// An 802.1Q tag: the TPID is implied (it is what tells the parser a tag is
/// present at all), so only the TCI fields live here.
#[derive(Debug, Clone, Copy, PartialEq, Eq)]
pub struct Dot1qTag {
    /// Priority code point, 3 bits (0..=7).
    pub pcp: u8,
    /// Drop eligible indicator, 1 bit.
    pub dei: bool,
    /// VLAN identifier, 12 bits. 0 means "priority-tagged, no VLAN"; 4095 is reserved.
    pub vid: u16,
}

impl Dot1qTag {
    /// The tag that a 16-bit TCI decodes to: PCP is the top 3 bits, DEI the
    /// next bit, VID the low 12 bits.
    pub open spec fn spec_from_tci(tci: u16) -> Dot1qTag {
        Dot1qTag { pcp: (tci / 8192) as u8, dei: (tci / 4096) % 2 == 1, vid: (tci % 4096) as u16 }
    }

    /// The TCI this tag encodes to. Out-of-range fields are masked to their
    /// wire width (PCP to 3 bits, VID to 12 bits) rather than rejected.
    pub open spec fn spec_tci(self) -> u16 {
        ((self.pcp % 8) as int * 8192 + (if self.dei { 4096int } else { 0int }) + (self.vid
            % 4096) as int) as u16
    }

    /// Every field already fits its wire width, so encoding loses nothing.
    pub open spec fn fits_wire(self) -> bool {
        self.pcp < 8 && self.vid < 4096
    }

    pub fn from_tci(tci: u16) -> (tag: Dot1qTag)
        ensures
            tag == Self::spec_from_tci(tci),
            tag.fits_wire(),
    {
        Dot1qTag { pcp: (tci / 8192) as u8, dei: (tci / 4096) % 2 == 1, vid: tci % 4096 }
    }

    pub fn to_tci(self) -> (tci: u16)
        ensures
            tci == self.spec_tci(),
    {
        let dei_bits: u16 = if self.dei {
            4096
        } else {
            0
        };
        ((self.pcp % 8) as u16) * 8192 + dei_bits + self.vid % 4096
    }
}

/// Decoding a TCI and encoding the resulting tag gives back the same TCI.
pub proof fn lemma_tci_tag_roundtrip(tci: u16)
    ensures
        Dot1qTag::spec_from_tci(tci).spec_tci() == tci,
{
}

/// Encoding a tag whose fields fit their wire widths and decoding the TCI
/// gives back the same tag.
pub proof fn lemma_tag_tci_roundtrip(tag: Dot1qTag)
    requires
        tag.fits_wire(),
    ensures
        Dot1qTag::spec_from_tci(tag.spec_tci()) == tag,
{
}

} // verus!
