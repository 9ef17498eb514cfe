use vstd::prelude::*;
use vstd::slice::slice_subrange;

use super::dot1q::Dot1qTag;
use super::error::{ParseError, WriteError};

verus! {

/// The 802.1Q tag protocol identifier.
pub const TPID_802_1Q: u16 = 0x8100;

/// dst(6) + src(6) + EtherType(2).
pub const UNTAGGED_HEADER_LEN: usize = 14;

/// dst(6) + src(6) + TPID(2) + TCI(2) + EtherType(2).
pub const TAGGED_HEADER_LEN: usize = 18;

/// A parsed Ethernet II frame, optionally carrying a single 802.1Q tag.
/// QinQ (a second, outer tag) is not represented.
#[derive(Debug, PartialEq, Eq)]
pub struct EthernetFrame<'a> {
    pub dst: [u8; 6],
    pub src: [u8; 6],
    pub tag: Option<Dot1qTag>,
    pub ethertype: u16,
    pub payload: &'a [u8],
}

/// The mathematical content of a frame: its fields as plain values.
pub struct FrameModel {
    pub dst: Seq<u8>,
    pub src: Seq<u8>,
    pub tag: Option<Dot1qTag>,
    pub ethertype: u16,
    pub payload: Seq<u8>,
}

impl<'a> View for EthernetFrame<'a> {
    type V = FrameModel;

    open spec fn view(&self) -> FrameModel {
        FrameModel {
            dst: self.dst@,
            src: self.src@,
            tag: self.tag,
            ethertype: self.ethertype,
            payload: self.payload@,
        }
    }
}

/// The big-endian 16-bit value of two bytes.
pub open spec fn be16(hi: u8, lo: u8) -> u16 {
    (hi as int * 256 + lo as int) as u16
}

/// The two big-endian bytes of a 16-bit value.
pub open spec fn be16_bytes(v: u16) -> Seq<u8> {
    seq![(v / 256) as u8, (v % 256) as u8]
}

impl FrameModel {
    /// Both addresses are six bytes long and the tag, if any, fits its wire
    /// widths; every frame built from an `EthernetFrame` or by parsing has
    /// six-byte addresses.
    pub open spec fn well_formed(self) -> bool {
        &&& self.dst.len() == 6
        &&& self.src.len() == 6
        &&& (self.tag matches Some(t) ==> t.fits_wire())
    }

    /// An untagged frame may not carry the TPID as its EtherType: it would
    /// read back as a tagged one.
    pub open spec fn writable(self) -> bool {
        !(self.tag is None && self.ethertype == TPID_802_1Q)
    }

    /// The bytes on the wire for this frame.
    pub open spec fn wire_bytes(self) -> Seq<u8> {
        self.dst + self.src + (match self.tag {
            Some(t) => be16_bytes(TPID_802_1Q) + be16_bytes(t.spec_tci()),
            None => Seq::<u8>::empty(),
        }) + be16_bytes(self.ethertype) + self.payload
    }
}

/// What `EthernetFrame::parse` makes of a byte sequence.
pub open spec fn parse_spec(b: Seq<u8>) -> Result<FrameModel, ParseError> {
    if b.len() < UNTAGGED_HEADER_LEN {
        Err(ParseError::TooShort { len: b.len() as usize })
    } else if be16(b[12], b[13]) == TPID_802_1Q {
        if b.len() < TAGGED_HEADER_LEN {
            Err(ParseError::TruncatedTag { len: b.len() as usize })
        } else {
            Ok(
                FrameModel {
                    dst: b.subrange(0, 6),
                    src: b.subrange(6, 12),
                    tag: Some(Dot1qTag::spec_from_tci(be16(b[14], b[15]))),
                    ethertype: be16(b[16], b[17]),
                    payload: b.subrange(18, b.len() as int),
                },
            )
        }
    } else {
        Ok(
            FrameModel {
                dst: b.subrange(0, 6),
                src: b.subrange(6, 12),
                tag: None,
                ethertype: be16(b[12], b[13]),
                payload: b.subrange(14, b.len() as int),
            },
        )
    }
}

fn read_be16(hi: u8, lo: u8) -> (v: u16)
    ensures
        v == be16(hi, lo),
{
    (hi as u16) * 256 + (lo as u16)
}

fn push_be16(out: &mut Vec<u8>, v: u16)
    ensures
        final(out)@ == old(out)@ + be16_bytes(v),
{
    out.push((v / 256) as u8);
    out.push((v % 256) as u8);
    assert(final(out)@ =~= old(out)@ + be16_bytes(v));
}

/// Appends every byte of `bytes` to `out`.
pub fn append_bytes(out: &mut Vec<u8>, bytes: &[u8])
    ensures
        final(out)@ == old(out)@ + bytes@,
{
    let ghost start = out@;
    let n = bytes.len();
    let mut i: usize = 0;
    while i < n
        invariant
            n == bytes@.len(),
            i <= n,
            out@ == start + bytes@.subrange(0, i as int),
        decreases n - i,
    {
        out.push(bytes[i]);
        i = i + 1;
        assert(out@ =~= start + bytes@.subrange(0, i as int));
    }
    assert(bytes@.subrange(0, n as int) =~= bytes@);
}

impl<'a> EthernetFrame<'a> {
    /// Parses an Ethernet II frame, with or without a single 802.1Q tag.
    pub fn parse(bytes: &'a [u8]) -> (r: Result<Self, ParseError>)
        ensures
            match r {
                Ok(f) => parse_spec(bytes@) == Ok::<FrameModel, ParseError>(f@),
                Err(e) => parse_spec(bytes@) == Err::<FrameModel, ParseError>(e),
            },
    {
        let len = bytes.len();
        if len < UNTAGGED_HEADER_LEN {
            return Err(ParseError::TooShort { len });
        }
        let dst: [u8; 6] = [bytes[0], bytes[1], bytes[2], bytes[3], bytes[4], bytes[5]];
        let src: [u8; 6] = [bytes[6], bytes[7], bytes[8], bytes[9], bytes[10], bytes[11]];
        assert(dst@ =~= bytes@.subrange(0, 6));
        assert(src@ =~= bytes@.subrange(6, 12));
        let next = read_be16(bytes[12], bytes[13]);
        if next == TPID_802_1Q {
            if len < TAGGED_HEADER_LEN {
                return Err(ParseError::TruncatedTag { len });
            }
            let tci = read_be16(bytes[14], bytes[15]);
            let ethertype = read_be16(bytes[16], bytes[17]);
            let payload = slice_subrange(bytes, TAGGED_HEADER_LEN, len);
            Ok(EthernetFrame { dst, src, tag: Some(Dot1qTag::from_tci(tci)), ethertype, payload })
        } else {
            let payload = slice_subrange(bytes, UNTAGGED_HEADER_LEN, len);
            Ok(EthernetFrame { dst, src, tag: None, ethertype: next, payload })
        }
    }

    /// Appends this frame's wire encoding to `out`. Fails, leaving `out`
    /// untouched, only for an untagged frame whose EtherType is the 802.1Q
    /// TPID, which would read back as a tagged frame.
    pub fn write_into(&self, out: &mut Vec<u8>) -> (r: Result<(), WriteError>)
        ensures
            r is Ok <==> self@.writable(),
            r is Ok ==> final(out)@ == old(out)@ + self@.wire_bytes(),
            r matches Err(e) ==> e == WriteError::AmbiguousUntaggedEtherType && final(out)@
                == old(out)@,
    {
        if self.tag.is_none() && self.ethertype == TPID_802_1Q {
            return Err(WriteError::AmbiguousUntaggedEtherType);
        }
        let ghost start = out@;
        append_bytes(out, self.dst.as_slice());
        append_bytes(out, self.src.as_slice());
        let ghost after_addrs = out@;
        match self.tag {
            Some(tag) => {
                push_be16(out, TPID_802_1Q);
                push_be16(out, tag.to_tci());
            },
            None => {},
        }
        push_be16(out, self.ethertype);
        append_bytes(out, self.payload);
        assert(out@ =~= start + self@.wire_bytes());
        Ok(())
    }
}

/// Parsing the encoding of any well-formed, writable frame gives back that
/// frame.
pub proof fn lemma_parse_wire_bytes(m: FrameModel)
    requires
        m.well_formed(),
        m.writable(),
    ensures
        parse_spec(m.wire_bytes()) == Ok::<FrameModel, ParseError>(m),
{
    let b = m.wire_bytes();
    match m.tag {
        Some(t) => {
            assert(b[12] == 0x81 && b[13] == 0x00);
            assert(be16(b[14], b[15]) == t.spec_tci());
            super::dot1q::lemma_tag_tci_roundtrip(t);
            assert(b.subrange(0, 6) =~= m.dst);
            assert(b.subrange(6, 12) =~= m.src);
            assert(b.subrange(18, b.len() as int) =~= m.payload);
        },
        None => {
            assert(be16(b[12], b[13]) == m.ethertype);
            assert(b.subrange(0, 6) =~= m.dst);
            assert(b.subrange(6, 12) =~= m.src);
            assert(b.subrange(14, b.len() as int) =~= m.payload);
        },
    }
}

/// Every frame that parses is writable and well formed, and encoding it
/// gives back exactly the bytes it was parsed from.
pub proof fn lemma_wire_bytes_of_parse(b: Seq<u8>)
    requires
        parse_spec(b) is Ok,
    ensures
        parse_spec(b)->Ok_0.well_formed(),
        parse_spec(b)->Ok_0.writable(),
        parse_spec(b)->Ok_0.wire_bytes() == b,
{
    let m = parse_spec(b)->Ok_0;
    match m.tag {
        Some(t) => {
            super::dot1q::lemma_tci_tag_roundtrip(be16(b[14], b[15]));
            assert(m.wire_bytes() =~= b);
        },
        None => {
            assert(m.wire_bytes() =~= b);
        },
    }
}

} // verus!
