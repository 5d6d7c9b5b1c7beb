//! A record header packed into one `u16`: a 4-bit type tag in bits 0..4, a
//! compressed flag in bit 4 and an 11-bit length in bits 5..16. The fields
//! fill all 16 bits, so every `u16` is a header.
use vstd::prelude::*;

verus! {

/// A type tag: a value that fits in 4 bits.
#[derive(Clone, Copy, Debug)]
pub struct Tag(u8);

/// A length: a value that fits in 11 bits.
#[derive(Clone, Copy, Debug)]
pub struct Length(u16);

impl Tag {
    #[verifier::type_invariant]
    spec fn fits(self) -> bool {
        self.0 <= 15
    }

    /// The tag's value.
    pub closed spec fn value(self) -> u8 {
        self.0
    }

    /// A tag, when `value` fits in 4 bits.
    pub fn new(value: u8) -> (r: Option<Self>)
        ensures
            r is Some <==> value <= 15,
            r matches Some(t) ==> t.value() == value,
    {
        if value <= 15 {
            Some(Tag(value))
        } else {
            None
        }
    }

    /// The tag's value, which is at most 15.
    pub fn get(self) -> (r: u8)
        ensures
            r == self.value(),
            r <= 15,
    {
        proof {
            use_type_invariant(&self);
        }
        self.0
    }
}

impl Length {
    #[verifier::type_invariant]
    spec fn fits(self) -> bool {
        self.0 <= 2047
    }

    /// The length's value.
    pub closed spec fn value(self) -> u16 {
        self.0
    }

    /// A length, when `value` fits in 11 bits.
    pub fn new(value: u16) -> (r: Option<Self>)
        ensures
            r is Some <==> value <= 2047,
            r matches Some(l) ==> l.value() == value,
    {
        if value <= 2047 {
            Some(Length(value))
        } else {
            None
        }
    }

    /// The length's value, which is at most 2047.
    pub fn get(self) -> (r: u16)
        ensures
            r == self.value(),
            r <= 2047,
    {
        proof {
            use_type_invariant(&self);
        }
        self.0
    }
}

/// A record header.
#[derive(Clone, Copy, Debug)]
pub struct RecordHeader {
    pub type_tag: Tag,
    pub compressed: bool,
    pub length: Length,
}

/// The packed form of a header's fields: tag in bits 0..4, the flag in bit 4,
/// the length in bits 5..16.
pub open spec fn packed(tag: int, compressed: bool, length: int) -> int {
    tag + 16 * (if compressed { 1int } else { 0int }) + 32 * length
}

impl RecordHeader {
    /// The header as one `u16`.
    pub fn pack(&self) -> (r: u16)
        ensures
            r == packed(
                self.type_tag.value() as int,
                self.compressed,
                self.length.value() as int,
            ),
    {
        let tag = self.type_tag.get() as u16;
        let flag: u16 = if self.compressed {
            1
        } else {
            0
        };
        let length = self.length.get();
        assert(tag | flag << 4u16 | length << 5u16 == tag + 16 * flag + 32 * length) by (bit_vector)
            requires
                tag <= 15,
                flag <= 1,
                length <= 2047,
        ;
        tag | flag << 4u16 | length << 5u16
    }

    /// The header a `u16` stands for.
    pub fn unpack(packed_header: u16) -> (r: Self)
        ensures
            r.type_tag.value() == packed_header % 16,
            r.compressed == ((packed_header / 16) % 2 == 1),
            r.length.value() == packed_header / 32,
    {
        let tag_bits = (packed_header as u8) & 0xF;
        let flag_bits = (packed_header >> 4u16) & 1;
        let length_bits = (packed_header >> 5u16) & 0x7FF;
        assert(((packed_header as u8) & 0xF) == packed_header % 16) by (bit_vector);
        assert(((packed_header >> 4u16) & 1) == (packed_header / 16) % 2) by (bit_vector);
        assert(((packed_header >> 5u16) & 0x7FF) == packed_header / 32) by (bit_vector);
        RecordHeader {
            type_tag: Tag(tag_bits),
            compressed: flag_bits != 0,
            length: Length(length_bits),
        }
    }
}

/// Unpacking then packing gives back every `u16`: no bit is lost.
pub proof fn lemma_pack_unpack(p: u16)
    ensures
        packed((p % 16) as int, (p / 16) % 2 == 1, (p / 32) as int) == p,
{
}

/// Packing then unpacking gives back every header's fields.
pub proof fn lemma_unpack_pack(tag: int, compressed: bool, length: int)
    requires
        0 <= tag <= 15,
        0 <= length <= 2047,
    ensures
        0 <= packed(tag, compressed, length) <= u16::MAX,
        packed(tag, compressed, length) % 16 == tag,
        (packed(tag, compressed, length) / 16) % 2 == 1 <==> compressed,
        packed(tag, compressed, length) / 32 == length,
{
}

} // verus!
