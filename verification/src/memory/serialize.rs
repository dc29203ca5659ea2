//! The index file format: a fixed header, then a body that the header's checksum covers.
//!
//! The header is sixteen bytes, little-endian: magic, version, flags, checksum of the body. A file
//! with another magic, another version or another checksum is refused.
use vstd::prelude::*;
use crate::memory::codec;
use crate::memory::codec::read_u32;

verus! {

/// The magic number of an index file, "ANNX".
pub const INDEX_MAGIC: u32 = 0x414E_4E58;

/// The version of the format.
pub const INDEX_VERSION: u32 = 1;

/// Flag: the body holds build metadata.
pub const FLAG_HAS_METADATA: u32 = 0x1;

/// Flag: the body holds a layered navigation.
pub const FLAG_HAS_LAYERED_NAV: u32 = 0x2;

/// The size of the header in bytes.
pub const HEADER_SIZE: usize = 16;

/// Why bytes cannot be read.
#[derive(Debug, Clone, Copy, PartialEq, Eq, Structural)]
pub enum IoFailure {
    /// "header too short"
    HeaderTooShort,
    /// "file too short for VamanaGraph header"
    FileTooShort,
    /// "body too short for metadata trailer header"
    MetadataHeaderTruncated,
    /// "body too short for metadata trailer"
    MetadataTruncated,
    /// "body too short for layered nav trailer header"
    LayeredNavHeaderTruncated,
    /// "body too short for layered nav trailer"
    LayeredNavTruncated,
    /// "HybridBlockedCsr body too short"
    CsrTooShort,
    /// "main_block truncated"
    MainBlockTruncated,
    /// "overflow entry header truncated"
    OverflowHeaderTruncated,
    /// "overflow entry data truncated"
    OverflowDataTruncated,
    /// The node counts of the index and of its graph differ.
    NodeCountMismatch {
        /// What the index says.
        header: usize,
        /// What the graph holds.
        storage: usize,
    },
}

/// Why an index cannot be loaded.
#[derive(Debug, Clone, Copy, PartialEq, Eq, Structural)]
pub enum SerializeError {
    /// Not an index file.
    MagicMismatch {
        /// The magic number of an index file.
        expected: u32,
        /// The number found.
        actual: u32,
    },
    /// A file of another version: the index has to be built again.
    VersionMismatch {
        /// The version found.
        file_version: u32,
        /// The version that can be read.
        supported_version: u32,
    },
    /// The body is not the one that was written.
    CrcMismatch {
        /// The checksum in the header.
        expected: u32,
        /// The checksum of the body.
        actual: u32,
    },
    /// The bytes end early or do not fit together.
    Io(IoFailure),
}

/// The header of an index file.
#[derive(Debug, Clone, Copy)]
pub struct IndexHeader {
    /// The magic number.
    pub magic: u32,
    /// The version of the format.
    pub version: u32,
    /// What the body holds besides the graph.
    pub flags: u32,
    /// The checksum of the body.
    pub crc32: u32,
}

impl IndexHeader {
    /// The sixteen bytes of the header.
    pub open spec fn bytes(self) -> Seq<u8> {
        codec::le32(self.magic) + codec::le32(self.version) + codec::le32(self.flags) + codec::le32(self.crc32)
    }

    /// The header that the first sixteen bytes spell.
    pub open spec fn parsed(s: Seq<u8>) -> IndexHeader {
        IndexHeader {
            magic: codec::get32(s, 0) as u32,
            version: codec::get32(s, 4) as u32,
            flags: codec::get32(s, 8) as u32,
            crc32: codec::get32(s, 12) as u32,
        }
    }

    /// What `validate` says of the header.
    pub open spec fn verdict(self) -> Result<(), SerializeError> {
        if self.magic != INDEX_MAGIC {
            Err(SerializeError::MagicMismatch { expected: INDEX_MAGIC, actual: self.magic })
        } else if self.version != INDEX_VERSION {
            Err(
                SerializeError::VersionMismatch {
                    file_version: self.version,
                    supported_version: INDEX_VERSION,
                },
            )
        } else {
            Ok(())
        }
    }

    /// A header of the current version, without flags.
    pub fn new(crc32: u32) -> (h: Self)
        ensures
            h == (IndexHeader { magic: INDEX_MAGIC, version: INDEX_VERSION, flags: 0, crc32 }),
    {
        IndexHeader { magic: INDEX_MAGIC, version: INDEX_VERSION, flags: 0, crc32 }
    }

    /// The header as bytes.
    pub fn to_bytes(&self) -> (buf: [u8; HEADER_SIZE])
        ensures
            buf@ == self.bytes(),
    {
        let buf = [
            (self.magic % 256) as u8,
            ((self.magic / 0x100) % 256) as u8,
            ((self.magic / 0x1_0000) % 256) as u8,
            (self.magic / 0x100_0000) as u8,
            (self.version % 256) as u8,
            ((self.version / 0x100) % 256) as u8,
            ((self.version / 0x1_0000) % 256) as u8,
            (self.version / 0x100_0000) as u8,
            (self.flags % 256) as u8,
            ((self.flags / 0x100) % 256) as u8,
            ((self.flags / 0x1_0000) % 256) as u8,
            (self.flags / 0x100_0000) as u8,
            (self.crc32 % 256) as u8,
            ((self.crc32 / 0x100) % 256) as u8,
            ((self.crc32 / 0x1_0000) % 256) as u8,
            (self.crc32 / 0x100_0000) as u8,
        ];
        assert(buf@ =~= self.bytes());
        buf
    }

    /// The header that the first bytes spell. Fewer than sixteen bytes are refused.
    pub fn from_bytes(buf: &[u8]) -> (r: Result<Self, SerializeError>)
        ensures
            r == (if buf@.len() < HEADER_SIZE {
                Err::<Self, SerializeError>(SerializeError::Io(IoFailure::HeaderTooShort))
            } else {
                Ok(IndexHeader::parsed(buf@))
            }),
    {
        if buf.len() < HEADER_SIZE {
            return Err(SerializeError::Io(IoFailure::HeaderTooShort));
        }
        Ok(
            IndexHeader {
                magic: read_u32(buf, 0),
                version: read_u32(buf, 4),
                flags: read_u32(buf, 8),
                crc32: read_u32(buf, 12),
            },
        )
    }

    /// Refuses a header with another magic number, then one of another version.
    pub fn validate(&self) -> (r: Result<(), SerializeError>)
        ensures
            r == self.verdict(),
    {
        if self.magic != INDEX_MAGIC {
            return Err(
                SerializeError::MagicMismatch { expected: INDEX_MAGIC, actual: self.magic },
            );
        }
        if self.version != INDEX_VERSION {
            return Err(
                SerializeError::VersionMismatch {
                    file_version: self.version,
                    supported_version: INDEX_VERSION,
                },
            );
        }
        Ok(())
    }
}

/// Reading the bytes of a header, whatever follows them, gives the header back.
pub proof fn law_header_round_trip(h: IndexHeader, rest: Seq<u8>)
    ensures
        h.bytes().len() == HEADER_SIZE,
        IndexHeader::parsed(h.bytes() + rest) == h,
{
    let s = h.bytes() + rest;
    assert(s.subrange(0, 4) =~= codec::le32(h.magic));
    assert(s.subrange(4, 8) =~= codec::le32(h.version));
    assert(s.subrange(8, 12) =~= codec::le32(h.flags));
    assert(s.subrange(12, 16) =~= codec::le32(h.crc32));
    codec::lemma_get32_at(s, 0, h.magic);
    codec::lemma_get32_at(s, 4, h.version);
    codec::lemma_get32_at(s, 8, h.flags);
    codec::lemma_get32_at(s, 12, h.crc32);
}

/// What can be written as bytes and read back.
pub trait Serializable: Sized {
    /// Whether the value is one that the library's functions make.
    spec fn valid(&self) -> bool;

    /// The bytes of the value.
    spec fn encoding(&self) -> Seq<u8>;

    /// The bytes, where they can be read at all, describe a value of this type.
    spec fn loadable(bytes: Seq<u8>) -> bool;

    /// What reading the bytes comes to.
    spec fn decodes(bytes: Seq<u8>, result: Result<Self, SerializeError>) -> bool;

    /// The value as bytes.
    fn serialize(&self) -> (bytes: Vec<u8>)
        requires
            self.valid(),
        ensures
            bytes@ == self.encoding(),
    ;

    /// The value that the bytes spell.
    fn deserialize(bytes: &[u8]) -> (result: Result<Self, SerializeError>)
        requires
            Self::loadable(bytes@),
        ensures
            Self::decodes(bytes@, result),
    ;
}

/// The register of the checksum after one more bit: it is shifted, and where the bit that falls out
/// is set, the polynomial is added.
pub open spec fn crc_bit(register: u32) -> u32 {
    if register & 1 == 1 {
        (register >> 1) ^ 0xEDB8_8320
    } else {
        register >> 1
    }
}

/// The register after `k` more bits.
pub open spec fn crc_bits(register: u32, k: nat) -> u32
    decreases k,
{
    if k == 0 {
        register
    } else {
        crc_bit(crc_bits(register, (k - 1) as nat))
    }
}

/// The register after all bytes, each added to its lowest eight bits; it starts with all bits set.
pub open spec fn crc_register(data: Seq<u8>) -> u32
    decreases data.len(),
{
    if data.len() == 0 {
        0xFFFF_FFFF
    } else {
        crc_bits(crc_register(data.drop_last()) ^ (data.last() as u32), 8)
    }
}

/// The CRC-32 checksum of bytes: the register with every bit turned over.
pub open spec fn crc32_of(data: Seq<u8>) -> u32 {
    crc_register(data) ^ 0xFFFF_FFFF
}

/// The CRC-32 checksum, as `crc32fast::Hasher` computes it from a fresh state over the whole of
/// `data`. Claimed: it is the checksum of the polynomial that gzip and zip use, least significant
/// bits first.
#[verifier::external_body]
pub fn crc32(data: &[u8]) -> (c: u32)
    ensures
        c == crc32_of(data@),
{
    let mut h = crc32fast::Hasher::new();
    h.update(data);
    h.finalize()
}

/// Different registers stay different.
proof fn lemma_crc_bits_differ(a: u32, b: u32, k: nat)
    requires
        a != b,
    ensures
        crc_bits(a, k) != crc_bits(b, k),
    decreases k,
{
    if k > 0 {
        lemma_crc_bits_differ(a, b, (k - 1) as nat);
        let x = crc_bits(a, (k - 1) as nat);
        let y = crc_bits(b, (k - 1) as nat);
        assert(x != y ==> (if x & 1 == 1 {
            (x >> 1) ^ 0xEDB8_8320
        } else {
            x >> 1
        }) != (if y & 1 == 1 {
            (y >> 1) ^ 0xEDB8_8320
        } else {
            y >> 1
        })) by (bit_vector);
    }
}

proof fn lemma_crc_register_differs(data: Seq<u8>, i: int, b: u8)
    requires
        0 <= i < data.len(),
        b != data[i],
    ensures
        crc_register(data.update(i, b)) != crc_register(data),
    decreases data.len(),
{
    let other = data.update(i, b);
    let x = crc_register(data.drop_last());
    let y = crc_register(other.drop_last());
    let p = data.last();
    let q = other.last();
    if i == data.len() - 1 {
        assert(other.drop_last() =~= data.drop_last());
        assert(p != q ==> x ^ (p as u32) != x ^ (q as u32)) by (bit_vector);
    } else {
        assert(other.drop_last() =~= data.drop_last().update(i, b));
        lemma_crc_register_differs(data.drop_last(), i, b);
        assert(x != y ==> x ^ (p as u32) != y ^ (p as u32)) by (bit_vector);
    }
    lemma_crc_bits_differ(x ^ (p as u32), y ^ (q as u32), 8);
}

/// Bytes of which one is changed have another checksum.
pub proof fn law_changed_byte_changes_checksum(data: Seq<u8>, i: int, b: u8)
    requires
        0 <= i < data.len(),
        b != data[i],
    ensures
        crc32_of(data.update(i, b)) != crc32_of(data),
{
    lemma_crc_register_differs(data, i, b);
    let x = crc_register(data);
    let y = crc_register(data.update(i, b));
    assert(x != y ==> x ^ 0xFFFF_FFFF != y ^ 0xFFFF_FFFF) by (bit_vector);
}

} // verus!
