//! Fixed 64-byte container header: magic, version, reserved compression
//! and crypt codes, section offsets and sizes, all multi-byte integers
//! little-endian.

use crate::error::IDVDError;
use vstd::prelude::*;

verus! {

/// First magic byte.
pub const MAGIC0: u8 = 0x49;

/// Second magic byte.
pub const MAGIC1: u8 = 0x44;

/// Third magic byte.
pub const MAGIC2: u8 = 0x56;

/// Fourth magic byte.
pub const MAGIC3: u8 = 0x44;

/// Reserved compression codes; only the absence of compression is
/// readable today.
#[derive(Debug, Clone, Copy, PartialEq, Eq, Structural)]
pub enum CompressionMethod {
    NoCompression,
    Zstd,
}

/// Reserved encryption codes; only the absence of encryption is
/// readable today.
#[derive(Debug, Clone, Copy, PartialEq, Eq, Structural)]
pub enum CryptMethod {
    NoCrypt,
    Aes256,
}

/// The container header, one per drive, stored in the first 64 bytes.
pub struct Header {
    /// Magic number identifying the drive format.
    pub magic: [u8; 4],
    /// Version of the drive format; must be 1 to load.
    pub version: u32,
    /// Compression code; must be 0 (none) to load.
    pub compression: u16,
    /// Encryption code; must be 0 (none) to load.
    pub crypt_method: u16,
    /// Number of snapshots (reserved).
    pub nb_snapshots: u32,
    /// Total size of the drive in bytes.
    pub total_size: u64,
    /// Offset of the metadata section in bytes.
    pub meta_offset: u64,
    /// Offset of the snapshot section in bytes (reserved).
    pub snapshot_offset: u64,
    /// Offset of the index section in bytes (reserved).
    pub index_offset: u64,
    /// Offset of the free-block-map section in bytes.
    pub free_block_manager_offset: u64,
    /// Block size in bytes.
    pub block_size: u32,
    /// Number of entries in the drive.
    pub entry_count: u32,
}

/// The 16-bit little-endian integer at offset `off`.
pub open spec fn le16_at(b: Seq<u8>, off: int) -> u16 {
    (b[off] as u16) | ((b[off + 1] as u16) << 8)
}

/// The 32-bit little-endian integer at offset `off`.
pub open spec fn le32_at(b: Seq<u8>, off: int) -> u32 {
    (b[off] as u32) | ((b[off + 1] as u32) << 8) | ((b[off + 2] as u32) << 16) | ((b[off
        + 3] as u32) << 24)
}

/// The 64-bit little-endian integer at offset `off`.
pub open spec fn le64_at(b: Seq<u8>, off: int) -> u64 {
    (b[off] as u64) | ((b[off + 1] as u64) << 8) | ((b[off + 2] as u64) << 16) | ((b[off
        + 3] as u64) << 24) | ((b[off + 4] as u64) << 32) | ((b[off + 5] as u64) << 40)
        | ((b[off + 6] as u64) << 48) | ((b[off + 7] as u64) << 56)
}

/// True when the first four bytes carry the magic number.
pub open spec fn magic_ok(b: Seq<u8>) -> bool {
    b[0] == MAGIC0 && b[1] == MAGIC1 && b[2] == MAGIC2 && b[3] == MAGIC3
}

fn push_u16_le(v: &mut Vec<u8>, x: u16)
    ensures
        final(v)@.len() == old(v)@.len() + 2,
        forall|i: int| 0 <= i < old(v)@.len() ==> final(v)@[i] == old(v)@[i],
        le16_at(final(v)@, old(v)@.len() as int) == x,
{
    v.push(x as u8);
    v.push((x >> 8) as u8);
    proof {
        let b0 = (x as u8);
        let b1 = ((x >> 8) as u8);
        assert((b0 as u16) | ((b1 as u16) << 8) == x) by (bit_vector)
            requires
                b0 == (x as u8),
                b1 == ((x >> 8) as u8),
        ;
    }
}

fn push_u32_le(v: &mut Vec<u8>, x: u32)
    ensures
        final(v)@.len() == old(v)@.len() + 4,
        forall|i: int| 0 <= i < old(v)@.len() ==> final(v)@[i] == old(v)@[i],
        le32_at(final(v)@, old(v)@.len() as int) == x,
{
    v.push(x as u8);
    v.push((x >> 8) as u8);
    v.push((x >> 16) as u8);
    v.push((x >> 24) as u8);
    proof {
        let b0 = (x as u8);
        let b1 = ((x >> 8) as u8);
        let b2 = ((x >> 16) as u8);
        let b3 = ((x >> 24) as u8);
        assert((b0 as u32) | ((b1 as u32) << 8) | ((b2 as u32) << 16) | ((b3 as u32)
            << 24) == x) by (bit_vector)
            requires
                b0 == (x as u8),
                b1 == ((x >> 8) as u8),
                b2 == ((x >> 16) as u8),
                b3 == ((x >> 24) as u8),
        ;
    }
}

fn push_u64_le(v: &mut Vec<u8>, x: u64)
    ensures
        final(v)@.len() == old(v)@.len() + 8,
        forall|i: int| 0 <= i < old(v)@.len() ==> final(v)@[i] == old(v)@[i],
        le64_at(final(v)@, old(v)@.len() as int) == x,
{
    v.push(x as u8);
    v.push((x >> 8) as u8);
    v.push((x >> 16) as u8);
    v.push((x >> 24) as u8);
    v.push((x >> 32) as u8);
    v.push((x >> 40) as u8);
    v.push((x >> 48) as u8);
    v.push((x >> 56) as u8);
    proof {
        let b0 = (x as u8);
        let b1 = ((x >> 8) as u8);
        let b2 = ((x >> 16) as u8);
        let b3 = ((x >> 24) as u8);
        let b4 = ((x >> 32) as u8);
        let b5 = ((x >> 40) as u8);
        let b6 = ((x >> 48) as u8);
        let b7 = ((x >> 56) as u8);
        assert((b0 as u64) | ((b1 as u64) << 8) | ((b2 as u64) << 16) | ((b3 as u64)
            << 24) | ((b4 as u64) << 32) | ((b5 as u64) << 40) | ((b6 as u64) << 48) | ((
        b7 as u64) << 56) == x) by (bit_vector)
            requires
                b0 == (x as u8),
                b1 == ((x >> 8) as u8),
                b2 == ((x >> 16) as u8),
                b3 == ((x >> 24) as u8),
                b4 == ((x >> 32) as u8),
                b5 == ((x >> 40) as u8),
                b6 == ((x >> 48) as u8),
                b7 == ((x >> 56) as u8),
        ;
    }
}

fn read_u16_le(buf: &[u8], off: usize) -> (r: u16)
    requires
        off + 2 <= buf@.len(),
    ensures
        r == le16_at(buf@, off as int),
{
    (buf[off] as u16) | ((buf[off + 1] as u16) << 8)
}

fn read_u32_le(buf: &[u8], off: usize) -> (r: u32)
    requires
        off + 4 <= buf@.len(),
    ensures
        r == le32_at(buf@, off as int),
{
    (buf[off] as u32) | ((buf[off + 1] as u32) << 8) | ((buf[off + 2] as u32) << 16) | ((
    buf[off + 3] as u32) << 24)
}

fn read_u64_le(buf: &[u8], off: usize) -> (r: u64)
    requires
        off + 8 <= buf@.len(),
    ensures
        r == le64_at(buf@, off as int),
{
    (buf[off] as u64) | ((buf[off + 1] as u64) << 8) | ((buf[off + 2] as u64) << 16) | ((
    buf[off + 3] as u64) << 24) | ((buf[off + 4] as u64) << 32) | ((buf[off + 5] as u64)
        << 40) | ((buf[off + 6] as u64) << 48) | ((buf[off + 7] as u64) << 56)
}

impl Header {
    /// Size of the encoded header in bytes.
    pub const SIZE: usize = 64;

    /// True when the loadable constraints hold: current version, no
    /// compression, no encryption, and the magic number in place.
    pub open spec fn loadable(&self) -> bool {
        &&& self.magic@[0] == MAGIC0
        &&& self.magic@[1] == MAGIC1
        &&& self.magic@[2] == MAGIC2
        &&& self.magic@[3] == MAGIC3
        &&& self.version == 1
        &&& self.compression == 0
        &&& self.crypt_method == 0
    }

    /// A header over the given geometry, loadable by construction, with
    /// the reserved fields zero.
    pub fn new(total_size: u64, meta_offset: u64, free_block_manager_offset: u64,
        block_size: u32, entry_count: u32) -> (r: Self)
        ensures
            r.loadable(),
            r.total_size == total_size,
            r.meta_offset == meta_offset,
            r.free_block_manager_offset == free_block_manager_offset,
            r.block_size == block_size,
            r.entry_count == entry_count,
            r.nb_snapshots == 0,
            r.snapshot_offset == 0,
            r.index_offset == 0,
    {
        Header {
            magic: [MAGIC0, MAGIC1, MAGIC2, MAGIC3],
            version: 1,
            compression: 0,
            crypt_method: 0,
            nb_snapshots: 0,
            total_size,
            meta_offset,
            snapshot_offset: 0,
            index_offset: 0,
            free_block_manager_offset,
            block_size,
            entry_count,
        }
    }

    /// The 64-byte on-disk form: magic, version, compression, crypt,
    /// snapshot count, total size, the four section offsets, block size
    /// and entry count, little-endian in that order.
    pub fn encode(&self) -> (r: Vec<u8>)
        ensures
            r@.len() == 64,
            r@[0] == self.magic@[0],
            r@[1] == self.magic@[1],
            r@[2] == self.magic@[2],
            r@[3] == self.magic@[3],
            le32_at(r@, 4) == self.version,
            le16_at(r@, 8) == self.compression,
            le16_at(r@, 10) == self.crypt_method,
            le32_at(r@, 12) == self.nb_snapshots,
            le64_at(r@, 16) == self.total_size,
            le64_at(r@, 24) == self.meta_offset,
            le64_at(r@, 32) == self.snapshot_offset,
            le64_at(r@, 40) == self.index_offset,
            le64_at(r@, 48) == self.free_block_manager_offset,
            le32_at(r@, 56) == self.block_size,
            le32_at(r@, 60) == self.entry_count,
    {
        let mut v: Vec<u8> = Vec::new();
        v.push(self.magic[0]);
        v.push(self.magic[1]);
        v.push(self.magic[2]);
        v.push(self.magic[3]);
        push_u32_le(&mut v, self.version);
        push_u16_le(&mut v, self.compression);
        push_u16_le(&mut v, self.crypt_method);
        push_u32_le(&mut v, self.nb_snapshots);
        push_u64_le(&mut v, self.total_size);
        push_u64_le(&mut v, self.meta_offset);
        push_u64_le(&mut v, self.snapshot_offset);
        push_u64_le(&mut v, self.index_offset);
        push_u64_le(&mut v, self.free_block_manager_offset);
        push_u32_le(&mut v, self.block_size);
        push_u32_le(&mut v, self.entry_count);
        v
    }

    /// Parse a header from its on-disk form. A buffer shorter than 64
    /// bytes or with the wrong magic is an invalid format; a version
    /// other than 1 or a non-zero compression or crypt code is an
    /// unsupported version.
    pub fn decode(buf: &[u8]) -> (r: Result<Header, IDVDError>)
        ensures
            (r is Ok) <==> (buf@.len() >= 64 && magic_ok(buf@) && le32_at(buf@, 4) == 1
                && le16_at(buf@, 8) == 0 && le16_at(buf@, 10) == 0),
            match r {
                Ok(h) => {
                    &&& h.loadable()
                    &&& h.version == 1
                    &&& h.compression == 0
                    &&& h.crypt_method == 0
                    &&& h.nb_snapshots == le32_at(buf@, 12)
                    &&& h.total_size == le64_at(buf@, 16)
                    &&& h.meta_offset == le64_at(buf@, 24)
                    &&& h.snapshot_offset == le64_at(buf@, 32)
                    &&& h.index_offset == le64_at(buf@, 40)
                    &&& h.free_block_manager_offset == le64_at(buf@, 48)
                    &&& h.block_size == le32_at(buf@, 56)
                    &&& h.entry_count == le32_at(buf@, 60)
                },
                Err(e) => {
                    &&& (e is InvalidFormat) <==> (buf@.len() < 64 || !magic_ok(buf@))
                    &&& (e is NotSupportedVersion) <==> (buf@.len() >= 64 && magic_ok(
                        buf@,
                    ) && (le32_at(buf@, 4) != 1 || le16_at(buf@, 8) != 0 || le16_at(
                        buf@,
                        10,
                    ) != 0))
                },
            },
    {
        if buf.len() < 64 {
            return Err(IDVDError::InvalidFormat);
        }
        if buf[0] != MAGIC0 || buf[1] != MAGIC1 || buf[2] != MAGIC2 || buf[3] != MAGIC3 {
            return Err(IDVDError::InvalidFormat);
        }
        let version = read_u32_le(buf, 4);
        if version != 1 {
            return Err(IDVDError::NotSupportedVersion);
        }
        let compression = read_u16_le(buf, 8);
        let crypt_method = read_u16_le(buf, 10);
        if compression != 0 || crypt_method != 0 {
            return Err(IDVDError::NotSupportedVersion);
        }
        Ok(
            Header {
                magic: [MAGIC0, MAGIC1, MAGIC2, MAGIC3],
                version,
                compression,
                crypt_method,
                nb_snapshots: read_u32_le(buf, 12),
                total_size: read_u64_le(buf, 16),
                meta_offset: read_u64_le(buf, 24),
                snapshot_offset: read_u64_le(buf, 32),
                index_offset: read_u64_le(buf, 40),
                free_block_manager_offset: read_u64_le(buf, 48),
                block_size: read_u32_le(buf, 56),
                entry_count: read_u32_le(buf, 60),
            },
        )
    }
}

} // verus!
