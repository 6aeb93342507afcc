//! What the entries of a directory hold behind their type byte.
//!
//! Each kind of entry has 31 bytes. `encode` says which they are; numbers are
//! little-endian.
use vstd::prelude::*;

use crate::le::{
    array_at, law_bytes_of_value, law_value_of_bytes, le_bytes, lemma_le_bytes_len, lemma_radix,
    push_all, push_u128, push_u16, push_u32, push_u64, read_u128, read_u16, read_u32, read_u64,
};

verus! {

broadcast use lemma_le_bytes_len;

/// The number of bytes of an entry behind its type byte.
pub const PAYLOAD_LEN: usize = 31;

/// The attributes of a file, as bits.
#[derive(Clone, Copy, Debug, PartialEq, Eq, Structural)]
pub struct FileAttributes(pub u16);

impl FileAttributes {
    pub open spec fn read_only(self) -> bool {
        self.0 & 0x0001 != 0
    }

    pub fn is_read_only(self) -> (r: bool)
        ensures
            r == self.read_only(),
            r == (self.0 & 0x0001 != 0),
    {
        (self.0 & 0x0001) != 0
    }

    pub open spec fn hidden(self) -> bool {
        self.0 & 0x0002 != 0
    }

    pub fn is_hidden(self) -> (r: bool)
        ensures
            r == self.hidden(),
            r == (self.0 & 0x0002 != 0),
    {
        (self.0 & 0x0002) != 0
    }

    pub open spec fn system(self) -> bool {
        self.0 & 0x0004 != 0
    }

    pub fn is_system(self) -> (r: bool)
        ensures
            r == self.system(),
            r == (self.0 & 0x0004 != 0),
    {
        (self.0 & 0x0004) != 0
    }

    /// Whether the bits say that this is a directory.
    pub open spec fn directory(self) -> bool {
        self.0 & 0x0010 != 0
    }

    pub fn is_directory(self) -> (r: bool)
        ensures
            r == self.directory(),
    {
        (self.0 & 0x0010) != 0
    }

    pub open spec fn archive(self) -> bool {
        self.0 & 0x0020 != 0
    }

    pub fn is_archive(self) -> (r: bool)
        ensures
            r == self.archive(),
            r == (self.0 & 0x0020 != 0),
    {
        (self.0 & 0x0020) != 0
    }
}

impl Default for FileAttributes {
    fn default() -> (r: Self)
        ensures
            r.0 == 0,
    {
        FileAttributes(0)
    }
}

/// The flags that every secondary entry begins with.
#[derive(Clone, Copy, Debug, PartialEq, Eq, Structural)]
pub struct GeneralSecondaryFlags(pub u8);

impl GeneralSecondaryFlags {
    /// Whether the entry may have clusters of its own.
    pub open spec fn may_allocate(self) -> bool {
        self.0 & 1 != 0
    }

    /// Whether the clusters follow one another and the FAT does not list them.
    pub open spec fn contiguous(self) -> bool {
        self.0 & 2 != 0
    }

    pub fn allocation_possible(self) -> (r: bool)
        ensures
            r == self.may_allocate(),
    {
        (self.0 & 1) != 0
    }

    pub fn no_fat_chain(self) -> (r: bool)
        ensures
            r == self.contiguous(),
    {
        (self.0 & 2) != 0
    }
}

impl Default for GeneralSecondaryFlags {
    fn default() -> (r: Self)
        ensures
            r.0 == 0,
    {
        GeneralSecondaryFlags(0)
    }
}

/// Where an allocation bitmap lies. Entry type `0x81`.
#[derive(Clone, Copy, Debug, PartialEq, Eq)]
pub struct BitmapEntry {
    pub flags: u8,
    pub _reserved: [u8; 18],
    pub first_cluster: u32,
    pub data_len: u64,
}

impl Default for BitmapEntry {
    fn default() -> (r: Self)
        ensures
            r.encode() == Seq::new(PAYLOAD_LEN as nat, |i: int| 0u8),
    {
        let r = BitmapEntry {
            flags: 0,
            _reserved: [0u8; 18],
            first_cluster: 0,
            data_len: 0,
        };
        proof {
            lemma_zero_bytes();
            assert(r.encode() =~= Seq::new(PAYLOAD_LEN as nat, |i: int| 0u8));
        }
        r
    }
}

impl BitmapEntry {
    /// The bytes of the entry behind its type byte.
    pub open spec fn encode(self) -> Seq<u8> {
        seq![self.flags]
            + self._reserved@
            + le_bytes(self.first_cluster as nat, 4)
            + le_bytes(self.data_len as nat, 8)
    }

    pub fn read_from(s: &[u8]) -> (r: Self)
        requires
            s@.len() == PAYLOAD_LEN,
        ensures
            r.encode() == s@,
    {
        let r = BitmapEntry {
            flags: s[0],
            _reserved: array_at::<18>(s, 1),
            first_cluster: read_u32(s, 19),
            data_len: read_u64(s, 23),
        };
        proof {
            law_bytes_of_value(s@.subrange(19, 23));
            law_bytes_of_value(s@.subrange(23, 31));
            assert(r.encode() =~= s@);
        }
        r
    }

    pub fn push_to(&self, out: &mut Vec<u8>)
        ensures
            final(out)@ == old(out)@ + self.encode(),
    {
        out.push(self.flags);
        push_all(out, &self._reserved);
        push_u32(out, self.first_cluster);
        push_u64(out, self.data_len);
        assert(out@ =~= old(out)@ + self.encode());
    }

    /// Entries with the same bytes are the same.
    pub proof fn law_encode_injective(a: Self, b: Self)
        requires
            a.encode() == b.encode(),
        ensures
            a == b,
    {
        lemma_radix();
        let s = a.encode();
        assert(s[0] == a.flags && s[0] == b.flags);
        assert(s.subrange(1, 19) =~= a._reserved@);
        assert(s.subrange(1, 19) =~= b._reserved@);
        assert(a._reserved =~= b._reserved);
        assert(s.subrange(19, 23) =~= le_bytes(a.first_cluster as nat, 4));
        assert(s.subrange(19, 23) =~= le_bytes(b.first_cluster as nat, 4));
        law_value_of_bytes(a.first_cluster as nat, 4);
        law_value_of_bytes(b.first_cluster as nat, 4);
        assert(s.subrange(23, 31) =~= le_bytes(a.data_len as nat, 8));
        assert(s.subrange(23, 31) =~= le_bytes(b.data_len as nat, 8));
        law_value_of_bytes(a.data_len as nat, 8);
        law_value_of_bytes(b.data_len as nat, 8);
    }
}

/// Where the up-case table lies, and its checksum. Entry type `0x82`.
#[derive(Clone, Copy, Debug, PartialEq, Eq)]
pub struct UpcaseTableEntry {
    pub _reserved1: [u8; 3],
    pub table_checksum: u32,
    pub _reserved2: [u8; 12],
    pub first_cluster: u32,
    pub data_len: u64,
}

impl Default for UpcaseTableEntry {
    fn default() -> (r: Self)
        ensures
            r.encode() == Seq::new(PAYLOAD_LEN as nat, |i: int| 0u8),
    {
        let r = UpcaseTableEntry {
            _reserved1: [0u8; 3],
            table_checksum: 0,
            _reserved2: [0u8; 12],
            first_cluster: 0,
            data_len: 0,
        };
        proof {
            lemma_zero_bytes();
            assert(r.encode() =~= Seq::new(PAYLOAD_LEN as nat, |i: int| 0u8));
        }
        r
    }
}

impl UpcaseTableEntry {
    /// The bytes of the entry behind its type byte.
    pub open spec fn encode(self) -> Seq<u8> {
        self._reserved1@
            + le_bytes(self.table_checksum as nat, 4)
            + self._reserved2@
            + le_bytes(self.first_cluster as nat, 4)
            + le_bytes(self.data_len as nat, 8)
    }

    pub fn read_from(s: &[u8]) -> (r: Self)
        requires
            s@.len() == PAYLOAD_LEN,
        ensures
            r.encode() == s@,
    {
        let r = UpcaseTableEntry {
            _reserved1: array_at::<3>(s, 0),
            table_checksum: read_u32(s, 3),
            _reserved2: array_at::<12>(s, 7),
            first_cluster: read_u32(s, 19),
            data_len: read_u64(s, 23),
        };
        proof {
            law_bytes_of_value(s@.subrange(3, 7));
            law_bytes_of_value(s@.subrange(19, 23));
            law_bytes_of_value(s@.subrange(23, 31));
            assert(r.encode() =~= s@);
        }
        r
    }

    pub fn push_to(&self, out: &mut Vec<u8>)
        ensures
            final(out)@ == old(out)@ + self.encode(),
    {
        push_all(out, &self._reserved1);
        push_u32(out, self.table_checksum);
        push_all(out, &self._reserved2);
        push_u32(out, self.first_cluster);
        push_u64(out, self.data_len);
        assert(out@ =~= old(out)@ + self.encode());
    }

    /// Entries with the same bytes are the same.
    pub proof fn law_encode_injective(a: Self, b: Self)
        requires
            a.encode() == b.encode(),
        ensures
            a == b,
    {
        lemma_radix();
        let s = a.encode();
        assert(s.subrange(0, 3) =~= a._reserved1@);
        assert(s.subrange(0, 3) =~= b._reserved1@);
        assert(a._reserved1 =~= b._reserved1);
        assert(s.subrange(3, 7) =~= le_bytes(a.table_checksum as nat, 4));
        assert(s.subrange(3, 7) =~= le_bytes(b.table_checksum as nat, 4));
        law_value_of_bytes(a.table_checksum as nat, 4);
        law_value_of_bytes(b.table_checksum as nat, 4);
        assert(s.subrange(7, 19) =~= a._reserved2@);
        assert(s.subrange(7, 19) =~= b._reserved2@);
        assert(a._reserved2 =~= b._reserved2);
        assert(s.subrange(19, 23) =~= le_bytes(a.first_cluster as nat, 4));
        assert(s.subrange(19, 23) =~= le_bytes(b.first_cluster as nat, 4));
        law_value_of_bytes(a.first_cluster as nat, 4);
        law_value_of_bytes(b.first_cluster as nat, 4);
        assert(s.subrange(23, 31) =~= le_bytes(a.data_len as nat, 8));
        assert(s.subrange(23, 31) =~= le_bytes(b.data_len as nat, 8));
        law_value_of_bytes(a.data_len as nat, 8);
        law_value_of_bytes(b.data_len as nat, 8);
    }
}

/// The name of the volume. Entry type `0x83`.
#[derive(Clone, Copy, Debug, PartialEq, Eq)]
pub struct VolumeLabelEntry {
    pub character_count: u8,
    pub volume_label: [u8; 22],
    pub _reserved: u64,
}

impl Default for VolumeLabelEntry {
    fn default() -> (r: Self)
        ensures
            r.encode() == Seq::new(PAYLOAD_LEN as nat, |i: int| 0u8),
    {
        let r = VolumeLabelEntry {
            character_count: 0,
            volume_label: [0u8; 22],
            _reserved: 0,
        };
        proof {
            lemma_zero_bytes();
            assert(r.encode() =~= Seq::new(PAYLOAD_LEN as nat, |i: int| 0u8));
        }
        r
    }
}

impl VolumeLabelEntry {
    /// The bytes of the entry behind its type byte.
    pub open spec fn encode(self) -> Seq<u8> {
        seq![self.character_count]
            + self.volume_label@
            + le_bytes(self._reserved as nat, 8)
    }

    pub fn read_from(s: &[u8]) -> (r: Self)
        requires
            s@.len() == PAYLOAD_LEN,
        ensures
            r.encode() == s@,
    {
        let r = VolumeLabelEntry {
            character_count: s[0],
            volume_label: array_at::<22>(s, 1),
            _reserved: read_u64(s, 23),
        };
        proof {
            law_bytes_of_value(s@.subrange(23, 31));
            assert(r.encode() =~= s@);
        }
        r
    }

    pub fn push_to(&self, out: &mut Vec<u8>)
        ensures
            final(out)@ == old(out)@ + self.encode(),
    {
        out.push(self.character_count);
        push_all(out, &self.volume_label);
        push_u64(out, self._reserved);
        assert(out@ =~= old(out)@ + self.encode());
    }

    /// Entries with the same bytes are the same.
    pub proof fn law_encode_injective(a: Self, b: Self)
        requires
            a.encode() == b.encode(),
        ensures
            a == b,
    {
        lemma_radix();
        let s = a.encode();
        assert(s[0] == a.character_count && s[0] == b.character_count);
        assert(s.subrange(1, 23) =~= a.volume_label@);
        assert(s.subrange(1, 23) =~= b.volume_label@);
        assert(a.volume_label =~= b.volume_label);
        assert(s.subrange(23, 31) =~= le_bytes(a._reserved as nat, 8));
        assert(s.subrange(23, 31) =~= le_bytes(b._reserved as nat, 8));
        law_value_of_bytes(a._reserved as nat, 8);
        law_value_of_bytes(b._reserved as nat, 8);
    }
}

/// The first entry of a file or directory. Entry type `0x85`.
#[derive(Clone, Copy, Debug, PartialEq, Eq)]
pub struct FileEntry {
    pub secondary_count: u8,
    pub set_checksum: u16,
    pub file_attributes: FileAttributes,
    pub _reserved1: u16,
    pub create_timestamp: u32,
    pub last_modified_timestamp: u32,
    pub last_accessed_timestamp: u32,
    pub create_10ms_increment: u8,
    pub last_modified_10ms_increment: u8,
    pub create_utc_offset: u8,
    pub last_modified_utc_offset: u8,
    pub last_accessed_utc_offset: u8,
    pub _reserved2: [u8; 7],
}

impl Default for FileEntry {
    fn default() -> (r: Self)
        ensures
            r.encode() == Seq::new(PAYLOAD_LEN as nat, |i: int| 0u8),
    {
        let r = FileEntry {
            secondary_count: 0,
            set_checksum: 0,
            file_attributes: FileAttributes(0),
            _reserved1: 0,
            create_timestamp: 0,
            last_modified_timestamp: 0,
            last_accessed_timestamp: 0,
            create_10ms_increment: 0,
            last_modified_10ms_increment: 0,
            create_utc_offset: 0,
            last_modified_utc_offset: 0,
            last_accessed_utc_offset: 0,
            _reserved2: [0u8; 7],
        };
        proof {
            lemma_zero_bytes();
            assert(r.encode() =~= Seq::new(PAYLOAD_LEN as nat, |i: int| 0u8));
        }
        r
    }
}

impl FileEntry {
    /// The bytes of the entry behind its type byte.
    pub open spec fn encode(self) -> Seq<u8> {
        seq![self.secondary_count]
            + le_bytes(self.set_checksum as nat, 2)
            + le_bytes(self.file_attributes.0 as nat, 2)
            + le_bytes(self._reserved1 as nat, 2)
            + le_bytes(self.create_timestamp as nat, 4)
            + le_bytes(self.last_modified_timestamp as nat, 4)
            + le_bytes(self.last_accessed_timestamp as nat, 4)
            + seq![self.create_10ms_increment]
            + seq![self.last_modified_10ms_increment]
            + seq![self.create_utc_offset]
            + seq![self.last_modified_utc_offset]
            + seq![self.last_accessed_utc_offset]
            + self._reserved2@
    }

    pub fn read_from(s: &[u8]) -> (r: Self)
        requires
            s@.len() == PAYLOAD_LEN,
        ensures
            r.encode() == s@,
    {
        let r = FileEntry {
            secondary_count: s[0],
            set_checksum: read_u16(s, 1),
            file_attributes: FileAttributes(read_u16(s, 3)),
            _reserved1: read_u16(s, 5),
            create_timestamp: read_u32(s, 7),
            last_modified_timestamp: read_u32(s, 11),
            last_accessed_timestamp: read_u32(s, 15),
            create_10ms_increment: s[19],
            last_modified_10ms_increment: s[20],
            create_utc_offset: s[21],
            last_modified_utc_offset: s[22],
            last_accessed_utc_offset: s[23],
            _reserved2: array_at::<7>(s, 24),
        };
        proof {
            law_bytes_of_value(s@.subrange(1, 3));
            law_bytes_of_value(s@.subrange(3, 5));
            law_bytes_of_value(s@.subrange(5, 7));
            law_bytes_of_value(s@.subrange(7, 11));
            law_bytes_of_value(s@.subrange(11, 15));
            law_bytes_of_value(s@.subrange(15, 19));
            assert(r.encode() =~= s@);
        }
        r
    }

    pub fn push_to(&self, out: &mut Vec<u8>)
        ensures
            final(out)@ == old(out)@ + self.encode(),
    {
        out.push(self.secondary_count);
        push_u16(out, self.set_checksum);
        push_u16(out, self.file_attributes.0);
        push_u16(out, self._reserved1);
        push_u32(out, self.create_timestamp);
        push_u32(out, self.last_modified_timestamp);
        push_u32(out, self.last_accessed_timestamp);
        out.push(self.create_10ms_increment);
        out.push(self.last_modified_10ms_increment);
        out.push(self.create_utc_offset);
        out.push(self.last_modified_utc_offset);
        out.push(self.last_accessed_utc_offset);
        push_all(out, &self._reserved2);
        assert(out@ =~= old(out)@ + self.encode());
    }

    /// Entries with the same bytes are the same.
    pub proof fn law_encode_injective(a: Self, b: Self)
        requires
            a.encode() == b.encode(),
        ensures
            a == b,
    {
        lemma_radix();
        let s = a.encode();
        assert(s[0] == a.secondary_count && s[0] == b.secondary_count);
        assert(s.subrange(1, 3) =~= le_bytes(a.set_checksum as nat, 2));
        assert(s.subrange(1, 3) =~= le_bytes(b.set_checksum as nat, 2));
        law_value_of_bytes(a.set_checksum as nat, 2);
        law_value_of_bytes(b.set_checksum as nat, 2);
        assert(s.subrange(3, 5) =~= le_bytes(a.file_attributes.0 as nat, 2));
        assert(s.subrange(3, 5) =~= le_bytes(b.file_attributes.0 as nat, 2));
        law_value_of_bytes(a.file_attributes.0 as nat, 2);
        law_value_of_bytes(b.file_attributes.0 as nat, 2);
        assert(s.subrange(5, 7) =~= le_bytes(a._reserved1 as nat, 2));
        assert(s.subrange(5, 7) =~= le_bytes(b._reserved1 as nat, 2));
        law_value_of_bytes(a._reserved1 as nat, 2);
        law_value_of_bytes(b._reserved1 as nat, 2);
        assert(s.subrange(7, 11) =~= le_bytes(a.create_timestamp as nat, 4));
        assert(s.subrange(7, 11) =~= le_bytes(b.create_timestamp as nat, 4));
        law_value_of_bytes(a.create_timestamp as nat, 4);
        law_value_of_bytes(b.create_timestamp as nat, 4);
        assert(s.subrange(11, 15) =~= le_bytes(a.last_modified_timestamp as nat, 4));
        assert(s.subrange(11, 15) =~= le_bytes(b.last_modified_timestamp as nat, 4));
        law_value_of_bytes(a.last_modified_timestamp as nat, 4);
        law_value_of_bytes(b.last_modified_timestamp as nat, 4);
        assert(s.subrange(15, 19) =~= le_bytes(a.last_accessed_timestamp as nat, 4));
        assert(s.subrange(15, 19) =~= le_bytes(b.last_accessed_timestamp as nat, 4));
        law_value_of_bytes(a.last_accessed_timestamp as nat, 4);
        law_value_of_bytes(b.last_accessed_timestamp as nat, 4);
        assert(s[19] == a.create_10ms_increment && s[19] == b.create_10ms_increment);
        assert(s[20] == a.last_modified_10ms_increment && s[20] == b.last_modified_10ms_increment);
        assert(s[21] == a.create_utc_offset && s[21] == b.create_utc_offset);
        assert(s[22] == a.last_modified_utc_offset && s[22] == b.last_modified_utc_offset);
        assert(s[23] == a.last_accessed_utc_offset && s[23] == b.last_accessed_utc_offset);
        assert(s.subrange(24, 31) =~= a._reserved2@);
        assert(s.subrange(24, 31) =~= b._reserved2@);
        assert(a._reserved2 =~= b._reserved2);
    }
}

/// The identifier of the volume. Entry type `0xA0`.
#[derive(Clone, Copy, Debug, PartialEq, Eq)]
pub struct VolumeGuidEntry {
    pub secondary_count: u8,
    pub set_checksum: u16,
    pub general_primary_flag: u16,
    pub volume_guid: u128,
    pub _reserved: [u8; 10],
}

impl Default for VolumeGuidEntry {
    fn default() -> (r: Self)
        ensures
            r.encode() == Seq::new(PAYLOAD_LEN as nat, |i: int| 0u8),
    {
        let r = VolumeGuidEntry {
            secondary_count: 0,
            set_checksum: 0,
            general_primary_flag: 0,
            volume_guid: 0,
            _reserved: [0u8; 10],
        };
        proof {
            lemma_zero_bytes();
            assert(r.encode() =~= Seq::new(PAYLOAD_LEN as nat, |i: int| 0u8));
        }
        r
    }
}

impl VolumeGuidEntry {
    /// The bytes of the entry behind its type byte.
    pub open spec fn encode(self) -> Seq<u8> {
        seq![self.secondary_count]
            + le_bytes(self.set_checksum as nat, 2)
            + le_bytes(self.general_primary_flag as nat, 2)
            + le_bytes(self.volume_guid as nat, 16)
            + self._reserved@
    }

    pub fn read_from(s: &[u8]) -> (r: Self)
        requires
            s@.len() == PAYLOAD_LEN,
        ensures
            r.encode() == s@,
    {
        let r = VolumeGuidEntry {
            secondary_count: s[0],
            set_checksum: read_u16(s, 1),
            general_primary_flag: read_u16(s, 3),
            volume_guid: read_u128(s, 5),
            _reserved: array_at::<10>(s, 21),
        };
        proof {
            law_bytes_of_value(s@.subrange(1, 3));
            law_bytes_of_value(s@.subrange(3, 5));
            law_bytes_of_value(s@.subrange(5, 21));
            assert(r.encode() =~= s@);
        }
        r
    }

    pub fn push_to(&self, out: &mut Vec<u8>)
        ensures
            final(out)@ == old(out)@ + self.encode(),
    {
        out.push(self.secondary_count);
        push_u16(out, self.set_checksum);
        push_u16(out, self.general_primary_flag);
        push_u128(out, self.volume_guid);
        push_all(out, &self._reserved);
        assert(out@ =~= old(out)@ + self.encode());
    }

    /// Entries with the same bytes are the same.
    pub proof fn law_encode_injective(a: Self, b: Self)
        requires
            a.encode() == b.encode(),
        ensures
            a == b,
    {
        lemma_radix();
        let s = a.encode();
        assert(s[0] == a.secondary_count && s[0] == b.secondary_count);
        assert(s.subrange(1, 3) =~= le_bytes(a.set_checksum as nat, 2));
        assert(s.subrange(1, 3) =~= le_bytes(b.set_checksum as nat, 2));
        law_value_of_bytes(a.set_checksum as nat, 2);
        law_value_of_bytes(b.set_checksum as nat, 2);
        assert(s.subrange(3, 5) =~= le_bytes(a.general_primary_flag as nat, 2));
        assert(s.subrange(3, 5) =~= le_bytes(b.general_primary_flag as nat, 2));
        law_value_of_bytes(a.general_primary_flag as nat, 2);
        law_value_of_bytes(b.general_primary_flag as nat, 2);
        assert(s.subrange(5, 21) =~= le_bytes(a.volume_guid as nat, 16));
        assert(s.subrange(5, 21) =~= le_bytes(b.volume_guid as nat, 16));
        law_value_of_bytes(a.volume_guid as nat, 16);
        law_value_of_bytes(b.volume_guid as nat, 16);
        assert(s.subrange(21, 31) =~= a._reserved@);
        assert(s.subrange(21, 31) =~= b._reserved@);
        assert(a._reserved =~= b._reserved);
    }
}

/// Where the data of a file or directory lies. Entry type `0xC0`.
#[derive(Clone, Copy, Debug, PartialEq, Eq)]
pub struct StreamExtensionEntry {
    pub general_secondary_flags: GeneralSecondaryFlags,
    pub _reserved1: u8,
    /// Length unicode string filename
    pub name_length: u8,
    pub name_hash: u16,
    pub _reserved2: u16,
    pub valid_data_length: u64,
    pub _reserved3: u32,
    pub first_cluster: u32,
    pub data_len: u64,
}

impl Default for StreamExtensionEntry {
    fn default() -> (r: Self)
        ensures
            r.encode() == Seq::new(PAYLOAD_LEN as nat, |i: int| 0u8),
    {
        let r = StreamExtensionEntry {
            general_secondary_flags: GeneralSecondaryFlags(0),
            _reserved1: 0,
            name_length: 0,
            name_hash: 0,
            _reserved2: 0,
            valid_data_length: 0,
            _reserved3: 0,
            first_cluster: 0,
            data_len: 0,
        };
        proof {
            lemma_zero_bytes();
            assert(r.encode() =~= Seq::new(PAYLOAD_LEN as nat, |i: int| 0u8));
        }
        r
    }
}

impl StreamExtensionEntry {
    /// The bytes of the entry behind its type byte.
    pub open spec fn encode(self) -> Seq<u8> {
        seq![self.general_secondary_flags.0]
            + seq![self._reserved1]
            + seq![self.name_length]
            + le_bytes(self.name_hash as nat, 2)
            + le_bytes(self._reserved2 as nat, 2)
            + le_bytes(self.valid_data_length as nat, 8)
            + le_bytes(self._reserved3 as nat, 4)
            + le_bytes(self.first_cluster as nat, 4)
            + le_bytes(self.data_len as nat, 8)
    }

    pub fn read_from(s: &[u8]) -> (r: Self)
        requires
            s@.len() == PAYLOAD_LEN,
        ensures
            r.encode() == s@,
    {
        let r = StreamExtensionEntry {
            general_secondary_flags: GeneralSecondaryFlags(s[0]),
            _reserved1: s[1],
            name_length: s[2],
            name_hash: read_u16(s, 3),
            _reserved2: read_u16(s, 5),
            valid_data_length: read_u64(s, 7),
            _reserved3: read_u32(s, 15),
            first_cluster: read_u32(s, 19),
            data_len: read_u64(s, 23),
        };
        proof {
            law_bytes_of_value(s@.subrange(3, 5));
            law_bytes_of_value(s@.subrange(5, 7));
            law_bytes_of_value(s@.subrange(7, 15));
            law_bytes_of_value(s@.subrange(15, 19));
            law_bytes_of_value(s@.subrange(19, 23));
            law_bytes_of_value(s@.subrange(23, 31));
            assert(r.encode() =~= s@);
        }
        r
    }

    pub fn push_to(&self, out: &mut Vec<u8>)
        ensures
            final(out)@ == old(out)@ + self.encode(),
    {
        out.push(self.general_secondary_flags.0);
        out.push(self._reserved1);
        out.push(self.name_length);
        push_u16(out, self.name_hash);
        push_u16(out, self._reserved2);
        push_u64(out, self.valid_data_length);
        push_u32(out, self._reserved3);
        push_u32(out, self.first_cluster);
        push_u64(out, self.data_len);
        assert(out@ =~= old(out)@ + self.encode());
    }

    /// Entries with the same bytes are the same.
    pub proof fn law_encode_injective(a: Self, b: Self)
        requires
            a.encode() == b.encode(),
        ensures
            a == b,
    {
        lemma_radix();
        let s = a.encode();
        assert(s[0] == a.general_secondary_flags.0 && s[0] == b.general_secondary_flags.0);
        assert(s[1] == a._reserved1 && s[1] == b._reserved1);
        assert(s[2] == a.name_length && s[2] == b.name_length);
        assert(s.subrange(3, 5) =~= le_bytes(a.name_hash as nat, 2));
        assert(s.subrange(3, 5) =~= le_bytes(b.name_hash as nat, 2));
        law_value_of_bytes(a.name_hash as nat, 2);
        law_value_of_bytes(b.name_hash as nat, 2);
        assert(s.subrange(5, 7) =~= le_bytes(a._reserved2 as nat, 2));
        assert(s.subrange(5, 7) =~= le_bytes(b._reserved2 as nat, 2));
        law_value_of_bytes(a._reserved2 as nat, 2);
        law_value_of_bytes(b._reserved2 as nat, 2);
        assert(s.subrange(7, 15) =~= le_bytes(a.valid_data_length as nat, 8));
        assert(s.subrange(7, 15) =~= le_bytes(b.valid_data_length as nat, 8));
        law_value_of_bytes(a.valid_data_length as nat, 8);
        law_value_of_bytes(b.valid_data_length as nat, 8);
        assert(s.subrange(15, 19) =~= le_bytes(a._reserved3 as nat, 4));
        assert(s.subrange(15, 19) =~= le_bytes(b._reserved3 as nat, 4));
        law_value_of_bytes(a._reserved3 as nat, 4);
        law_value_of_bytes(b._reserved3 as nat, 4);
        assert(s.subrange(19, 23) =~= le_bytes(a.first_cluster as nat, 4));
        assert(s.subrange(19, 23) =~= le_bytes(b.first_cluster as nat, 4));
        law_value_of_bytes(a.first_cluster as nat, 4);
        law_value_of_bytes(b.first_cluster as nat, 4);
        assert(s.subrange(23, 31) =~= le_bytes(a.data_len as nat, 8));
        assert(s.subrange(23, 31) =~= le_bytes(b.data_len as nat, 8));
        law_value_of_bytes(a.data_len as nat, 8);
        law_value_of_bytes(b.data_len as nat, 8);
    }
}

/// Fifteen UTF-16 units of a file name. Entry type `0xC1`.
#[derive(Clone, Copy, Debug, PartialEq, Eq)]
pub struct FileNameEntry {
    pub general_secondary_flags: GeneralSecondaryFlags,
    pub file_name: [u8; 30],
}

impl Default for FileNameEntry {
    fn default() -> (r: Self)
        ensures
            r.encode() == Seq::new(PAYLOAD_LEN as nat, |i: int| 0u8),
    {
        let r = FileNameEntry {
            general_secondary_flags: GeneralSecondaryFlags(0),
            file_name: [0u8; 30],
        };
        proof {
            lemma_zero_bytes();
            assert(r.encode() =~= Seq::new(PAYLOAD_LEN as nat, |i: int| 0u8));
        }
        r
    }
}

impl FileNameEntry {
    /// The bytes of the entry behind its type byte.
    pub open spec fn encode(self) -> Seq<u8> {
        seq![self.general_secondary_flags.0]
            + self.file_name@
    }

    pub fn read_from(s: &[u8]) -> (r: Self)
        requires
            s@.len() == PAYLOAD_LEN,
        ensures
            r.encode() == s@,
    {
        let r = FileNameEntry {
            general_secondary_flags: GeneralSecondaryFlags(s[0]),
            file_name: array_at::<30>(s, 1),
        };
        proof {
            assert(r.encode() =~= s@);
        }
        r
    }

    pub fn push_to(&self, out: &mut Vec<u8>)
        ensures
            final(out)@ == old(out)@ + self.encode(),
    {
        out.push(self.general_secondary_flags.0);
        push_all(out, &self.file_name);
        assert(out@ =~= old(out)@ + self.encode());
    }

    /// Entries with the same bytes are the same.
    pub proof fn law_encode_injective(a: Self, b: Self)
        requires
            a.encode() == b.encode(),
        ensures
            a == b,
    {
        lemma_radix();
        let s = a.encode();
        assert(s[0] == a.general_secondary_flags.0 && s[0] == b.general_secondary_flags.0);
        assert(s.subrange(1, 31) =~= a.file_name@);
        assert(s.subrange(1, 31) =~= b.file_name@);
        assert(a.file_name =~= b.file_name);
    }
}

/// Data of a vendor. Entry type `0xE0`.
#[derive(Clone, Copy, Debug, PartialEq, Eq)]
pub struct VendorExtensionEntry {
    pub general_secondary_flag: u8,
    pub vendor_guid: u128,
    pub vendor_defined: [u8; 14],
}

impl Default for VendorExtensionEntry {
    fn default() -> (r: Self)
        ensures
            r.encode() == Seq::new(PAYLOAD_LEN as nat, |i: int| 0u8),
    {
        let r = VendorExtensionEntry {
            general_secondary_flag: 0,
            vendor_guid: 0,
            vendor_defined: [0u8; 14],
        };
        proof {
            lemma_zero_bytes();
            assert(r.encode() =~= Seq::new(PAYLOAD_LEN as nat, |i: int| 0u8));
        }
        r
    }
}

impl VendorExtensionEntry {
    /// The bytes of the entry behind its type byte.
    pub open spec fn encode(self) -> Seq<u8> {
        seq![self.general_secondary_flag]
            + le_bytes(self.vendor_guid as nat, 16)
            + self.vendor_defined@
    }

    pub fn read_from(s: &[u8]) -> (r: Self)
        requires
            s@.len() == PAYLOAD_LEN,
        ensures
            r.encode() == s@,
    {
        let r = VendorExtensionEntry {
            general_secondary_flag: s[0],
            vendor_guid: read_u128(s, 1),
            vendor_defined: array_at::<14>(s, 17),
        };
        proof {
            law_bytes_of_value(s@.subrange(1, 17));
            assert(r.encode() =~= s@);
        }
        r
    }

    pub fn push_to(&self, out: &mut Vec<u8>)
        ensures
            final(out)@ == old(out)@ + self.encode(),
    {
        out.push(self.general_secondary_flag);
        push_u128(out, self.vendor_guid);
        push_all(out, &self.vendor_defined);
        assert(out@ =~= old(out)@ + self.encode());
    }

    /// Entries with the same bytes are the same.
    pub proof fn law_encode_injective(a: Self, b: Self)
        requires
            a.encode() == b.encode(),
        ensures
            a == b,
    {
        lemma_radix();
        let s = a.encode();
        assert(s[0] == a.general_secondary_flag && s[0] == b.general_secondary_flag);
        assert(s.subrange(1, 17) =~= le_bytes(a.vendor_guid as nat, 16));
        assert(s.subrange(1, 17) =~= le_bytes(b.vendor_guid as nat, 16));
        law_value_of_bytes(a.vendor_guid as nat, 16);
        law_value_of_bytes(b.vendor_guid as nat, 16);
        assert(s.subrange(17, 31) =~= a.vendor_defined@);
        assert(s.subrange(17, 31) =~= b.vendor_defined@);
        assert(a.vendor_defined =~= b.vendor_defined);
    }
}

/// Clusters of a vendor. Entry type `0xE1`.
#[derive(Clone, Copy, Debug, PartialEq, Eq)]
pub struct VendorAllocationEntry {
    pub general_secondary_flag: u8,
    pub vendor_guid: u128,
    pub vendor_defined: u16,
    pub first_cluster: u32,
    pub data_len: u64,
}

impl Default for VendorAllocationEntry {
    fn default() -> (r: Self)
        ensures
            r.encode() == Seq::new(PAYLOAD_LEN as nat, |i: int| 0u8),
    {
        let r = VendorAllocationEntry {
            general_secondary_flag: 0,
            vendor_guid: 0,
            vendor_defined: 0,
            first_cluster: 0,
            data_len: 0,
        };
        proof {
            lemma_zero_bytes();
            assert(r.encode() =~= Seq::new(PAYLOAD_LEN as nat, |i: int| 0u8));
        }
        r
    }
}

impl VendorAllocationEntry {
    /// The bytes of the entry behind its type byte.
    pub open spec fn encode(self) -> Seq<u8> {
        seq![self.general_secondary_flag]
            + le_bytes(self.vendor_guid as nat, 16)
            + le_bytes(self.vendor_defined as nat, 2)
            + le_bytes(self.first_cluster as nat, 4)
            + le_bytes(self.data_len as nat, 8)
    }

    pub fn read_from(s: &[u8]) -> (r: Self)
        requires
            s@.len() == PAYLOAD_LEN,
        ensures
            r.encode() == s@,
    {
        let r = VendorAllocationEntry {
            general_secondary_flag: s[0],
            vendor_guid: read_u128(s, 1),
            vendor_defined: read_u16(s, 17),
            first_cluster: read_u32(s, 19),
            data_len: read_u64(s, 23),
        };
        proof {
            law_bytes_of_value(s@.subrange(1, 17));
            law_bytes_of_value(s@.subrange(17, 19));
            law_bytes_of_value(s@.subrange(19, 23));
            law_bytes_of_value(s@.subrange(23, 31));
            assert(r.encode() =~= s@);
        }
        r
    }

    pub fn push_to(&self, out: &mut Vec<u8>)
        ensures
            final(out)@ == old(out)@ + self.encode(),
    {
        out.push(self.general_secondary_flag);
        push_u128(out, self.vendor_guid);
        push_u16(out, self.vendor_defined);
        push_u32(out, self.first_cluster);
        push_u64(out, self.data_len);
        assert(out@ =~= old(out)@ + self.encode());
    }

    /// Entries with the same bytes are the same.
    pub proof fn law_encode_injective(a: Self, b: Self)
        requires
            a.encode() == b.encode(),
        ensures
            a == b,
    {
        lemma_radix();
        let s = a.encode();
        assert(s[0] == a.general_secondary_flag && s[0] == b.general_secondary_flag);
        assert(s.subrange(1, 17) =~= le_bytes(a.vendor_guid as nat, 16));
        assert(s.subrange(1, 17) =~= le_bytes(b.vendor_guid as nat, 16));
        law_value_of_bytes(a.vendor_guid as nat, 16);
        law_value_of_bytes(b.vendor_guid as nat, 16);
        assert(s.subrange(17, 19) =~= le_bytes(a.vendor_defined as nat, 2));
        assert(s.subrange(17, 19) =~= le_bytes(b.vendor_defined as nat, 2));
        law_value_of_bytes(a.vendor_defined as nat, 2);
        law_value_of_bytes(b.vendor_defined as nat, 2);
        assert(s.subrange(19, 23) =~= le_bytes(a.first_cluster as nat, 4));
        assert(s.subrange(19, 23) =~= le_bytes(b.first_cluster as nat, 4));
        law_value_of_bytes(a.first_cluster as nat, 4);
        law_value_of_bytes(b.first_cluster as nat, 4);
        assert(s.subrange(23, 31) =~= le_bytes(a.data_len as nat, 8));
        assert(s.subrange(23, 31) =~= le_bytes(b.data_len as nat, 8));
        law_value_of_bytes(a.data_len as nat, 8);
        law_value_of_bytes(b.data_len as nat, 8);
    }
}

proof fn lemma_zero_bytes()
    ensures
        le_bytes(0, 2) == seq![0u8, 0u8],
        le_bytes(0, 4) == seq![0u8, 0u8, 0u8, 0u8],
        le_bytes(0, 8) == Seq::new(8, |i: int| 0u8),
        le_bytes(0, 16) == Seq::new(16, |i: int| 0u8),
{
    reveal_with_fuel(le_bytes, 17);
    assert(le_bytes(0, 2) =~= seq![0u8, 0u8]);
    assert(le_bytes(0, 4) =~= seq![0u8, 0u8, 0u8, 0u8]);
    assert(le_bytes(0, 8) =~= Seq::new(8, |i: int| 0u8));
    assert(le_bytes(0, 16) =~= Seq::new(16, |i: int| 0u8));
}

} // verus!
