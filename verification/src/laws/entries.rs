//! Directory entries and their bytes.
use vstd::prelude::*;

use crate::entry::{
    checksum_of, decode, BitmapEntry, ClusterAllocation, DirEntry, FileAttributes, FileEntry,
    FileNameEntry, GeneralSecondaryFlags, StreamExtensionEntry, UpcaseTableEntry,
    VendorAllocationEntry, VendorExtensionEntry, VolumeGuidEntry, VolumeLabelEntry,
};
use crate::laws::numbers::{eight, four, lemma_number_at, sixteen, two};
use crate::le::{le_bytes, lemma_le_bytes_len, lemma_radix};

verus! {

broadcast use lemma_le_bytes_len;

/// Each field of a bitmap entry stands at its place among the 32 bytes.
pub proof fn law_bitmap_bytes(e: BitmapEntry)
    ensures
        ({
            let b = DirEntry::Bitmap(e).encode();
            &&& b.len() == 32
            &&& b[0] == 0x81
            &&& b[1] == e.flags
            &&& b.subrange(2, 20) == e._reserved@
            &&& four(b, 20) == e.first_cluster
            &&& eight(b, 24) == e.data_len
        }),
{
    let b = DirEntry::Bitmap(e).encode();
    lemma_radix();
    assert(b.subrange(2, 20) =~= e._reserved@);
    assert(b.subrange(20, 24) =~= le_bytes(e.first_cluster as nat, 4));
    lemma_number_at(b, 20, e.first_cluster as nat, 4);
    assert(b.subrange(24, 32) =~= le_bytes(e.data_len as nat, 8));
    lemma_number_at(b, 24, e.data_len as nat, 8);
}

/// Each field of the entry of an up-case table stands at its place.
pub proof fn law_upcase_table_bytes(e: UpcaseTableEntry)
    ensures
        ({
            let b = DirEntry::UpcaseTable(e).encode();
            &&& b.len() == 32
            &&& b[0] == 0x82
            &&& b.subrange(1, 4) == e._reserved1@
            &&& four(b, 4) == e.table_checksum
            &&& b.subrange(8, 20) == e._reserved2@
            &&& four(b, 20) == e.first_cluster
            &&& eight(b, 24) == e.data_len
        }),
{
    let b = DirEntry::UpcaseTable(e).encode();
    lemma_radix();
    assert(b.subrange(1, 4) =~= e._reserved1@);
    assert(b.subrange(4, 8) =~= le_bytes(e.table_checksum as nat, 4));
    lemma_number_at(b, 4, e.table_checksum as nat, 4);
    assert(b.subrange(8, 20) =~= e._reserved2@);
    assert(b.subrange(20, 24) =~= le_bytes(e.first_cluster as nat, 4));
    lemma_number_at(b, 20, e.first_cluster as nat, 4);
    assert(b.subrange(24, 32) =~= le_bytes(e.data_len as nat, 8));
    lemma_number_at(b, 24, e.data_len as nat, 8);
}

/// Each field of a volume label entry stands at its place.
pub proof fn law_volume_label_bytes(e: VolumeLabelEntry)
    ensures
        ({
            let b = DirEntry::VolumeLabel(e).encode();
            &&& b.len() == 32
            &&& b[0] == 0x83
            &&& b[1] == e.character_count
            &&& b.subrange(2, 24) == e.volume_label@
            &&& eight(b, 24) == e._reserved
        }),
{
    let b = DirEntry::VolumeLabel(e).encode();
    lemma_radix();
    assert(b.subrange(2, 24) =~= e.volume_label@);
    assert(b.subrange(24, 32) =~= le_bytes(e._reserved as nat, 8));
    lemma_number_at(b, 24, e._reserved as nat, 8);
}

/// Each field of a file entry stands at its place.
pub proof fn law_file_bytes(e: FileEntry)
    ensures
        ({
            let b = DirEntry::File(e).encode();
            &&& b.len() == 32
            &&& b[0] == 0x85
            &&& b[1] == e.secondary_count
            &&& two(b, 2) == e.set_checksum
            &&& two(b, 4) == e.file_attributes.0
            &&& two(b, 6) == e._reserved1
            &&& four(b, 8) == e.create_timestamp
            &&& four(b, 12) == e.last_modified_timestamp
            &&& four(b, 16) == e.last_accessed_timestamp
            &&& b[20] == e.create_10ms_increment
            &&& b[21] == e.last_modified_10ms_increment
            &&& b[22] == e.create_utc_offset
            &&& b[23] == e.last_modified_utc_offset
            &&& b[24] == e.last_accessed_utc_offset
            &&& b.subrange(25, 32) == e._reserved2@
        }),
{
    let b = DirEntry::File(e).encode();
    lemma_radix();
    assert(b.subrange(2, 4) =~= le_bytes(e.set_checksum as nat, 2));
    lemma_number_at(b, 2, e.set_checksum as nat, 2);
    assert(b.subrange(4, 6) =~= le_bytes(e.file_attributes.0 as nat, 2));
    lemma_number_at(b, 4, e.file_attributes.0 as nat, 2);
    assert(b.subrange(6, 8) =~= le_bytes(e._reserved1 as nat, 2));
    lemma_number_at(b, 6, e._reserved1 as nat, 2);
    assert(b.subrange(8, 12) =~= le_bytes(e.create_timestamp as nat, 4));
    lemma_number_at(b, 8, e.create_timestamp as nat, 4);
    assert(b.subrange(12, 16) =~= le_bytes(e.last_modified_timestamp as nat, 4));
    lemma_number_at(b, 12, e.last_modified_timestamp as nat, 4);
    assert(b.subrange(16, 20) =~= le_bytes(e.last_accessed_timestamp as nat, 4));
    lemma_number_at(b, 16, e.last_accessed_timestamp as nat, 4);
    assert(b.subrange(25, 32) =~= e._reserved2@);
}

/// Each field of a volume identifier entry stands at its place.
pub proof fn law_volume_guid_bytes(e: VolumeGuidEntry)
    ensures
        ({
            let b = DirEntry::VolumeGuid(e).encode();
            &&& b.len() == 32
            &&& b[0] == 0xA0
            &&& b[1] == e.secondary_count
            &&& two(b, 2) == e.set_checksum
            &&& two(b, 4) == e.general_primary_flag
            &&& sixteen(b, 6) == e.volume_guid
            &&& b.subrange(22, 32) == e._reserved@
        }),
{
    let b = DirEntry::VolumeGuid(e).encode();
    lemma_radix();
    assert(b.subrange(2, 4) =~= le_bytes(e.set_checksum as nat, 2));
    lemma_number_at(b, 2, e.set_checksum as nat, 2);
    assert(b.subrange(4, 6) =~= le_bytes(e.general_primary_flag as nat, 2));
    lemma_number_at(b, 4, e.general_primary_flag as nat, 2);
    assert(b.subrange(6, 22) =~= le_bytes(e.volume_guid as nat, 16));
    lemma_number_at(b, 6, e.volume_guid as nat, 16);
    assert(b.subrange(22, 32) =~= e._reserved@);
}

/// Each field of a stream extension stands at its place.
pub proof fn law_stream_extension_bytes(e: StreamExtensionEntry)
    ensures
        ({
            let b = DirEntry::StreamExtension(e).encode();
            &&& b.len() == 32
            &&& b[0] == 0xC0
            &&& b[1] == e.general_secondary_flags.0
            &&& b[2] == e._reserved1
            &&& b[3] == e.name_length
            &&& two(b, 4) == e.name_hash
            &&& two(b, 6) == e._reserved2
            &&& eight(b, 8) == e.valid_data_length
            &&& four(b, 16) == e._reserved3
            &&& four(b, 20) == e.first_cluster
            &&& eight(b, 24) == e.data_len
        }),
{
    let b = DirEntry::StreamExtension(e).encode();
    lemma_radix();
    assert(b.subrange(4, 6) =~= le_bytes(e.name_hash as nat, 2));
    lemma_number_at(b, 4, e.name_hash as nat, 2);
    assert(b.subrange(6, 8) =~= le_bytes(e._reserved2 as nat, 2));
    lemma_number_at(b, 6, e._reserved2 as nat, 2);
    assert(b.subrange(8, 16) =~= le_bytes(e.valid_data_length as nat, 8));
    lemma_number_at(b, 8, e.valid_data_length as nat, 8);
    assert(b.subrange(16, 20) =~= le_bytes(e._reserved3 as nat, 4));
    lemma_number_at(b, 16, e._reserved3 as nat, 4);
    assert(b.subrange(20, 24) =~= le_bytes(e.first_cluster as nat, 4));
    lemma_number_at(b, 20, e.first_cluster as nat, 4);
    assert(b.subrange(24, 32) =~= le_bytes(e.data_len as nat, 8));
    lemma_number_at(b, 24, e.data_len as nat, 8);
}

/// Each field of a file name entry stands at its place.
pub proof fn law_file_name_bytes(e: FileNameEntry)
    ensures
        ({
            let b = DirEntry::FileName(e).encode();
            &&& b.len() == 32
            &&& b[0] == 0xC1
            &&& b[1] == e.general_secondary_flags.0
            &&& b.subrange(2, 32) == e.file_name@
        }),
{
    let b = DirEntry::FileName(e).encode();
    assert(b.subrange(2, 32) =~= e.file_name@);
}

/// Each field of a vendor extension stands at its place.
pub proof fn law_vendor_extension_bytes(e: VendorExtensionEntry)
    ensures
        ({
            let b = DirEntry::VendorExtension(e).encode();
            &&& b.len() == 32
            &&& b[0] == 0xE0
            &&& b[1] == e.general_secondary_flag
            &&& sixteen(b, 2) == e.vendor_guid
            &&& b.subrange(18, 32) == e.vendor_defined@
        }),
{
    let b = DirEntry::VendorExtension(e).encode();
    lemma_radix();
    assert(b.subrange(2, 18) =~= le_bytes(e.vendor_guid as nat, 16));
    lemma_number_at(b, 2, e.vendor_guid as nat, 16);
    assert(b.subrange(18, 32) =~= e.vendor_defined@);
}

/// Each field of a vendor allocation stands at its place.
pub proof fn law_vendor_allocation_bytes(e: VendorAllocationEntry)
    ensures
        ({
            let b = DirEntry::VendorAllocation(e).encode();
            &&& b.len() == 32
            &&& b[0] == 0xE1
            &&& b[1] == e.general_secondary_flag
            &&& sixteen(b, 2) == e.vendor_guid
            &&& two(b, 18) == e.vendor_defined
            &&& four(b, 20) == e.first_cluster
            &&& eight(b, 24) == e.data_len
        }),
{
    let b = DirEntry::VendorAllocation(e).encode();
    lemma_radix();
    assert(b.subrange(2, 18) =~= le_bytes(e.vendor_guid as nat, 16));
    lemma_number_at(b, 2, e.vendor_guid as nat, 16);
    assert(b.subrange(18, 20) =~= le_bytes(e.vendor_defined as nat, 2));
    lemma_number_at(b, 18, e.vendor_defined as nat, 2);
    assert(b.subrange(20, 24) =~= le_bytes(e.first_cluster as nat, 4));
    lemma_number_at(b, 20, e.first_cluster as nat, 4);
    assert(b.subrange(24, 32) =~= le_bytes(e.data_len as nat, 8));
    lemma_number_at(b, 24, e.data_len as nat, 8);
}

/// The entries without fields are their type and what is behind it.
pub proof fn law_other_bytes(t: u8, rest: [u8; 31])
    ensures
        ({
            let end = DirEntry::EndOfDirectory(rest).encode();
            let unused = DirEntry::Unused(t, rest).encode();
            let invalid = DirEntry::Invalid.encode();
            &&& end.len() == 32 && end[0] == 0 && end.skip(1) == rest@
            &&& unused.len() == 32 && unused[0] == t && unused.skip(1) == rest@
            &&& invalid.len() == 32 && invalid[0] == 0x80
        }),
{
    assert(DirEntry::EndOfDirectory(rest).encode().skip(1) =~= rest@);
    assert(DirEntry::Unused(t, rest).encode().skip(1) =~= rest@);
}

/// Bytes hold an entry if and only if there are entries of the type that they
/// begin with, whatever is behind it.
pub proof fn law_types(b: Seq<u8>)
    requires
        b.len() == 32,
    ensures
        decode(b) is Some <==> (b[0] < 0x80 || b[0] == 0x80 || b[0] == 0x81 || b[0] == 0x82 || b[0]
            == 0x83 || b[0] == 0x85 || b[0] == 0xA0 || b[0] == 0xC0 || b[0] == 0xC1 || b[0] == 0xE0
            || b[0] == 0xE1),
        b[0] == 0x80 ==> decode(b) == Some(DirEntry::Invalid),
{
}

/// The byte that an entry begins with says how it is used: none of the first 129
/// types is in use, all of them but the first and the last are out of use, and bit
/// 6 tells secondary entries.
pub proof fn law_uses(e: DirEntry)
    ensures
        e.encode()[0] == e.type_byte(),
        e.is_unused() <==> 1 <= e.encode()[0] <= 127,
        e.is_regular() <==> e.encode()[0] > 128,
        e.is_primary() <==> (e.encode()[0] / 64) % 2 == 0,
        e matches DirEntry::EndOfDirectory(_) ==> !e.is_unused() && !e.is_regular(),
        e matches DirEntry::Invalid ==> !e.is_unused() && !e.is_regular(),
        e matches DirEntry::Bitmap(_) ==> e.is_regular() && e.is_primary(),
        e matches DirEntry::UpcaseTable(_) ==> e.is_regular() && e.is_primary(),
        e matches DirEntry::VolumeLabel(_) ==> e.is_regular() && e.is_primary(),
        e matches DirEntry::File(_) ==> e.is_regular() && e.is_primary(),
        e matches DirEntry::VolumeGuid(_) ==> e.is_regular() && e.is_primary(),
        e matches DirEntry::StreamExtension(_) ==> e.is_regular() && !e.is_primary(),
        e matches DirEntry::FileName(_) ==> e.is_regular() && !e.is_primary(),
        e matches DirEntry::VendorExtension(_) ==> e.is_regular() && !e.is_primary(),
        e matches DirEntry::VendorAllocation(_) ==> e.is_regular() && !e.is_primary(),
{
    let t = e.type_byte();
    assert(e.encode()[0] == t);
    assert((t & 0x40 == 0) == ((t / 64) % 2 == 0)) by (bit_vector);
}

/// The attributes are the bits of a number: put together again they give it, but
/// for the bits that mean nothing.
pub proof fn law_attributes(a: FileAttributes)
    ensures
        a.0 % 8 == (if a.read_only() {
            1int
        } else {
            0
        }) + (if a.hidden() {
            2int
        } else {
            0
        }) + (if a.system() {
            4int
        } else {
            0
        }),
        (a.0 / 16) % 4 == (if a.directory() {
            1int
        } else {
            0
        }) + (if a.archive() {
            2int
        } else {
            0
        }),
{
    let v = a.0;
    assert((v & 1 != 0) == (v % 2 == 1)) by (bit_vector);
    assert((v & 2 != 0) == ((v / 2) % 2 == 1)) by (bit_vector);
    assert((v & 4 != 0) == ((v / 4) % 2 == 1)) by (bit_vector);
    assert((v & 0x10 != 0) == ((v / 16) % 2 == 1)) by (bit_vector);
    assert((v & 0x20 != 0) == ((v / 32) % 2 == 1)) by (bit_vector);
}

/// The flags of a secondary entry are the two lowest bits of a number.
pub proof fn law_secondary_flags(f: GeneralSecondaryFlags)
    ensures
        f.0 % 4 == (if f.may_allocate() {
            1int
        } else {
            0
        }) + (if f.contiguous() {
            2int
        } else {
            0
        }),
{
    let v = f.0;
    assert((v & 1 != 0) == (v % 2 == 1)) by (bit_vector);
    assert((v & 2 != 0) == ((v / 2) % 2 == 1)) by (bit_vector);
}

/// An allocation bitmap and an up-case table lie in clusters that hold data,
/// whatever else their entries say.
pub proof fn law_tables_need_a_cluster(b: BitmapEntry, t: UpcaseTableEntry)
    ensures
        b.is_valid() <==> b.first_cluster != 0 && b.first_cluster != 1,
        t.is_valid() <==> t.first_cluster != 0 && t.first_cluster != 1,
{
}

/// A stream extension is refused for each of five reasons and no other: its first
/// cluster is the reserved one, it has data and no cluster, it may not have
/// clusters, it has no name, or more of its data is valid than there is.
pub proof fn law_stream_validity(s: StreamExtensionEntry)
    ensures
        !s.is_valid() <==> {
            ||| s.first_cluster == 1
            ||| s.first_cluster == 0 && s.data_len > 0
            ||| s.general_secondary_flags.0 % 2 == 0
            ||| s.name_length == 0
            ||| s.valid_data_length > s.data_len
        },
{
    law_secondary_flags(s.general_secondary_flags);
}

/// What a byte does to a checksum can be undone: taking the byte away again, modulo
/// 2^16, and rotating left by one bit gives the checksum before it. No bytes do
/// nothing.
pub proof fn law_checksum_undone(input: u16, s: Seq<u8>, b: u8)
    ensures
        ({
            let before = checksum_of(input, s);
            let after = checksum_of(input, s.push(b));
            let rotated = if after >= b {
                after - b
            } else {
                0x1_0000 + after - b
            };
            before == (2 * rotated) % 0x1_0000 + rotated / 0x8000
        }),
        checksum_of(input, Seq::empty()) == input,
{
    assert(s.push(b).drop_last() =~= s);
}

/// The checksum of a secondary entry is that of its bytes; that of a primary entry
/// is the one of a secondary entry without its third and fourth byte.
pub proof fn law_checksum_bytes(e: DirEntry)
    ensures
        (e.encode()[0] / 64) % 2 == 1 ==> e.checked_bytes() == e.encode(),
        (e.encode()[0] / 64) % 2 == 0 ==> e.checked_bytes() == e.encode().remove(2).remove(2),
{
    law_uses(e);
    e.lemma_encode_len();
    if e.is_primary() {
        assert(e.checked_bytes() =~= e.encode().remove(2).remove(2));
    } else {
        assert(e.checked_bytes() =~= e.encode());
    }
}

} // verus!
