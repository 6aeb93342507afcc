//! What calls return, said of their arguments.
use vstd::prelude::*;

use crate::boot_sector::BootSector;
use crate::disk::{
    is_image, law_image_delivers, law_image_fails, write_zeroes, PartitionError, ReadOffset,
    WriteSeek,
};
use crate::entry::parsed::ParsedFileEntry;
use crate::entry::{
    checksum_of, BitmapEntry, ClusterAllocation, DirEntry, FileAttributes, FileEntry,
    FileNameEntry, GeneralSecondaryFlags, StreamExtensionEntry, UpcaseTableEntry, VolumeGuidEntry,
    VolumeLabelEntry,
};
use crate::error::{DirEntryError, EntryReaderError, FatError, FileParserError, RootError};
use crate::fat::Fat;
use crate::label::Label;
use crate::laws::devices::{behaves_as_file, law_zeroes_are_written, zeroed};
use crate::laws::entries::{
    law_attributes, law_checksum_bytes, law_secondary_flags, law_stream_validity, law_types,
    law_uses,
};
use crate::laws::names::{
    is_offset, law_name_is_put_together, law_name_is_what_entries_hold,
    law_times_are_those_of_the_entry, spell_parts, utf16,
};
use crate::laws::new_roots::{
    law_new_root_bitmap, law_new_root_guid, law_new_root_label, law_new_root_upcase_table,
    zero_between,
};
use crate::laws::numbers::{eight, four, lemma_values, sixteen, two};
use crate::laws::places::{
    cluster_bytes, follows, follows_to_end, is_fat_of, law_boot_sector_bytes,
    law_boot_sector_faults, law_chain_follows_fat, law_clusters_are_in_a_row,
    law_fat_is_loaded_from_its_place, law_fat_place, named_exfat, place_of_cluster, place_of_fat,
};
use crate::laws::volumes::holds;
use crate::le::{read_u128, read_u16, read_u32, read_u64};
use crate::raw_root::RawRoot;
use crate::timestamp::{Timestamp, Timestamps};

verus! {

/// Numbers are read from where they stand.
pub proof fn law_numbers_read(s: &[u8], at: usize, a: u16, b: u32, c: u64, d: u128)
    requires
        at + 16 <= s@.len(),
        call_ensures(read_u16, (s, at), a),
        call_ensures(read_u32, (s, at), b),
        call_ensures(read_u64, (s, at), c),
        call_ensures(read_u128, (s, at), d),
    ensures
        a == two(s@, at as int),
        b == four(s@, at as int),
        c == eight(s@, at as int),
        d == sixteen(s@, at as int),
{
    lemma_values(s@, at as int);
}

/// 32 bytes are read as the entry that they spell, or refused for their type.
pub proof fn law_entry_read(b: [u8; 32], r: Result<DirEntry, DirEntryError>)
    requires
        call_ensures(DirEntry::from_bytes, (b,), r),
    ensures
        holds::<()>(
            b@,
            match r {
                Ok(e) => Ok(e),
                Err(e) => Err(EntryReaderError::Entry(e)),
            },
        ),
{
    law_types(b@);
    if let Ok(e) = r {
        law_uses(e);
    }
}

/// The two ways of reading an entry are one.
pub proof fn law_entry_read_either_way(
    b: [u8; 32],
    r: Result<DirEntry, DirEntryError>,
    s: Result<DirEntry, DirEntryError>,
)
    requires
        call_ensures(DirEntry::from_bytes, (b,), r),
        call_ensures(<DirEntry as TryFrom<[u8; 32]>>::try_from, (b,), s),
    ensures
        r == s,
{
}

/// What is read of the bytes of an entry is the entry, and the bytes of what is read
/// are those that were read, unless the entry is an invalid one.
pub proof fn law_entry_round_trip(
    e: DirEntry,
    b: [u8; 32],
    r: Result<DirEntry, DirEntryError>,
    read: DirEntry,
    c: [u8; 32],
)
    requires
        e.wf(),
        call_ensures(DirEntry::bytes, (&e,), b),
        call_ensures(DirEntry::from_bytes, (b,), r),
        r == Ok::<DirEntry, DirEntryError>(read),
        call_ensures(DirEntry::bytes, (&read,), c),
    ensures
        read == e,
        b@ == c@,
{
    DirEntry::law_decode_of_encode(e);
}

/// The questions about an entry are answered by its first byte.
pub proof fn law_entry_questions(
    e: DirEntry,
    b: [u8; 32],
    t: u8,
    regular: bool,
    primary: bool,
    unused: bool,
)
    requires
        call_ensures(DirEntry::bytes, (&e,), b),
        call_ensures(DirEntry::entry_type, (&e,), t),
        call_ensures(DirEntry::regular, (&e,), regular),
        call_ensures(DirEntry::primary, (&e,), primary),
        call_ensures(DirEntry::unused, (&e,), unused),
    ensures
        t == b@[0],
        regular <==> b@[0] > 128,
        primary <==> (b@[0] / 64) % 2 == 0,
        unused <==> 0 < b@[0] < 128,
{
    law_uses(e);
}

/// The checksum of an entry is that of its bytes, without the third and fourth where
/// it is primary.
pub proof fn law_entry_checksum(e: DirEntry, b: [u8; 32], input: u16, r: u16)
    requires
        call_ensures(DirEntry::bytes, (&e,), b),
        call_ensures(DirEntry::checksum, (&e, input), r),
    ensures
        (b@[0] / 64) % 2 == 1 ==> r == checksum_of(input, b@),
        (b@[0] / 64) % 2 == 0 ==> r == checksum_of(input, b@.remove(2).remove(2)),
{
    law_checksum_bytes(e);
}

/// An entry out of use has the type that it stands for less 128, where that is not
/// below it, and nothing but zeroes behind it.
pub proof fn law_new_unused(t: u8, e: DirEntry, b: [u8; 32])
    requires
        call_ensures(DirEntry::new_unused, (t,), e),
        call_ensures(DirEntry::bytes, (&e,), b),
    ensures
        b@[0] == t % 128,
        zero_between(b@, 1, 32),
{
    assert(t & 0x7F == t % 128) by (bit_vector);
}

/// What makes entries valid.
pub proof fn law_valid(
    b: &BitmapEntry,
    t: &UpcaseTableEntry,
    s: &StreamExtensionEntry,
    r: (bool, bool, bool),
)
    requires
        call_ensures(<BitmapEntry as ClusterAllocation>::valid, (b,), r.0),
        call_ensures(<UpcaseTableEntry as ClusterAllocation>::valid, (t,), r.1),
        call_ensures(<StreamExtensionEntry as ClusterAllocation>::valid, (s,), r.2),
    ensures
        r.0 <==> b.first_cluster > 1,
        r.1 <==> t.first_cluster > 1,
        !r.2 <==> {
            ||| s.first_cluster == 1
            ||| s.first_cluster == 0 && s.data_len > 0
            ||| s.general_secondary_flags.0 % 2 == 0
            ||| s.name_length == 0
            ||| s.valid_data_length > s.data_len
        },
{
    law_stream_validity(*s);
}

/// Attributes and flags are bits.
pub proof fn law_bits(
    a: FileAttributes,
    f: GeneralSecondaryFlags,
    read_only: bool,
    hidden: bool,
    system: bool,
    directory: bool,
    archive: bool,
    allocation: bool,
    contiguous: bool,
)
    requires
        call_ensures(FileAttributes::is_read_only, (a,), read_only),
        call_ensures(FileAttributes::is_hidden, (a,), hidden),
        call_ensures(FileAttributes::is_system, (a,), system),
        call_ensures(FileAttributes::is_directory, (a,), directory),
        call_ensures(FileAttributes::is_archive, (a,), archive),
        call_ensures(GeneralSecondaryFlags::allocation_possible, (f,), allocation),
        call_ensures(GeneralSecondaryFlags::no_fat_chain, (f,), contiguous),
    ensures
        read_only <==> a.0 % 2 == 1,
        hidden <==> (a.0 / 2) % 2 == 1,
        system <==> (a.0 / 4) % 2 == 1,
        directory <==> (a.0 / 16) % 2 == 1,
        archive <==> (a.0 / 32) % 2 == 1,
        allocation <==> f.0 % 2 == 1,
        contiguous <==> (f.0 / 2) % 2 == 1,
{
    law_attributes(a);
    law_secondary_flags(f);
}

/// New entries say what they were asked to say.
pub proof fn law_new_entries(
    data_len: u64,
    b: BitmapEntry,
    index: u8,
    cluster: u32,
    t: UpcaseTableEntry,
    label: Label,
    l: VolumeLabelEntry,
)
    requires
        call_ensures(BitmapEntry::new, (data_len,), b),
        call_ensures(BitmapEntry::index, (&b,), index),
        call_ensures(UpcaseTableEntry::new, (cluster,), t),
        call_ensures(VolumeLabelEntry::new, (label,), l),
    ensures
        b.flags == 0 && b.first_cluster == 2 && b.data_len == data_len,
        zero_between(b._reserved@, 0, 18),
        index == 0,
        t.first_cluster == cluster && t.table_checksum == 0xE619_D30D && t.data_len == 5836,
        zero_between(t._reserved1@, 0, 3),
        zero_between(t._reserved2@, 0, 12),
        l.character_count == label.1 && l.volume_label == label.0 && l._reserved == 0,
{
    assert(0u8 & 1 == 0) by (bit_vector);
}

/// Which of the bitmaps one is, is its lowest flag.
pub proof fn law_bitmap_index(b: &BitmapEntry, index: u8)
    requires
        call_ensures(BitmapEntry::index, (b,), index),
    ensures
        index == b.flags % 2,
{
    let v = b.flags;
    assert(v & 1 == v % 2) by (bit_vector);
}

/// The entry of an identifier holds it and a checksum that is its own.
pub proof fn law_new_guid(guid: u128, e: VolumeGuidEntry, sum: u16)
    requires
        call_ensures(VolumeGuidEntry::new, (guid,), e),
        call_ensures(DirEntry::checksum, (&DirEntry::VolumeGuid(e), 0), sum),
    ensures
        e.volume_guid == guid,
        e.set_checksum == sum,
        e.secondary_count == 0 && e.general_primary_flag == 0,
        zero_between(e._reserved@, 0, 10),
{
}

/// Points in time are kept as they are given.
pub proof fn law_times(
    timestamp: u32,
    increment: u8,
    offset: i8,
    t: Timestamp,
    u: Timestamp,
    v: Timestamp,
    all: Timestamps,
)
    requires
        call_ensures(Timestamp::new, (timestamp, increment, offset), t),
        call_ensures(Timestamps::new, (t, u, v), all),
    ensures
        t.timestamp == timestamp && t.increment_10ms == increment && t.utc_offset == offset,
        all.created == t && all.modified == u && all.accessed == v,
{
}

/// A file or directory that is put together from its entries has the name that they
/// spell: as UTF-16 it is their pairs of bytes, one entry behind the other, as many as
/// the stream extension says. Its attributes, stream and times are those of the
/// entries.
pub proof fn law_put_together<E>(
    file_entry: &FileEntry,
    stream: &StreamExtensionEntry,
    names: &Vec<FileNameEntry>,
    r: Result<ParsedFileEntry, FileParserError<E>>,
)
    requires
        call_ensures(ParsedFileEntry::assemble::<E>, (file_entry, stream, names), r),
    ensures
        r matches Ok(p) ==> {
            &&& utf16(p.name@).len() == stream.name_length
            &&& forall|k: int|
                0 <= k < stream.name_length ==> #[trigger] utf16(p.name@)[k] == two(
                    names@[k / 15].file_name@,
                    2 * (k % 15),
                )
            &&& p.attributes == file_entry.file_attributes
            &&& p.stream_extension_entry == *stream
            &&& p.timestamps.created.timestamp == file_entry.create_timestamp
            &&& p.timestamps.created.increment_10ms == file_entry.create_10ms_increment
            &&& p.timestamps.modified.timestamp == file_entry.last_modified_timestamp
            &&& p.timestamps.modified.increment_10ms == file_entry.last_modified_10ms_increment
            &&& p.timestamps.accessed.timestamp == file_entry.last_accessed_timestamp
            &&& p.timestamps.accessed.increment_10ms == 0
            &&& is_offset(p.timestamps.created.utc_offset, file_entry.create_utc_offset)
            &&& is_offset(p.timestamps.modified.utc_offset, file_entry.last_modified_utc_offset)
            &&& is_offset(p.timestamps.accessed.utc_offset, file_entry.last_accessed_utc_offset)
        },
        ({
            let enough = 15 * (names@.len() - 1) < stream.name_length <= 15 * names@.len();
            &&& r matches Err(e) ==> e == if enough {
                FileParserError::<E>::InvalidFileName
            } else {
                FileParserError::WrongFileNameEntries
            }
            &&& r is Ok <==> enough && exists|parts: Seq<Seq<char>>| #[trigger]
                spell_parts(names@, stream.name_length as int, parts)
        }),
{
    law_name_is_put_together::<E>(*file_entry, *stream, names@);
    if let Ok(p) = r {
        law_name_is_what_entries_hold::<E>(*file_entry, *stream, names@, p@);
        law_times_are_those_of_the_entry::<E>(*file_entry, *stream, names@, p@);
    }
}

/// The bytes of the root directory of a new volume: the label, the identifier with
/// its checksum or an entry out of use, the allocation bitmap of the given length,
/// and the up-case table at the given cluster.
pub proof fn law_new_root(
    label: Label,
    guid: Option<u128>,
    bitmap_length_bytes: u64,
    uptable_start_cluster: u32,
    root: RawRoot,
    bytes: Vec<u8>,
)
    requires
        call_ensures(
            RawRoot::new,
            (label, guid, bitmap_length_bytes, uptable_start_cluster),
            root,
        ),
        call_ensures(RawRoot::bytes, (root,), bytes),
    ensures
        ({
            let b = bytes@;
            &&& b.len() == 128
            &&& b[0] == 0x83 && b[1] == label.1 && b.subrange(2, 24) == label.0@
            &&& eight(b, 24) == 0
            &&& guid is None ==> b[32] == 0x20 && zero_between(b, 33, 64)
            &&& guid matches Some(guid) ==> {
                &&& b[32] == 0xA0 && b[33] == 0 && two(b, 36) == 0
                &&& two(b, 34) == checksum_of(0, b.subrange(32, 34) + b.subrange(36, 64))
                &&& sixteen(b, 38) == guid
                &&& zero_between(b, 54, 64)
            }
            &&& b[64] == 0x81 && b[65] == 0 && zero_between(b, 66, 84)
            &&& four(b, 84) == 2
            &&& eight(b, 88) == bitmap_length_bytes
            &&& b[96] == 0x82 && zero_between(b, 97, 100) && zero_between(b, 104, 116)
            &&& four(b, 100) == 0xE619_D30D
            &&& four(b, 116) == uptable_start_cluster
            &&& eight(b, 120) == 5836
        }),
{
    let entries = root.entries();
    law_new_root_label(entries, label, guid, bitmap_length_bytes, uptable_start_cluster);
    law_new_root_guid(entries, label, guid, bitmap_length_bytes, uptable_start_cluster);
    law_new_root_bitmap(entries, label, guid, bitmap_length_bytes, uptable_start_cluster);
    law_new_root_upcase_table(entries, label, guid, bitmap_length_bytes, uptable_start_cluster);
}

/// The boot sector is read from the places of its fields.
pub proof fn law_boot_sector_read(sector: &[u8], boot: BootSector)
    requires
        sector@.len() == 512,
        call_ensures(BootSector::parse, (sector,), boot),
    ensures
        boot.filesystem_name@ == sector@.subrange(3, 11),
        boot.fat_offset == four(sector@, 80),
        boot.fat_length == four(sector@, 84),
        boot.cluster_heap_offset == four(sector@, 88),
        boot.cluster_count == four(sector@, 92),
        boot.first_cluster_of_root_directory == four(sector@, 96),
        boot.volume_flags == two(sector@, 106),
        boot.bytes_per_sector_shift == sector@[108],
        boot.sectors_per_cluster_shift == sector@[109],
        boot.number_of_fats == sector@[110],
{
    law_boot_sector_bytes(boot, sector@);
}

/// A boot sector is accepted if and only if it names the file system, its sectors
/// and clusters have sizes that volumes can have, and the last of its one or two
/// FATs is in use. The first of these that fails is the reason why not.
pub proof fn law_boot_sector_checked<E>(boot: &BootSector, r: Result<(), RootError<E>>)
    requires
        call_ensures(BootSector::check::<E>, (boot,), r),
    ensures
        ({
            let name = named_exfat(boot.filesystem_name@);
            let sectors = 9 <= boot.bytes_per_sector_shift && boot.bytes_per_sector_shift <= 12;
            let clusters = boot.bytes_per_sector_shift + boot.sectors_per_cluster_shift <= 25;
            let fats = boot.number_of_fats == 1 + boot.volume_flags % 2;
            match r {
                Ok(_) => name && sectors && clusters && fats,
                Err(RootError::WrongFs) => !name,
                Err(RootError::InvalidBytesPerSectorShift(v)) => name && !sectors && v
                    == boot.bytes_per_sector_shift,
                Err(RootError::InvalidSectorsPerClusterShift(v)) => name && sectors && !clusters
                    && v == boot.sectors_per_cluster_shift,
                Err(RootError::InvalidNumberOfFats(v)) => name && sectors && clusters && !fats && v
                    == boot.number_of_fats,
                _ => false,
            }
        }),
{
    law_boot_sector_faults::<E>(*boot);
}

/// Where the clusters and the FAT in use are: the clusters one behind the other from
/// where the boot sector says, and the FAT where it says, or as much further on as a
/// FAT is long where the second is in use.
pub proof fn law_places(
    boot: &BootSector,
    size: u64,
    cluster: u32,
    at: Option<u64>,
    fat: u64,
)
    requires
        boot.valid(),
        call_ensures(BootSector::cluster_bytes, (boot,), size),
        call_ensures(BootSector::cluster_offset, (boot, cluster), at),
        call_ensures(BootSector::fat_byte_offset, (boot,), fat),
    ensures
        size == cluster_bytes(*boot),
        at is Some <==> 2 <= cluster && cluster - 2 < boot.cluster_count,
        at matches Some(o) ==> o == place_of_cluster(*boot, cluster - 2),
        fat == place_of_fat(*boot),
{
    law_fat_place(*boot, *boot, *boot);
    if cluster < u32::MAX {
        law_clusters_are_in_a_row(*boot, cluster, (cluster + 1) as u32);
    } else {
        law_clusters_are_in_a_row(*boot, (cluster - 1) as u32, cluster);
    }
    let k = cluster - 2;
    let c = cluster_bytes(*boot);
    assert((k - 1) * c + c == k * c) by (nonlinear_arith);
}

/// The FAT is loaded from its place on an image.
pub proof fn law_fat_loaded<O: ReadOffset>(
    device: &O,
    boot: &BootSector,
    image: Seq<u8>,
    r: Result<Fat, FatError<O::Err>>,
)
    requires
        boot.valid(),
        is_image(device.replies(), image),
        call_ensures(Fat::load::<O>, (device, boot), r),
    ensures
        match r {
            Ok(fat) => is_fat_of(fat@, *boot, image),
            Err(FatError::Io(e)) => e.is_unexpected_eop() && place_of_fat(*boot) + 4 * (
            boot.cluster_count + 2) > image.len(),
            Err(FatError::TooLarge(n)) => n == 4 * (boot.cluster_count + 2) && n > usize::MAX,
        },
{
    let loaded = match r {
        Ok(fat) => Ok(fat@),
        Err(e) => Err(e),
    };
    law_fat_is_loaded_from_its_place(*boot, device.replies(), image, loaded);
}

/// The clusters from one on are those to which the FAT leads, up to the end, and
/// there are none only where it can be followed for ever.
pub proof fn law_fat_followed(fat: &Fat, first: u32, n: nat, r: Option<Vec<u32>>)
    requires
        2 <= first < fat@.len(),
        n > 0,
        call_ensures(Fat::chain, (fat, first), r),
    ensures
        match r {
            Some(chain) => follows_to_end(fat@, first, chain@),
            None => exists|path: Seq<u32>| #[trigger] follows(fat@, first, path) && path.len() == n,
        },
{
    law_chain_follows_fat(fat@, first, n);
}

/// Reading a number of bytes of an image gives those that it holds there, all of
/// them, and fails only where it has not so many.
pub proof fn law_read_exact<O: ReadOffset>(
    device: &O,
    image: Seq<u8>,
    offset: u64,
    buffer: &mut [u8],
    r: Result<(), O::Err>,
)
    requires
        is_image(device.replies(), image),
        call_ensures(<O as ReadOffset>::read_exact, (device, offset, buffer), r),
    ensures
        final(buffer)@.len() == old(buffer)@.len(),
        match r {
            Ok(()) => old(buffer)@.len() > 0 ==> offset + old(buffer)@.len() <= image.len()
                && final(buffer)@ == image.subrange(
                offset as int,
                offset + old(buffer)@.len(),
            ),
            Err(e) => e.is_unexpected_eop() && old(buffer)@.len() > 0 && (offset
                + old(buffer)@.len() > image.len() || offset + old(buffer)@.len() > u64::MAX),
        },
{
    match r {
        Ok(()) => {
            if old(buffer)@.len() > 0 {
                law_image_delivers(device.replies(), image, offset as int, final(buffer)@);
            }
        },
        Err(e) => {
            law_image_fails(device.replies(), image, offset as int, old(buffer)@.len(), e);
        },
    }
}

/// Writing zeroes to a medium that behaves as a file makes bytes zero from the offset
/// on and changes no others: all that were asked for, or the first of them where it
/// fails.
pub proof fn law_write_zeroes<T: WriteSeek>(
    store: spec_fn(T) -> (Seq<u8>, nat),
    f: &mut T,
    size: u64,
    offset: u64,
    r: Result<(), T::Err>,
)
    requires
        behaves_as_file(store),
        call_ensures(write_zeroes::<T>, (f, size, offset), r),
    ensures
        exists|done: int|
            0 <= done <= size && #[trigger] zeroed(
                store(*old(f)).0,
                offset as int,
                done,
                store(*final(f)).0,
            ),
        r is Ok ==> zeroed(store(*old(f)).0, offset as int, size as int, store(*final(f)).0),
        r is Ok ==> store(*final(f)).1 == offset + size,
{
    let done = law_zeroes_are_written(store, *old(f), size, offset, r, *final(f));
    assert(zeroed(store(*old(f)).0, offset as int, done as int, store(*final(f)).0));
}

} // verus!
