//! Whole volumes: what opening one and listing a directory on it gives, said of the
//! bytes of the image that the device holds.
use vstd::prelude::*;

use crate::boot_sector::{BootSector, BOOT_SECTOR_LEN};
use crate::cluster::{extent_of, lemma_extent_wf, ClusterChainOptions, Extent};
use crate::disk::{
    delivers, fails, is_image, law_image_delivers, law_image_fails, PartitionError, Replies,
};
use crate::entry::parsed::{names_in, parse_file, ParsedFile};
use crate::entry::reader::{
    all_ok, lemma_reads_in_place, lemma_whole_entry, may_read_all, position_after, slot_of, Slot,
};
use crate::entry::{decode, DirEntry, FileEntry, FileNameEntry, ENTRY_LEN};
use crate::error::{
    ClusterChainError, DirEntryError, DirectoryError, EntryReaderError, FatError, FileParserError,
    RootError,
};
use crate::fat::fat_loads;
use crate::fs::directory::{
    decide_directory, directory_step, list_directory, lists, DirectoryStep, DirectoryView,
};
use crate::fs::{element_of, lemma_element_extends, Node};
use crate::image::{
    entries_in, fat_in, law_directory_of_image, law_reads_entries_of_image, law_volume_of_image,
    lemma_first_failure,
};
use crate::laws::entries::law_types;
use crate::laws::names::law_entry_set_is_whole;
use crate::laws::numbers::{four, lemma_values};
use crate::laws::places::{
    cluster_bytes, follows_to_end, is_fat_of, law_clusters_are_in_a_row,
    law_contents_lie_in_clusters, law_fat_is_loaded_from_its_place, law_fat_place,
    law_linked_clusters, law_positions_lie_in_clusters, place_of_cluster, place_of_fat,
};
use crate::listing::{lemma_directory_goes_in_order, lemma_root_goes_in_order};
use crate::root::{
    decide_root, device_opens, list_root, root_extent, root_lists, root_of, volume_opens, RootScan,
    RootStep, RootView,
};
use crate::scan::{goes_in_order, settles, Decide};

verus! {

/// What 32 bytes are as an entry: the entry that they spell, or none where there are
/// no entries of the type that they begin with. Of an invalid entry only the type
/// counts.
pub open spec fn holds<E>(b: Seq<u8>, slot: Slot<E>) -> bool {
    match slot {
        Ok(DirEntry::Invalid) => b[0] == 0x80,
        Ok(entry) => entry.wf() && entry.encode() == b,
        Err(EntryReaderError::Entry(DirEntryError::InvalidEntry(t))) => b[0] == t && (t == 0x84 || (
        0x86 <= t <= 0x9F) || (0xA1 <= t <= 0xBF) || (0xC2 <= t <= 0xDF) || 0xE2 <= t),
        Err(EntryReaderError::Io(_)) => false,
    }
}

/// `slots` are the entries in `bytes`, each in its 32 bytes, one behind the other.
pub open spec fn are_entries_in<E>(slots: Seq<Slot<E>>, bytes: Seq<u8>) -> bool {
    &&& slots.len() == bytes.len() / 32
    &&& forall|i: int|
        0 <= i < slots.len() ==> holds(bytes.subrange(32 * i, 32 * i + 32), #[trigger] slots[i])
}

proof fn lemma_entries_in<E>(extent: Extent, image: Seq<u8>, slots: Seq<Slot<E>>)
    requires
        are_entries_in(slots, extent.contents(image)),
    ensures
        slots == entries_in::<E>(extent, image),
{
    let bytes = extent.contents(image);
    let known = entries_in::<E>(extent, image);
    assert forall|i: int| 0 <= i < slots.len() implies slots[i] == known[i] by {
        let b = bytes.subrange(32 * i, 32 * i + 32);
        assert(holds(b, slots[i]));
        law_types(b);
        if let Ok(entry) = slots[i] {
            if !(entry is Invalid) {
                DirEntry::law_decode_of_encode(entry);
            }
        }
    }
    assert(slots =~= known);
}

/// The clusters of an extent are clusters of the volume and lie within the image.
pub open spec fn lies_within(extent: Extent, size: nat) -> bool {
    forall|k: int|
        0 <= k < extent.chain.len() ==> {
            &&& 2 <= #[trigger] extent.chain[k]
            &&& extent.chain[k] - 2 < extent.boot.cluster_count
            &&& place_of_cluster(extent.boot, extent.chain[k] - 2) + cluster_bytes(extent.boot)
                <= size
        }
}

pub proof fn lemma_intact(extent: Extent, image: Seq<u8>)
    requires
        extent.wf(),
        lies_within(extent, image.len()),
    ensures
        extent.intact(image.len()),
{
    assert forall|p: int| 0 <= p < extent.data_length implies extent.boot.has_cluster(
        #[trigger] extent.cluster_at(p),
    ) && extent.device_offset(p) < image.len() by {
        let at = law_positions_lie_in_clusters(extent, p);
        law_contents_lie_in_clusters(extent, image, at.0, at.1);
        let c = extent.chain[at.0];
        assert(extent.cluster_at(p) == c);
        assert(2 <= c && c - 2 < extent.boot.cluster_count);
        law_clusters_are_in_a_row(extent.boot, (c - 1) as u32, c);
        assert(extent.boot.has_cluster(c));
    }
}

/// Listing a directory whose clusters lie within the image comes out as the entries
/// say that the image holds there, where they say it before they end. Where they do
/// not, the partition has ended early.
pub proof fn law_directory_is_what_image_holds<E: PartitionError>(
    directory: DirectoryView,
    extent: Extent,
    replies: Replies<E>,
    image: Seq<u8>,
    slots: Seq<Slot<E>>,
    r: Result<Seq<Node>, DirectoryError<E>>,
)
    requires
        directory.wf(),
        is_image(replies, image),
        directory.extent() == Ok::<Extent, ClusterChainError>(extent),
        lies_within(extent, image.len()),
        are_entries_in(slots, extent.contents(image)),
        lists(directory, replies, r),
    ensures
        match list_directory(directory.boot, directory.fat, slots, Seq::empty()) {
            Some(s) => r == s,
            None => match r {
                Err(DirectoryError::Reader(EntryReaderError::Io(e))) => e.is_unexpected_eop(),
                Err(
                    DirectoryError::FileParser(FileParserError::Reader(EntryReaderError::Io(e))),
                ) => e.is_unexpected_eop(),
                _ => false,
            },
        },
{
    let boot = directory.boot;
    let fat = directory.fat;
    lemma_entries_in(extent, image, slots);
    lemma_extent_wf(boot, fat, directory.stream.first_cluster, directory.options());
    lemma_intact(extent, image);
    if list_directory(boot, fat, slots, Seq::empty()) is Some {
        law_directory_of_image(directory, extent, replies, image, r);
    } else {
        let decide = decide_directory::<E>(boot, fat, Seq::empty());
        lemma_directory_goes_in_order::<E>(boot, fat, Seq::empty());
        let read = choose|read: Seq<Slot<E>>|
            {
                &&& #[trigger] may_read_all(extent, replies, read)
                &&& settles(decide, read, r)
            };
        let e = lemma_image_runs_out(extent, replies, image, decide, read, r);
        lemma_directory_runs_out(boot, fat, slots, Seq::empty(), EntryReaderError::Io(e));
    }
}

/// Opening the volume on an image gives what the image says, byte for byte: the boot
/// sector is its first 512 bytes, the FAT lies where that says, the root directory
/// begins at the cluster that it names and goes on as the FAT says, and the entries
/// in it decide.
pub proof fn law_volume_is_what_image_holds<E: PartitionError>(
    boot: BootSector,
    fat: Seq<u32>,
    chain: Seq<u32>,
    extent: Extent,
    replies: Replies<E>,
    image: Seq<u8>,
    slots: Seq<Slot<E>>,
    r: Result<RootView, RootError<E>>,
)
    requires
        is_image(replies, image),
        image.len() >= 512,
        boot.describes(image.take(512)),
        boot.fault::<E>() is None,
        4 * (boot.cluster_count + 2) <= usize::MAX,
        is_fat_of(fat, boot, image),
        follows_to_end(fat, boot.first_cluster_of_root_directory, chain),
        extent.boot == boot,
        extent.chain == chain,
        extent.data_length == chain.len() * cluster_bytes(boot),
        lies_within(extent, image.len()),
        are_entries_in(slots, extent.contents(image)),
        device_opens(replies, r),
    ensures
        match root_of(boot, fat, slots) {
            Some(s) => r == s,
            None => match r {
                Err(RootError::Reader(EntryReaderError::Io(e))) => e.is_unexpected_eop(),
                Err(RootError::FileParser(FileParserError::Reader(EntryReaderError::Io(e)))) =>
                e.is_unexpected_eop(),
                _ => false,
            },
        },
{
    let first = boot.first_cluster_of_root_directory;
    lemma_fault_means_valid::<E>(boot);
    law_fat_place(boot, boot, boot);
    law_linked_clusters(boot, fat, first, None, chain);
    assert(root_extent(boot, fat)->Ok_0 =~= extent);
    lemma_extent_wf(boot, fat, first, ClusterChainOptions::Fat { data_length: None });
    lemma_entries_in(extent, image, slots);
    lemma_intact(extent, image);
    lemma_fat_in(boot, fat, image);
    if root_of(boot, fat, slots) is Some {
        law_volume_of_image(boot, extent, replies, image, r);
    } else {
        lemma_reaches_root(boot, fat, replies, image, r);
        assert(2 <= chain[0] && chain[0] < fat.len());
        let decide = decide_root::<E>(boot, fat, RootScan::nothing(), Seq::empty());
        lemma_root_goes_in_order::<E>(boot, fat, RootScan::nothing(), Seq::empty());
        let read = choose|read: Seq<Slot<E>>|
            {
                &&& #[trigger] may_read_all(extent, replies, read)
                &&& settles(decide, read, r)
            };
        let e = lemma_image_runs_out(extent, replies, image, decide, read, r);
        lemma_root_runs_out(
            boot,
            fat,
            slots,
            RootScan::nothing(),
            Seq::empty(),
            EntryReaderError::Io(e),
        );
    }
}

proof fn lemma_fault_means_valid<E>(boot: BootSector)
    requires
        boot.fault::<E>() is None,
    ensures
        boot.valid(),
{
}

proof fn lemma_fat_in(boot: BootSector, fat: Seq<u32>, image: Seq<u8>)
    requires
        boot.valid(),
        is_fat_of(fat, boot, image),
    ensures
        fat == fat_in(boot, image),
{
    law_fat_place(boot, boot, boot);
    boot.lemma_fat_start();
    let start = boot.fat_start();
    let raw = image.subrange(start, start + 4 * fat.len());
    let known = fat_in(boot, image);
    assert forall|i: int| 0 <= i < fat.len() implies fat[i] == known[i] by {
        lemma_values(raw, 4 * i);
        assert(four(raw, 4 * i) == four(
            image,
            start + 4 * i,
        ));
    }
    assert(fat =~= known);
}

/// Where the boot sector and the FAT of an image can be had, opening it comes to
/// listing the root directory.
proof fn lemma_reaches_root<E: PartitionError>(
    boot: BootSector,
    fat: Seq<u32>,
    replies: Replies<E>,
    image: Seq<u8>,
    r: Result<RootView, RootError<E>>,
)
    requires
        is_image(replies, image),
        image.len() >= 512,
        boot.describes(image.take(512)),
        boot.fault::<E>() is None,
        4 * (boot.cluster_count + 2) <= usize::MAX,
        is_fat_of(fat, boot, image),
        device_opens(replies, r),
    ensures
        root_lists(boot, fat, replies, r),
{
    lemma_reaches_boot_sector(boot, replies, image, r);
    lemma_fault_means_valid::<E>(boot);
    let loaded = choose|loaded: Result<Seq<u32>, FatError<E>>|
        {
            &&& #[trigger] fat_loads(replies, boot, loaded)
            &&& match loaded {
                Err(e) => r == Err::<RootView, RootError<E>>(RootError::Fat(e)),
                Ok(fat) => root_lists(boot, fat, replies, r),
            }
        };
    law_fat_is_loaded_from_its_place(boot, replies, image, loaded);
    lemma_fat_in(boot, fat, image);
    lemma_fat_in(boot, loaded->Ok_0, image);
}

proof fn lemma_reaches_boot_sector<E: PartitionError>(
    boot: BootSector,
    replies: Replies<E>,
    image: Seq<u8>,
    r: Result<RootView, RootError<E>>,
)
    requires
        is_image(replies, image),
        image.len() >= 512,
        boot.describes(image.take(512)),
        device_opens(replies, r),
    ensures
        volume_opens(boot, replies, r),
{
    if let Err(RootError::Io(e)) = r {
        if fails(replies, 0, BOOT_SECTOR_LEN as nat, e) {
            law_image_fails(replies, image, 0, BOOT_SECTOR_LEN as nat, e);
        }
    }
    let (sector, said) = choose|sector: Seq<u8>, said: BootSector|
        {
            &&& sector.len() == BOOT_SECTOR_LEN
            &&& #[trigger] delivers(replies, 0, sector)
            &&& #[trigger] said.describes(sector)
            &&& volume_opens(said, replies, r)
        };
    law_image_delivers(replies, image, 0, sector);
    assert(sector =~= image.take(512));
    BootSector::law_describes_one(said, boot, sector);
}

/// Why the volume on an image is not opened, before its root directory is read: the
/// image is too short for a boot sector, the boot sector has a fault, the image ends
/// before the FAT does or memory has no room for it, or the root directory begins at
/// no cluster of the volume or is in clusters that have no end.
pub proof fn law_volume_is_refused<E: PartitionError>(
    boot: BootSector,
    fat: Seq<u32>,
    replies: Replies<E>,
    image: Seq<u8>,
    r: Result<RootView, RootError<E>>,
)
    requires
        is_image(replies, image),
        device_opens(replies, r),
    ensures
        image.len() < 512 ==> (r matches Err(RootError::Io(e)) && e.is_unexpected_eop()),
        image.len() >= 512 && boot.describes(image.take(512)) ==> {
            let first = boot.first_cluster_of_root_directory;
            &&& boot.fault::<E>() matches Some(f) ==> r == Err::<RootView, RootError<E>>(f)
            &&& boot.fault::<E>() is None && 4 * (boot.cluster_count + 2) > usize::MAX ==> (
            r matches Err(RootError::Fat(_)))
            &&& boot.fault::<E>() is None && place_of_fat(boot) + 4 * (boot.cluster_count + 2)
                > image.len() ==> match r {
                Err(RootError::Fat(FatError::Io(e))) => e.is_unexpected_eop(),
                Err(RootError::Fat(FatError::TooLarge(n))) => n > usize::MAX,
                _ => false,
            }
            &&& boot.fault::<E>() is None && 4 * (boot.cluster_count + 2) <= usize::MAX
                && is_fat_of(fat, boot, image) ==> {
                &&& !(2 <= first && first - 2 < boot.cluster_count) ==> r == Err::<
                    RootView,
                    RootError<E>,
                >(RootError::InvalidRootDirectoryClusterIndex(first))
                &&& 2 <= first && first - 2 < boot.cluster_count && (forall|chain: Seq<u32>|
                    !#[trigger] follows_to_end(fat, first, chain)) ==> r == Err::<
                    RootView,
                    RootError<E>,
                >(RootError::ClusterChain(ClusterChainError::CyclicChain(first)))
            }
        },
{
    if image.len() < 512 {
        if let Err(RootError::Io(e)) = r {
            if fails(replies, 0, BOOT_SECTOR_LEN as nat, e) {
                law_image_fails(replies, image, 0, BOOT_SECTOR_LEN as nat, e);
            }
        }
        assert forall|sector: Seq<u8>|
            sector.len() == BOOT_SECTOR_LEN implies !#[trigger] delivers(replies, 0, sector) by {
            if delivers(replies, 0, sector) {
                law_image_delivers(replies, image, 0, sector);
            }
        }
    } else if boot.describes(image.take(512)) {
        lemma_reaches_boot_sector(boot, replies, image, r);
        if boot.fault::<E>() is None {
            lemma_fault_means_valid::<E>(boot);
            let loaded = choose|loaded: Result<Seq<u32>, FatError<E>>|
                {
                    &&& #[trigger] fat_loads(replies, boot, loaded)
                    &&& match loaded {
                        Err(e) => r == Err::<RootView, RootError<E>>(RootError::Fat(e)),
                        Ok(fat) => root_lists(boot, fat, replies, r),
                    }
                };
            law_fat_is_loaded_from_its_place(boot, replies, image, loaded);
            if 4 * (boot.cluster_count + 2) <= usize::MAX && is_fat_of(fat, boot, image) {
                lemma_reaches_root(boot, fat, replies, image, r);
                law_linked_clusters(
                    boot,
                    fat,
                    boot.first_cluster_of_root_directory,
                    None,
                    Seq::empty(),
                );
            }
        }
    }
}

/// Entries are read one behind the other. Past the bytes of the directory the
/// partition has ended; elsewhere an entry is what the 32 bytes in its place are, or
/// the error that reading them gives.
pub proof fn law_entry_is_read_in_place<E: PartitionError>(
    extent: Extent,
    replies: Replies<E>,
    slots: Seq<Slot<E>>,
    i: int,
)
    requires
        extent.wf(),
        may_read_all(extent, replies, slots),
        0 <= i < slots.len(),
        forall|k: int| 0 <= k < i ==> (#[trigger] slots[k]) is Ok,
    ensures
        32 * i + 32 > extent.data_length ==> (slots[i] matches Err(EntryReaderError::Io(e))
            && e.is_unexpected_eop()),
        32 * i + 32 <= extent.data_length ==> match slots[i] {
            Err(EntryReaderError::Io(e)) => extent.reads(replies, 32 * i, 32, Err(e)),
            slot => exists|b: Seq<u8>|
                {
                    &&& #[trigger] extent.reads(replies, 32 * i, 32, Ok(b))
                    &&& b.len() == 32
                    &&& slot is Ok <==> slot == Ok::<DirEntry, EntryReaderError<E>>(
                        decode(b)->Some_0,
                    ) && decode(b) is Some
                    &&& slot is Err ==> holds(b, slot)
                },
        },
{
    assert forall|k: int| 0 <= k < slots.take(i).len() implies (#[trigger] slots.take(
        i,
    )[k]) is Ok by {
        assert(slots[k] is Ok);
    }
    lemma_reads_in_place(extent, replies, slots, i);
    if 32 * i + 32 <= extent.data_length {
        lemma_whole_entry(extent, 32 * i);
        let raw = choose|raw: Result<Seq<u8>, E>| #[trigger]
            extent.reads(replies, ENTRY_LEN * i, ENTRY_LEN as nat, raw) && slots[i] == slot_of(
                raw,
            );
        match raw {
            Err(e) => {},
            Ok(b) => {
                law_types(b);
                assert(extent.reads(replies, 32 * i, 32, Ok(b)));
            },
        }
    }
}

/// Where the next entry is read: 32 bytes further on after each that was read,
/// whether it was an entry or not, and where it was after one that could not be had.
pub proof fn law_position_moves<E>(slots: Seq<Slot<E>>, slot: Slot<E>)
    ensures
        position_after::<E>(Seq::empty()) == 0,
        position_after(slots.push(slot)) - position_after(slots) == match slot {
            Ok(_) => 32,
            Err(EntryReaderError::Entry(_)) => 32,
            Err(EntryReaderError::Io(_)) => 0int,
        },
{
    assert(slots.push(slot).drop_last() =~= slots);
}

/// The entries `slots` decide on `r`, and none of their beginnings decides anything.
pub open spec fn just_decide<E, R>(
    decide: spec_fn(Seq<Slot<E>>) -> Option<R>,
    slots: Seq<Slot<E>>,
    r: R,
) -> bool {
    &&& decide(slots) == Some(r)
    &&& forall|k: int|
        0 <= k < slots.len() ==> decide(#[trigger] slots.subrange(0, k)) is None
}

/// Listing a directory on any device comes out as the entries decide that were read
/// of it, and no more of them are read than decide.
pub proof fn law_directory_of_device<E: PartitionError>(
    directory: DirectoryView,
    replies: Replies<E>,
    r: Result<Seq<Node>, DirectoryError<E>>,
)
    requires
        lists(directory, replies, r),
    ensures
        match directory.extent() {
            Err(e) => r == Err::<Seq<Node>, DirectoryError<E>>(DirectoryError::ClusterChain(e)),
            Ok(extent) => exists|slots: Seq<Slot<E>>|
                {
                    &&& #[trigger] may_read_all(extent, replies, slots)
                    &&& just_decide(
                        |s: Seq<Slot<E>>|
                            list_directory(directory.boot, directory.fat, s, Seq::empty()),
                        slots,
                        r,
                    )
                },
        },
{
    if let Ok(extent) = directory.extent() {
        let decide = decide_directory::<E>(directory.boot, directory.fat, Seq::empty());
        let slots = choose|slots: Seq<Slot<E>>|
            {
                &&& #[trigger] may_read_all(extent, replies, slots)
                &&& settles(decide, slots, r)
            };
        let plain = |s: Seq<Slot<E>>|
            list_directory(directory.boot, directory.fat, s, Seq::empty());
        assert forall|k: int| 0 <= k < slots.len() implies plain(
            #[trigger] slots.subrange(0, k),
        ) is None by {
            assert(slots.subrange(0, k) =~= slots.take(k));
            assert(decide(slots.take(k)) is None);
        }
        assert(decide(slots) == Some(r));
        assert(just_decide(plain, slots, r));
    }
}

/// Opening the volume on any device comes out as what is read of it says: the first
/// 512 bytes are the boot sector, which has no fault or is the reason; the FAT is
/// loaded or is the reason; and the entries of the root directory decide, no more of
/// them than that takes.
pub proof fn law_volume_of_device<E: PartitionError>(
    replies: Replies<E>,
    r: Result<RootView, RootError<E>>,
) -> (found: (BootSector, Seq<u32>, Seq<Slot<E>>))
    requires
        device_opens(replies, r),
    ensures
        ({
            let (boot, fat, slots) = found;
            let first = boot.first_cluster_of_root_directory;
            let sector_read = exists|sector: Seq<u8>| #[trigger]
                delivers(replies, 0, sector) && sector.len() == 512 && boot.describes(sector);
            match r {
                Err(RootError::Io(e)) => fails(replies, 0, 512, e),
                _ => sector_read && match boot.fault::<E>() {
                    Some(e) => r == Err::<RootView, RootError<E>>(e),
                    None => match r {
                        Err(RootError::Fat(e)) => fat_loads(replies, boot, Err(e)),
                        _ => fat_loads(replies, boot, Ok(fat)) && if !(2 <= first && first - 2
                            < boot.cluster_count) {
                            r == Err::<RootView, RootError<E>>(
                                RootError::InvalidRootDirectoryClusterIndex(first),
                            )
                        } else {
                            match extent_of(
                                boot,
                                fat,
                                first,
                                ClusterChainOptions::Fat { data_length: None },
                            ) {
                                Err(e) => r == Err::<RootView, RootError<E>>(
                                    RootError::ClusterChain(e),
                                ),
                                Ok(extent) => may_read_all(extent, replies, slots) && just_decide(
                                    |s: Seq<Slot<E>>| root_of(boot, fat, s),
                                    slots,
                                    r,
                                ),
                            }
                        },
                    },
                },
            }
        }),
{
    let none = (arbitrary::<BootSector>(), Seq::empty(), Seq::empty());
    if r matches Err(RootError::Io(e)) && fails(replies, 0, BOOT_SECTOR_LEN as nat, e) {
        none
    } else {
        let (sector, boot) = choose|sector: Seq<u8>, boot: BootSector|
            {
                &&& sector.len() == BOOT_SECTOR_LEN
                &&& #[trigger] delivers(replies, 0, sector)
                &&& #[trigger] boot.describes(sector)
                &&& volume_opens(boot, replies, r)
            };
        if boot.fault::<E>() is Some {
            (boot, Seq::empty(), Seq::empty())
        } else {
            let loaded = choose|loaded: Result<Seq<u32>, FatError<E>>|
                {
                    &&& #[trigger] fat_loads(replies, boot, loaded)
                    &&& match loaded {
                        Err(e) => r == Err::<RootView, RootError<E>>(RootError::Fat(e)),
                        Ok(fat) => root_lists(boot, fat, replies, r),
                    }
                };
            match loaded {
                Err(_) => (boot, Seq::empty(), Seq::empty()),
                Ok(fat) => {
                    let first = boot.first_cluster_of_root_directory;
                    if !boot.has_cluster(first) || root_extent(boot, fat) is Err {
                        (boot, fat, Seq::empty())
                    } else {
                        let extent = root_extent(boot, fat)->Ok_0;
                        let decide = decide_root::<E>(
                            boot,
                            fat,
                            RootScan::nothing(),
                            Seq::empty(),
                        );
                        let slots = choose|slots: Seq<Slot<E>>|
                            {
                                &&& #[trigger] may_read_all(extent, replies, slots)
                                &&& settles(decide, slots, r)
                            };
                        let plain = |s: Seq<Slot<E>>| root_of(boot, fat, s);
                        assert(decide(slots) == Some(r));
                        assert forall|k: int| 0 <= k < slots.len() implies plain(
                            #[trigger] slots.subrange(0, k),
                        ) is None by {
                            assert(slots.subrange(0, k) =~= slots.take(k));
                            assert(decide(slots.take(k)) is None);
                        }
                        lemma_root_error_kinds(boot, fat, slots, RootScan::nothing(), Seq::empty());
                        assert(just_decide(plain, slots, r));
                        (boot, fat, slots)
                    }
                },
            }
        }
    }
}

/// The entries of the root directory are never the reason that the boot sector or
/// the FAT could not be read.
proof fn lemma_root_error_kinds<E>(
    boot: BootSector,
    fat: Seq<u32>,
    slots: Seq<Slot<E>>,
    scan: RootScan,
    items: Seq<Node>,
)
    ensures
        list_root(boot, fat, slots, scan, items) matches Some(Err(e)) ==> !(e is Io) && !(e is Fat),
    decreases slots.len(),
{
    if slots.len() > 0 && slots[0] is Ok {
        match scan.after::<E>(slots[0]->Ok_0) {
            Ok((next, RootStep::Continue)) => {
                lemma_root_error_kinds(boot, fat, slots.skip(1), next, items);
            },
            Ok((next, RootStep::File(file_entry))) => {
                let used = 1 + file_entry.secondary_count;
                if let Some(Ok(node)) = element_of(boot, fat, file_entry, slots.skip(1)) {
                    if used <= slots.len() {
                        lemma_root_error_kinds(boot, fat, slots.skip(used), next, items.push(node));
                    }
                }
            },
            _ => {},
        }
    }
}

/// Where the entries that an image holds decide nothing, what is read is all of them
/// and the end of the partition.
proof fn lemma_image_runs_out<E: PartitionError, R>(
    extent: Extent,
    replies: Replies<E>,
    image: Seq<u8>,
    decide: Decide<E, R>,
    slots: Seq<Slot<E>>,
    r: R,
) -> (e: E)
    requires
        extent.wf(),
        extent.intact(image.len()),
        is_image(replies, image),
        goes_in_order(decide),
        decide(entries_in(extent, image)) is None,
        may_read_all(extent, replies, slots),
        settles(decide, slots, r),
    ensures
        e.is_unexpected_eop(),
        slots == entries_in::<E>(extent, image).push(Err(EntryReaderError::Io(e))),
{
    let known = entries_in::<E>(extent, image);
    let n = slots.len() as int;
    let m = known.len() as int;
    if n == 0 {
        assert(slots =~= Seq::empty());
    }
    let front = slots.drop_last();
    if !all_ok(front) {
        let j = lemma_first_failure(front);
        let a = slots.take(j + 1);
        assert(a.drop_last() =~= front.take(j));
        assert(a.last() == front[j]);
        assert(decide(a) is Some);
    }
    assert forall|i: int| 0 <= i < n && i < m implies slots[i] == known[i] by {
        assert forall|k: int| 0 <= k < i implies (#[trigger] slots.take(i)[k]) is Ok by {
            assert(front[k] is Ok);
        }
        law_reads_entries_of_image(extent, replies, image, slots, i);
    }
    if n <= m {
        assert(known =~= slots + known.skip(n));
        assert(decide(slots + known.skip(n)) == decide(slots));
    }
    assert forall|k: int| 0 <= k < m implies (#[trigger] slots.take(m)[k]) is Ok by {
        assert(front[k] is Ok);
    }
    lemma_reads_in_place(extent, replies, slots, m);
    assert(ENTRY_LEN * m + ENTRY_LEN > extent.data_length);
    let first = slots.take(m + 1);
    assert(first.drop_last() =~= slots.take(m));
    assert(first.last() == slots[m]);
    assert(decide(first) is Some);
    assert(n == m + 1);
    let e = slots[m]->Err_0->Io_0;
    assert(slots =~= known.push(Err(EntryReaderError::Io(e))));
    e
}

proof fn lemma_names_run_out<E>(slots: Seq<Slot<E>>, count: nat, x: EntryReaderError<E>)
    requires
        names_in(slots, count) is None,
    ensures
        names_in(slots.push(Err(x)), count) == Some(
            Err::<Seq<FileNameEntry>, FileParserError<E>>(FileParserError::Reader(x)),
        ),
    decreases count,
{
    if slots.len() > 0 {
        assert(slots.push(Err(x)).skip(1) =~= slots.skip(1).push(Err(x)));
        lemma_names_run_out(slots.skip(1), (count - 1) as nat, x);
    }
}

proof fn lemma_set_runs_out<E>(
    file_entry: FileEntry,
    slots: Seq<Slot<E>>,
    x: EntryReaderError<E>,
)
    requires
        parse_file(file_entry, slots) is None,
    ensures
        parse_file(file_entry, slots.push(Err(x))) == Some(
            Err::<ParsedFile, FileParserError<E>>(FileParserError::Reader(x)),
        ),
{
    if slots.len() > 0 {
        assert(slots.push(Err(x)).skip(1) =~= slots.skip(1).push(Err(x)));
        lemma_names_run_out(slots.skip(1), (file_entry.secondary_count - 1) as nat, x);
    }
}

proof fn lemma_set_stays<E>(
    boot: BootSector,
    fat: Seq<u32>,
    file_entry: FileEntry,
    slots: Seq<Slot<E>>,
    x: EntryReaderError<E>,
)
    requires
        element_of(boot, fat, file_entry, slots) is Some,
    ensures
        element_of(boot, fat, file_entry, slots.push(Err(x))) == element_of(
            boot,
            fat,
            file_entry,
            slots,
        ),
        element_of(boot, fat, file_entry, slots)->Some_0 is Ok ==> file_entry.secondary_count
            <= slots.len(),
{
    assert(slots.push(Err(x)) =~= slots + seq![Err(x)]);
    lemma_element_extends(boot, fat, file_entry, slots, seq![Err(x)]);
    if let Some(Ok(parsed)) = parse_file(file_entry, slots) {
        let names = law_entry_set_is_whole(file_entry, slots, parsed);
    }
}

proof fn lemma_directory_runs_out<E>(
    boot: BootSector,
    fat: Seq<u32>,
    slots: Seq<Slot<E>>,
    items: Seq<Node>,
    x: EntryReaderError<E>,
)
    requires
        list_directory(boot, fat, slots, items) is None,
    ensures
        ({
            let r = list_directory(boot, fat, slots.push(Err(x)), items);
            ||| r == Some(Err::<Seq<Node>, DirectoryError<E>>(DirectoryError::Reader(x)))
            ||| r == Some(
                Err::<Seq<Node>, DirectoryError<E>>(
                    DirectoryError::FileParser(FileParserError::Reader(x)),
                ),
            )
        }),
    decreases slots.len(),
{
    let all = slots.push(Err(x));
    if slots.len() > 0 {
        assert(all[0] == slots[0]);
        assert(all.skip(1) =~= slots.skip(1).push(Err(x)));
        match directory_step::<E>(slots[0]->Ok_0) {
            Ok(DirectoryStep::Skip) => {
                lemma_directory_runs_out(boot, fat, slots.skip(1), items, x);
            },
            Ok(DirectoryStep::File(file_entry)) => {
                let used = 1 + file_entry.secondary_count;
                if element_of(boot, fat, file_entry, slots.skip(1)) is None {
                    lemma_set_runs_out(file_entry, slots.skip(1), x);
                } else {
                    lemma_set_stays(boot, fat, file_entry, slots.skip(1), x);
                    let node = element_of(boot, fat, file_entry, slots.skip(1))->Some_0->Ok_0;
                    assert(all.skip(used) =~= slots.skip(used).push(Err(x)));
                    lemma_directory_runs_out(boot, fat, slots.skip(used), items.push(node), x);
                }
            },
            _ => {},
        }
    }
}

proof fn lemma_root_runs_out<E>(
    boot: BootSector,
    fat: Seq<u32>,
    slots: Seq<Slot<E>>,
    scan: RootScan,
    items: Seq<Node>,
    x: EntryReaderError<E>,
)
    requires
        list_root(boot, fat, slots, scan, items) is None,
    ensures
        ({
            let r = list_root(boot, fat, slots.push(Err(x)), scan, items);
            ||| r == Some(Err::<RootView, RootError<E>>(RootError::Reader(x)))
            ||| r == Some(
                Err::<RootView, RootError<E>>(RootError::FileParser(FileParserError::Reader(x))),
            )
        }),
    decreases slots.len(),
{
    let all = slots.push(Err(x));
    if slots.len() > 0 {
        assert(all[0] == slots[0]);
        assert(all.skip(1) =~= slots.skip(1).push(Err(x)));
        match scan.after::<E>(slots[0]->Ok_0) {
            Ok((next, RootStep::Continue)) => {
                lemma_root_runs_out(boot, fat, slots.skip(1), next, items, x);
            },
            Ok((next, RootStep::File(file_entry))) => {
                let used = 1 + file_entry.secondary_count;
                if element_of(boot, fat, file_entry, slots.skip(1)) is None {
                    lemma_set_runs_out(file_entry, slots.skip(1), x);
                } else {
                    lemma_set_stays(boot, fat, file_entry, slots.skip(1), x);
                    let node = element_of(boot, fat, file_entry, slots.skip(1))->Some_0->Ok_0;
                    assert(all.skip(used) =~= slots.skip(used).push(Err(x)));
                    lemma_root_runs_out(boot, fat, slots.skip(used), next, items.push(node), x);
                }
            },
            _ => {},
        }
    }
}

} // verus!
