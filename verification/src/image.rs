//! Volumes on devices that hold an image: what is read of them is what the image
//! holds.
use vstd::prelude::*;

use crate::boot_sector::{BootSector, BOOT_SECTOR_LEN};
use crate::cluster::{lemma_extent_wf, ClusterChainOptions, Extent};
use crate::disk::{
    delivers, fails, is_image, law_image_delivers, law_image_fails, PartitionError, Replies,
};
use crate::entry::reader::{
    all_ok, lemma_reads_in_place, lemma_whole_entry, may_read_all, slot_of, Slot,
};
use crate::entry::ENTRY_LEN;
use crate::error::{ClusterChainError, DirectoryError, FatError, RootError};
use crate::fat::{fat_len, fat_loads, words};
use crate::fs::directory::{decide_directory, list_directory, lists, DirectoryView};
use crate::fs::Node;
use crate::listing::{lemma_directory_goes_in_order, lemma_root_goes_in_order};
use crate::root::{
    decide_root, device_opens, root_extent, root_lists, root_of, volume_opens, RootScan, RootView,
};
use crate::scan::{goes_in_order, settles, Decide};

verus! {

/// What the entries of a directory are, where the volume holds `image`.
pub open spec fn entries_in<E>(extent: Extent, image: Seq<u8>) -> Seq<Slot<E>> {
    Seq::new(
        extent.data_length as nat / ENTRY_LEN as nat,
        |i: int|
            slot_of(
                Ok(extent.contents(image).subrange(ENTRY_LEN * i, ENTRY_LEN * i + ENTRY_LEN)),
            ),
    )
}

/// The entries that are read of a complete image are those that it holds, and
/// none of them fails to be read.
pub proof fn law_reads_entries_of_image<E: PartitionError>(
    extent: Extent,
    replies: Replies<E>,
    image: Seq<u8>,
    slots: Seq<Slot<E>>,
    i: int,
)
    requires
        extent.wf(),
        extent.intact(image.len()),
        is_image(replies, image),
        may_read_all(extent, replies, slots),
        0 <= i < slots.len(),
        i < entries_in::<E>(extent, image).len(),
        all_ok(slots.take(i)),
    ensures
        slots[i] == entries_in::<E>(extent, image)[i],
{
    lemma_reads_in_place(extent, replies, slots, i);
    let raw = choose|raw: Result<Seq<u8>, E>| #[trigger]
        extent.reads(replies, ENTRY_LEN * i, ENTRY_LEN as nat, raw) && slots[i] == slot_of(raw);
    lemma_whole_entry(extent, ENTRY_LEN * i);
    extent.law_read_gives_contents(replies, image, ENTRY_LEN * i, ENTRY_LEN as nat, raw);
}

pub proof fn lemma_first_failure<E>(slots: Seq<Slot<E>>) -> (i: int)
    requires
        !all_ok(slots),
    ensures
        0 <= i < slots.len(),
        all_ok(slots.take(i)),
        slots[i] is Err,
    decreases slots.len(),
{
    let front = slots.drop_last();
    if all_ok(front) {
        let i = slots.len() - 1;
        assert(slots.take(i) =~= front);
        if slots[i] is Ok {
            assert forall|k: int| 0 <= k < slots.len() implies (#[trigger] slots[k]) is Ok by {
                if k < i {
                    assert(front[k] is Ok);
                }
            }
        }
        i
    } else {
        let i = lemma_first_failure(front);
        assert(slots.take(i) =~= front.take(i));
        i
    }
}

/// Where the entries of a complete image decide, whatever is read of the image
/// decides the same.
pub proof fn lemma_image_decides<E: PartitionError, R>(
    extent: Extent,
    replies: Replies<E>,
    image: Seq<u8>,
    decide: Decide<E, R>,
    slots: Seq<Slot<E>>,
    r: R,
)
    requires
        extent.wf(),
        extent.intact(image.len()),
        is_image(replies, image),
        goes_in_order(decide),
        decide(entries_in(extent, image)) is Some,
        may_read_all(extent, replies, slots),
        settles(decide, slots, r),
    ensures
        decide(entries_in(extent, image)) == Some(r),
{
    let known = entries_in::<E>(extent, image);
    let n = slots.len() as int;
    let m = known.len() as int;
    if n == 0 {
        assert(slots =~= Seq::empty());
    }
    let front = slots.drop_last();
    if !all_ok(front) {
        let j = lemma_first_failure(front);
        let a = slots.take(j + 1);
        assert(a.drop_last() =~= front.take(j));
        assert(a.last() == front[j]);
        assert(decide(a) is Some);
    }
    assert forall|i: int| 0 <= i < n && i < m implies slots[i] == known[i] by {
        assert forall|k: int| 0 <= k < i implies (#[trigger] slots.take(i)[k]) is Ok by {
            assert(front[k] is Ok);
        }
        law_reads_entries_of_image(extent, replies, image, slots, i);
    }
    if n <= m {
        assert(known =~= slots + known.skip(n));
        assert(decide(slots + known.skip(n)) == decide(slots));
    } else {
        assert(slots.take(m) =~= known);
    }
}

/// Listing a directory of a complete image comes out as the entries that the
/// image holds say, wherever they say it before they end.
pub proof fn law_directory_of_image<E: PartitionError>(
    directory: DirectoryView,
    extent: Extent,
    replies: Replies<E>,
    image: Seq<u8>,
    r: Result<Seq<Node>, DirectoryError<E>>,
)
    requires
        directory.wf(),
        is_image(replies, image),
        directory.extent() == Ok::<Extent, ClusterChainError>(extent),
        extent.intact(image.len()),
        list_directory(
            directory.boot,
            directory.fat,
            entries_in::<E>(extent, image),
            Seq::empty(),
        ) is Some,
        lists(directory, replies, r),
    ensures
        list_directory(
            directory.boot,
            directory.fat,
            entries_in::<E>(extent, image),
            Seq::empty(),
        ) == Some(r),
{
    let boot = directory.boot;
    let fat = directory.fat;
    let decide = decide_directory::<E>(boot, fat, Seq::empty());
    lemma_directory_goes_in_order::<E>(boot, fat, Seq::empty());
    lemma_extent_wf(boot, fat, directory.stream.first_cluster, directory.options());
    let slots = choose|slots: Seq<Slot<E>>|
        {
            &&& #[trigger] may_read_all(extent, replies, slots)
            &&& settles(decide, slots, r)
        };
    lemma_image_decides(extent, replies, image, decide, slots, r);
}

/// The FAT that an image holds.
pub open spec fn fat_in(boot: BootSector, image: Seq<u8>) -> Seq<u32> {
    words(image.subrange(boot.fat_start(), boot.fat_start() + fat_len(boot)))
}

/// Opening the volume on a complete image comes out as the image says: its boot
/// sector has no fault, its FAT leads through the clusters of its root
/// directory, and the entries in them say what the volume is before they end.
pub proof fn law_volume_of_image<E: PartitionError>(
    boot: BootSector,
    extent: Extent,
    replies: Replies<E>,
    image: Seq<u8>,
    r: Result<RootView, RootError<E>>,
)
    requires
        is_image(replies, image),
        image.len() >= BOOT_SECTOR_LEN,
        boot.describes(image.take(BOOT_SECTOR_LEN as int)),
        boot.fault::<E>() is None,
        fat_len(boot) <= usize::MAX,
        boot.fat_start() + fat_len(boot) <= image.len(),
        root_extent(boot, fat_in(boot, image)) == Ok::<Extent, ClusterChainError>(extent),
        extent.intact(image.len()),
        root_of(boot, fat_in(boot, image), entries_in::<E>(extent, image)) is Some,
        device_opens(replies, r),
    ensures
        root_of(boot, fat_in(boot, image), entries_in::<E>(extent, image)) == Some(r),
{
    let fat = fat_in(boot, image);
    // the boot sector
    if r matches Err(RootError::Io(e)) && fails(replies, 0, BOOT_SECTOR_LEN as nat, e) {
        law_image_fails(replies, image, 0, BOOT_SECTOR_LEN as nat, r->Err_0->Io_0);
    }
    let (sector, told) = choose|sector: Seq<u8>, told: BootSector|
        {
            &&& sector.len() == BOOT_SECTOR_LEN
            &&& #[trigger] delivers(replies, 0, sector)
            &&& #[trigger] told.describes(sector)
            &&& volume_opens(told, replies, r)
        };
    law_image_delivers(replies, image, 0, sector);
    assert(sector =~= image.take(BOOT_SECTOR_LEN as int));
    BootSector::law_describes_one(told, boot, sector);
    // the FAT
    let loaded = choose|loaded: Result<Seq<u32>, FatError<E>>|
        {
            &&& #[trigger] fat_loads(replies, boot, loaded)
            &&& match loaded {
                Err(e) => r == Err::<RootView, RootError<E>>(RootError::Fat(e)),
                Ok(fat) => root_lists(boot, fat, replies, r),
            }
        };
    boot.lemma_fat_start();
    match loaded {
        Err(FatError::TooLarge(_)) => {},
        Err(FatError::Io(e)) => {
            law_image_fails(replies, image, boot.fat_start(), fat_len(boot), e);
        },
        Ok(entries) => {
            let raw = choose|raw: Seq<u8>|
                {
                    &&& raw.len() == fat_len(boot)
                    &&& #[trigger] delivers(replies, boot.fat_start(), raw)
                    &&& entries == words(raw)
                };
            law_image_delivers(replies, image, boot.fat_start(), raw);
            assert(entries == fat);
        },
    }
    // the root directory
    let decide = decide_root::<E>(boot, fat, RootScan::nothing(), Seq::empty());
    lemma_root_goes_in_order::<E>(boot, fat, RootScan::nothing(), Seq::empty());
    assert(fat.len() == boot.cluster_count + 2);
    lemma_extent_wf(
        boot,
        fat,
        boot.first_cluster_of_root_directory,
        ClusterChainOptions::Fat { data_length: None },
    );
    let slots = choose|slots: Seq<Slot<E>>|
        {
            &&& #[trigger] may_read_all(extent, replies, slots)
            &&& settles(decide, slots, r)
        };
    lemma_image_decides(extent, replies, image, decide, slots, r);
}

} // verus!
