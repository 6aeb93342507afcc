//! The root directory of a new volume.
use vstd::array::spec_array_fill_for_copy_type;
use vstd::prelude::*;

use crate::boot_sector::{BootSector, BOOT_SECTOR_LEN};
use crate::cluster::Extent;
use crate::disk::{is_image, zeroes, PartitionError, Replies};
use crate::entry::reader::Slot;
use crate::entry::{
    checksum_of, BitmapEntry, DirEntry, UpcaseTableEntry, VolumeGuidEntry, VolumeLabelEntry,
    DEFAULT_UPCASE_TABLE_CHECKSUM, DEFAULT_UPCASE_TABLE_LEN, ENTRY_LEN,
    FIRST_USABLE_CLUSTER_INDEX, VOLUME_GUID_ENTRY_TYPE,
};
use crate::error::{ClusterChainError, EntryReaderError, RootError};
use crate::fat::fat_len;
use crate::image::{entries_in, fat_in, law_volume_of_image};
use crate::label::{Label, MAX_LABEL_LEN};
use crate::le::push_all;
use crate::root::{
    device_opens, list_root, root_extent, root_of, RootScan, RootStep, RootView,
};

verus! {

/// The entries that the root directory of a new volume begins with.
pub struct RawRoot {
    vol_label: DirEntry,
    vol_guid: DirEntry,
    bitmap: DirEntry,
    uptable: DirEntry,
    items: Vec<DirEntry>,
}

/// `s` begins with `prefix`.
pub open spec fn begins_with(s: Seq<u8>, prefix: Seq<u8>) -> bool {
    s.len() >= prefix.len() && s.take(prefix.len() as int) == prefix
}

/// The bytes of entries, one after the other.
pub open spec fn encode_all(entries: Seq<DirEntry>) -> Seq<u8>
    decreases entries.len(),
{
    if entries.len() == 0 {
        Seq::empty()
    } else {
        encode_all(entries.drop_last()) + entries.last().encode()
    }
}

impl RawRoot {
    /// The entries in order.
    pub closed spec fn entries(self) -> Seq<DirEntry> {
        seq![self.vol_label, self.vol_guid, self.bitmap, self.uptable] + self.items@
    }

    /// The entries for a volume of this name, with an identifier or without, whose
    /// allocation bitmap has `bitmap_length_bytes` bytes and whose up-case table
    /// begins at `uptable_start_cluster`.
    pub fn new(
        volume_label: Label,
        volume_guid: Option<u128>,
        bitmap_length_bytes: u64,
        uptable_start_cluster: u32,
    ) -> (r: RawRoot)
        ensures
            is_new_root(
                r.entries(),
                volume_label,
                volume_guid,
                bitmap_length_bytes,
                uptable_start_cluster,
            ),
    {
        // create volume label entry
        let vol_label = DirEntry::VolumeLabel(VolumeLabelEntry::new(volume_label));

        // create volume GUID entry
        let vol_guid = if let Some(guid) = volume_guid {
            DirEntry::VolumeGuid(VolumeGuidEntry::new(guid))
        } else {
            DirEntry::new_unused(VOLUME_GUID_ENTRY_TYPE)
        };

        // create bitmap entry
        let bitmap = DirEntry::Bitmap(BitmapEntry::new(bitmap_length_bytes));

        // create upcase table entry
        let uptable = DirEntry::UpcaseTable(UpcaseTableEntry::new(uptable_start_cluster));

        let r = RawRoot { vol_label, vol_guid, bitmap, uptable, items: Vec::new() };
        proof {
            assert(0xA0u8 & 0x7F == 0x20u8) by (bit_vector);
            if volume_guid is None {
                assert(vol_guid.encode()[0] == vol_guid.type_byte());
                assert(vol_guid.payload() =~= vol_guid.encode().skip(1));
                assert(vol_guid.payload() =~= Seq::new(31, |i: int| 0u8));
            }
        }
        r
    }

    /// The bytes of the entries.
    pub fn bytes(self) -> (r: Vec<u8>)
        ensures
            r@ == encode_all(self.entries()),
    {
        let mut out: Vec<u8> = Vec::new();
        let ghost entries = self.entries();
        proof {
            reveal_with_fuel(encode_all, 5);
            assert(entries.take(4).drop_last() =~= entries.take(3));
            assert(entries.take(3).drop_last() =~= entries.take(2));
            assert(entries.take(2).drop_last() =~= entries.take(1));
            assert(entries.take(1).drop_last() =~= Seq::empty());
        }
        push_entry(&mut out, &self.vol_label);
        push_entry(&mut out, &self.vol_guid);
        push_entry(&mut out, &self.bitmap);
        push_entry(&mut out, &self.uptable);
        assert(out@ =~= encode_all(entries.take(4)));
        let mut i: usize = 0;
        while i < self.items.len()
            invariant
                i <= self.items@.len(),
                entries == self.entries(),
                out@ == encode_all(entries.take(4 + i)),
            decreases self.items@.len() - i,
        {
            push_entry(&mut out, &self.items[i]);
            assert(entries.take(4 + i + 1).drop_last() =~= entries.take(4 + i));
            i = i + 1;
        }
        assert(entries.take(4 + i) =~= entries);
        out
    }
}

fn push_entry(out: &mut Vec<u8>, entry: &DirEntry)
    ensures
        final(out)@ == old(out)@ + entry.encode(),
{
    let bytes = entry.bytes();
    push_all(out, &bytes);
}

/// `entries` are those of a new volume: its label, its identifier or an unused
/// entry in its place, its allocation bitmap and its up-case table.
pub open spec fn is_new_root(
    entries: Seq<DirEntry>,
    label: Label,
    guid: Option<u128>,
    bitmap_length_bytes: u64,
    uptable_start_cluster: u32,
) -> bool {
    &&& entries.len() == 4
    &&& entries[0] matches DirEntry::VolumeLabel(e) && {
        &&& e.volume_label == label.0
        &&& e.character_count == label.1
        &&& e._reserved == 0
    }
    &&& match guid {
        Some(guid) => entries[1] matches DirEntry::VolumeGuid(e) && {
            &&& e.volume_guid == guid
            &&& e.secondary_count == 0
            &&& e.general_primary_flag == 0
            &&& e._reserved@ == Seq::new(10, |i: int| 0u8)
            &&& e.set_checksum == checksum_of(0, entries[1].checked_bytes())
        },
        None => entries[1] matches DirEntry::Unused(t, rest) && {
            &&& t == 0x20
            &&& rest@ == Seq::new(31, |i: int| 0u8)
        },
    }
    &&& entries[2] matches DirEntry::Bitmap(e) && {
        &&& e.flags == 0
        &&& e._reserved@ == Seq::new(18, |i: int| 0u8)
        &&& e.first_cluster == FIRST_USABLE_CLUSTER_INDEX
        &&& e.data_len == bitmap_length_bytes
    }
    &&& entries[3] matches DirEntry::UpcaseTable(e) && {
        &&& e._reserved1@ == Seq::new(3, |i: int| 0u8)
        &&& e.table_checksum == DEFAULT_UPCASE_TABLE_CHECKSUM
        &&& e._reserved2@ == Seq::new(12, |i: int| 0u8)
        &&& e.first_cluster == uptable_start_cluster
        &&& e.data_len == DEFAULT_UPCASE_TABLE_LEN
    }
}

/// The bytes of entries stand one behind the other.
pub proof fn law_encode_all_slices(entries: Seq<DirEntry>, i: int)
    requires
        0 <= i < entries.len(),
    ensures
        encode_all(entries).len() == ENTRY_LEN * entries.len(),
        encode_all(entries).subrange(ENTRY_LEN * i, ENTRY_LEN * i + ENTRY_LEN)
            == entries[i].encode(),
    decreases entries.len(),
{
    let front = entries.drop_last();
    let all = encode_all(entries);
    let last = entries.last().encode();
    entries.last().lemma_encode_len();
    if front.len() > 0 {
        law_encode_all_slices(front, if i < front.len() {
            i
        } else {
            0
        });
    } else {
        assert(encode_all(front) =~= Seq::empty());
    }
    let part = all.subrange(ENTRY_LEN * i, ENTRY_LEN * i + ENTRY_LEN);
    if i < front.len() {
        assert(part =~= encode_all(front).subrange(ENTRY_LEN * i, ENTRY_LEN * i + ENTRY_LEN));
    } else {
        assert(part =~= last);
    }
}

/// The types of primary entries lack the bit that tells secondary ones.
proof fn lemma_primary_types()
    ensures
        0x81u8 & 0x40 == 0,
        0x82u8 & 0x40 == 0,
        0x83u8 & 0x40 == 0,
        0xA0u8 & 0x40 == 0,
{
    assert(0x81u8 & 0x40 == 0) by (bit_vector);
    assert(0x82u8 & 0x40 == 0) by (bit_vector);
    assert(0x83u8 & 0x40 == 0) by (bit_vector);
    assert(0xA0u8 & 0x40 == 0) by (bit_vector);
}

/// What is read of the bytes of well-formed entries and an entry of zeroes.
proof fn lemma_new_slots<E>(extent: Extent, image: Seq<u8>, entries: Seq<DirEntry>)
    requires
        entries.len() > 0,
        forall|i: int| 0 <= i < entries.len() ==> (#[trigger] entries[i]).wf(),
        begins_with(extent.contents(image), encode_all(entries) + zeroes(ENTRY_LEN as nat)),
    ensures
        entries_in::<E>(extent, image).len() > entries.len(),
        forall|i: int|
            0 <= i < entries.len() ==> #[trigger] entries_in::<E>(extent, image)[i] == Ok::<
                DirEntry,
                EntryReaderError<E>,
            >(entries[i]),
        entries_in::<E>(extent, image)[entries.len() as int] matches Ok(
            DirEntry::EndOfDirectory(_),
        ),
{
    let n = entries.len() as int;
    let contents = extent.contents(image);
    let all = encode_all(entries) + zeroes(ENTRY_LEN as nat);
    law_encode_all_slices(entries, 0);
    assert forall|i: int| 0 <= i < n implies #[trigger] entries_in::<E>(extent, image)[i] == Ok::<
        DirEntry,
        EntryReaderError<E>,
    >(entries[i]) by {
        law_encode_all_slices(entries, i);
        let from = ENTRY_LEN * i;
        let to = from + ENTRY_LEN;
        assert(contents.subrange(from, to) =~= contents.take(all.len() as int).subrange(from, to));
        assert(all.subrange(from, to) =~= encode_all(entries).subrange(from, to));
        DirEntry::law_decode_of_encode(entries[i]);
        assert(entries[i].encode()[0] == entries[i].type_byte());
    }
    let end = DirEntry::EndOfDirectory(spec_array_fill_for_copy_type::<u8, 31>(0));
    let from = ENTRY_LEN * n;
    let to = from + ENTRY_LEN;
    assert(contents.subrange(from, to) =~= contents.take(all.len() as int).subrange(from, to));
    assert(all.subrange(from, to) =~= end.encode());
    DirEntry::law_decode_of_encode(end);
}

/// An entry that adds nothing to the list is passed over.
proof fn lemma_passes<E>(
    boot: BootSector,
    fat: Seq<u32>,
    slots: Seq<Slot<E>>,
    i: int,
    scan: RootScan,
    next: RootScan,
)
    requires
        0 <= i < slots.len(),
        slots[i] is Ok,
        scan.after::<E>(slots[i]->Ok_0) == Ok::<(RootScan, RootStep), RootError<E>>(
            (next, RootStep::Continue),
        ),
    ensures
        list_root(boot, fat, slots.skip(i), scan, Seq::empty()) == list_root(
            boot,
            fat,
            slots.skip(i + 1),
            next,
            Seq::empty(),
        ),
{
    assert(slots.skip(i)[0] == slots[i]);
    assert(slots.skip(i).skip(1) =~= slots.skip(i + 1));
}

/// A root directory that begins with the bytes for a new volume without an
/// identifier and goes on with an entry of zeroes tells the label of the volume
/// and holds nothing else. There is one FAT, and the label and the up-case table
/// are such as a volume can have.
pub proof fn law_new_root_reads_back<E>(
    boot: BootSector,
    fat: Seq<u32>,
    extent: Extent,
    image: Seq<u8>,
    entries: Seq<DirEntry>,
    label: Label,
    bitmap_length_bytes: u64,
    uptable_start_cluster: u32,
)
    requires
        is_new_root(entries, label, None, bitmap_length_bytes, uptable_start_cluster),
        label.1 <= MAX_LABEL_LEN,
        uptable_start_cluster >= FIRST_USABLE_CLUSTER_INDEX,
        boot.number_of_fats == 1,
        begins_with(extent.contents(image), encode_all(entries) + zeroes(ENTRY_LEN as nat)),
    ensures
        root_of(boot, fat, entries_in::<E>(extent, image)) == Some(
            Ok::<RootView, RootError<E>>(RootView { label: Some(label), items: Seq::empty() }),
        ),
{
    let slots = entries_in::<E>(extent, image);
    lemma_new_slots::<E>(extent, image, entries);
    let nothing = RootScan::nothing();
    assert(0u8 & 1 == 0) by (bit_vector);
    lemma_primary_types();
    let e = entries[0]->VolumeLabel_0;
    assert(Label(e.volume_label, e.character_count) == label);
    let s1 = RootScan { volume_label: Some(label), ..nothing };
    let s3 = RootScan { first_bitmap: Some(entries[2]->Bitmap_0), ..s1 };
    let s4 = RootScan { upcase_table: Some(entries[3]->UpcaseTable_0), ..s3 };
    assert(slots.skip(0) =~= slots);
    lemma_passes(boot, fat, slots, 0, nothing, s1);
    lemma_passes(boot, fat, slots, 1, s1, s1);
    lemma_passes(boot, fat, slots, 2, s1, s3);
    lemma_passes(boot, fat, slots, 3, s3, s4);
}

/// What is written for a new volume without an identifier is read back: opening
/// a complete image whose root directory begins with its bytes and an entry of
/// zeroes gives the label, and nothing else.
pub proof fn law_new_volume_opens<E: PartitionError>(
    boot: BootSector,
    extent: Extent,
    replies: Replies<E>,
    image: Seq<u8>,
    entries: Seq<DirEntry>,
    label: Label,
    bitmap_length_bytes: u64,
    uptable_start_cluster: u32,
    r: Result<RootView, RootError<E>>,
)
    requires
        is_new_root(entries, label, None, bitmap_length_bytes, uptable_start_cluster),
        label.1 <= MAX_LABEL_LEN,
        uptable_start_cluster >= FIRST_USABLE_CLUSTER_INDEX,
        begins_with(extent.contents(image), encode_all(entries) + zeroes(ENTRY_LEN as nat)),
        is_image(replies, image),
        image.len() >= BOOT_SECTOR_LEN,
        boot.describes(image.take(BOOT_SECTOR_LEN as int)),
        boot.fault::<E>() is None,
        boot.number_of_fats == 1,
        fat_len(boot) <= usize::MAX,
        boot.fat_start() + fat_len(boot) <= image.len(),
        root_extent(boot, fat_in(boot, image)) == Ok::<Extent, ClusterChainError>(extent),
        extent.intact(image.len()),
        device_opens(replies, r),
    ensures
        r == Ok::<RootView, RootError<E>>(RootView { label: Some(label), items: Seq::empty() }),
{
    law_new_root_reads_back::<E>(
        boot,
        fat_in(boot, image),
        extent,
        image,
        entries,
        label,
        bitmap_length_bytes,
        uptable_start_cluster,
    );
    law_volume_of_image(boot, extent, replies, image, r);
}

/// The root directory that begins with the bytes for a new volume with an
/// identifier is refused: the entry that holds the identifier is none that is
/// known there.
pub proof fn law_new_root_with_guid_is_refused<E>(
    boot: BootSector,
    fat: Seq<u32>,
    extent: Extent,
    image: Seq<u8>,
    entries: Seq<DirEntry>,
    label: Label,
    guid: u128,
    bitmap_length_bytes: u64,
    uptable_start_cluster: u32,
)
    requires
        is_new_root(entries, label, Some(guid), bitmap_length_bytes, uptable_start_cluster),
        label.1 <= MAX_LABEL_LEN,
        begins_with(extent.contents(image), encode_all(entries) + zeroes(ENTRY_LEN as nat)),
    ensures
        root_of(boot, fat, entries_in::<E>(extent, image)) == Some(
            Err::<RootView, RootError<E>>(RootError::UnexpectedRootEntry(VOLUME_GUID_ENTRY_TYPE)),
        ),
{
    let slots = entries_in::<E>(extent, image);
    lemma_new_slots::<E>(extent, image, entries);
    let nothing = RootScan::nothing();
    lemma_primary_types();
    let e = entries[0]->VolumeLabel_0;
    let s1 = RootScan { volume_label: Some(Label(e.volume_label, e.character_count)), ..nothing };
    assert(slots.skip(0) =~= slots);
    lemma_passes(boot, fat, slots, 0, nothing, s1);
    assert(slots.skip(1)[0] == slots[1]);
}

} // verus!
