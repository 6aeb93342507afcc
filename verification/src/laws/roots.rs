//! The root directory: what it tells of the volume, and every file and directory in
//! it, in order.
use vstd::prelude::*;

use crate::boot_sector::BootSector;
use crate::entry::parsed::parse_file;
use crate::entry::reader::Slot;
use crate::entry::{BitmapEntry, DirEntry, FileEntry, UpcaseTableEntry, VolumeLabelEntry};
use crate::error::RootError;
use crate::fs::{lemma_element_extends, node_of, Node};
use crate::label::Label;
use crate::laws::entries::law_uses;
use crate::laws::listings::{describes, entry_set};
use crate::root::{list_root, root_of, RootScan, RootView};

verus! {

/// What can stand in the root directory.
pub enum Thing<E> {
    Bitmap(BitmapEntry),
    UpcaseTable(UpcaseTableEntry),
    Label(VolumeLabelEntry),
    Unused(DirEntry),
    Element(FileEntry, Seq<Slot<E>>, Node),
}

/// The entries of something in the root directory.
pub open spec fn slots_of<E>(thing: Thing<E>) -> Seq<Slot<E>> {
    match thing {
        Thing::Bitmap(e) => seq![Ok(DirEntry::Bitmap(e))],
        Thing::UpcaseTable(e) => seq![Ok(DirEntry::UpcaseTable(e))],
        Thing::Label(e) => seq![Ok(DirEntry::VolumeLabel(e))],
        Thing::Unused(e) => seq![Ok(e)],
        Thing::Element(file_entry, set, _) => entry_set(file_entry, set),
    }
}

/// The entries of all of `things`, one behind the other.
pub open spec fn laid_out<E>(things: Seq<Thing<E>>) -> Seq<Slot<E>>
    decreases things.len(),
{
    if things.len() == 0 {
        Seq::empty()
    } else {
        laid_out(things.drop_last()) + slots_of(things.last())
    }
}

/// The allocation bitmaps among `things`, in order.
pub open spec fn bitmaps<E>(things: Seq<Thing<E>>) -> Seq<BitmapEntry>
    decreases things.len(),
{
    if things.len() == 0 {
        Seq::empty()
    } else {
        match things.last() {
            Thing::Bitmap(e) => bitmaps(things.drop_last()).push(e),
            _ => bitmaps(things.drop_last()),
        }
    }
}

/// The up-case tables among `things`, in order.
pub open spec fn tables<E>(things: Seq<Thing<E>>) -> Seq<UpcaseTableEntry>
    decreases things.len(),
{
    if things.len() == 0 {
        Seq::empty()
    } else {
        match things.last() {
            Thing::UpcaseTable(e) => tables(things.drop_last()).push(e),
            _ => tables(things.drop_last()),
        }
    }
}

/// The volume labels among `things`, in order.
pub open spec fn labels<E>(things: Seq<Thing<E>>) -> Seq<VolumeLabelEntry>
    decreases things.len(),
{
    if things.len() == 0 {
        Seq::empty()
    } else {
        match things.last() {
            Thing::Label(e) => labels(things.drop_last()).push(e),
            _ => labels(things.drop_last()),
        }
    }
}

/// The files and directories among `things`, in order.
pub open spec fn elements<E>(things: Seq<Thing<E>>) -> Seq<Node>
    decreases things.len(),
{
    if things.len() == 0 {
        Seq::empty()
    } else {
        match things.last() {
            Thing::Element(_, _, node) => elements(things.drop_last()).push(node),
            _ => elements(things.drop_last()),
        }
    }
}

/// All of `things` can stand in the root directory together: there are at most two
/// allocation bitmaps, the first and the second in this order, at most one up-case
/// table and at most one label, each such as a volume can have.
pub open spec fn can_stand<E>(boot: BootSector, fat: Seq<u32>, things: Seq<Thing<E>>) -> bool {
    &&& bitmaps(things).len() <= 2
    &&& forall|i: int|
        0 <= i < bitmaps(things).len() ==> {
            &&& (#[trigger] bitmaps(things)[i]).flags % 2 == i
            &&& bitmaps(things)[i].first_cluster >= 2
        }
    &&& tables(things).len() <= 1
    &&& tables(things).len() == 1 ==> tables(things)[0].first_cluster >= 2
    &&& labels(things).len() <= 1
    &&& labels(things).len() == 1 ==> labels(things)[0].character_count <= 11
    &&& forall|i: int|
        0 <= i < things.len() ==> match #[trigger] things[i] {
            Thing::Element(file_entry, set, node) => describes(boot, fat, (file_entry, set), node),
            Thing::Unused(e) => 1 <= e.encode()[0] <= 127,
            _ => true,
        }
}

/// What `things` tell of the volume.
spec fn told<E>(things: Seq<Thing<E>>) -> RootScan {
    let b = bitmaps(things);
    let t = tables(things);
    let l = labels(things);
    RootScan {
        first_bitmap: if b.len() > 0 {
            Some(b[0])
        } else {
            None
        },
        second_bitmap: if b.len() > 1 {
            Some(b[1])
        } else {
            None
        },
        upcase_table: if t.len() > 0 {
            Some(t[0])
        } else {
            None
        },
        volume_label: label_of(l),
    }
}

/// The label that an entry tells, where there is one.
pub open spec fn label_of(labels: Seq<VolumeLabelEntry>) -> Option<Label> {
    if labels.len() > 0 {
        Some(Label(labels[0].volume_label, labels[0].character_count))
    } else {
        None
    }
}

proof fn lemma_prefix_can_stand<E>(boot: BootSector, fat: Seq<u32>, things: Seq<Thing<E>>)
    requires
        things.len() > 0,
        can_stand(boot, fat, things),
    ensures
        can_stand(boot, fat, things.drop_last()),
{
    let front = things.drop_last();
    assert forall|i: int| 0 <= i < bitmaps(front).len() implies {
        &&& (#[trigger] bitmaps(front)[i]).flags % 2 == i
        &&& bitmaps(front)[i].first_cluster >= 2
    } by {
        assert(bitmaps(things)[i] == bitmaps(front)[i]);
    }
    if labels(front).len() > 0 {
        assert(labels(things)[0] == labels(front)[0]);
    }
    if tables(front).len() > 0 {
        assert(tables(things)[0] == tables(front)[0]);
    }
    assert forall|i: int| 0 <= i < front.len() implies match #[trigger] front[i] {
        Thing::Element(file_entry, set, node) => describes(boot, fat, (file_entry, set), node),
        Thing::Unused(e) => 1 <= e.encode()[0] <= 127,
        _ => true,
    } by {
        assert(front[i] == things[i]);
    }
}

proof fn lemma_bit(v: u8)
    ensures
        v & 1 == v % 2,
{
    assert(v & 1 == v % 2) by (bit_vector);
}

/// One more thing turns what was told before into what is told with it.
proof fn lemma_one_more<E>(
    boot: BootSector,
    fat: Seq<u32>,
    things: Seq<Thing<E>>,
    rest: Seq<Slot<E>>,
)
    requires
        things.len() > 0,
        can_stand(boot, fat, things),
    ensures
        ({
            let front = things.drop_last();
            list_root(
                boot,
                fat,
                slots_of(things.last()) + rest,
                told(front),
                elements(front),
            ) == list_root(boot, fat, rest, told(things), elements(things))
        }),
{
    let front = things.drop_last();
    let slots = slots_of(things.last()) + rest;
    assert(things.last() == things[things.len() - 1]);
    lemma_prefix_can_stand(boot, fat, things);
    match things.last() {
        Thing::Bitmap(e) => {
            let entry = DirEntry::Bitmap(e);
            law_uses(entry);
            lemma_bit(e.flags);
            let n = bitmaps(front).len();
            assert(bitmaps(things)[n as int] == e);
            assert(e.flags % 2 == n);
            assert(slots[0]->Ok_0 == entry);
            assert(slots.skip(1) =~= rest);
            if n > 0 {
                assert(bitmaps(things)[0] == bitmaps(front)[0]);
            }
        },
        Thing::UpcaseTable(e) => {
            let entry = DirEntry::UpcaseTable(e);
            law_uses(entry);
            assert(tables(things)[tables(front).len() as int] == e);
            assert(slots[0]->Ok_0 == entry);
            assert(slots.skip(1) =~= rest);
        },
        Thing::Label(e) => {
            let entry = DirEntry::VolumeLabel(e);
            law_uses(entry);
            assert(labels(things)[labels(front).len() as int] == e);
            assert(slots[0]->Ok_0 == entry);
            assert(slots.skip(1) =~= rest);
        },
        Thing::Unused(e) => {
            law_uses(e);
            assert(slots[0]->Ok_0 == e);
            assert(slots.skip(1) =~= rest);
        },
        Thing::Element(file_entry, set, node) => {
            let entry = DirEntry::File(file_entry);
            law_uses(entry);
            assert(slots[0]->Ok_0 == entry);
            assert(slots.skip(1) =~= set + rest);
            lemma_element_extends(boot, fat, file_entry, set, rest);
            assert(slots.skip(1 + file_entry.secondary_count) =~= rest);
        },
    }
}

proof fn lemma_told<E>(
    boot: BootSector,
    fat: Seq<u32>,
    things: Seq<Thing<E>>,
    rest: Seq<Slot<E>>,
)
    requires
        can_stand(boot, fat, things),
    ensures
        root_of(boot, fat, laid_out(things) + rest) == list_root(
            boot,
            fat,
            rest,
            told(things),
            elements(things),
        ),
    decreases things.len(),
{
    if things.len() == 0 {
        assert(laid_out(things) + rest =~= rest);
    } else {
        let front = things.drop_last();
        let more = slots_of(things.last()) + rest;
        lemma_prefix_can_stand(boot, fat, things);
        lemma_told(boot, fat, front, more);
        assert(laid_out(things) + rest =~= laid_out(front) + more);
        lemma_one_more(boot, fat, things, rest);
    }
}

/// A root directory that holds things that can stand in it, and ends, is that of a
/// volume with the label among them, if there is one, and with exactly the files and
/// directories among them, in order, whatever comes behind the end. It lacks an
/// allocation bitmap where there are fewer than FATs, and an up-case table where
/// there is none; then the volume cannot be opened.
pub proof fn law_root_holds_all<E>(
    boot: BootSector,
    fat: Seq<u32>,
    things: Seq<Thing<E>>,
    end: DirEntry,
    rest: Seq<Slot<E>>,
)
    requires
        can_stand(boot, fat, things),
        end is EndOfDirectory || end is Invalid,
        boot.number_of_fats == 1 || boot.number_of_fats == 2,
    ensures
        root_of(boot, fat, laid_out(things) + (seq![Ok(end)] + rest)) == Some(
            if bitmaps(things).len() < boot.number_of_fats {
                Err(RootError::InvalidNumberOfAllocationBitmaps)
            } else if tables(things).len() == 0 {
                Err(RootError::InvalidNumberOfUpcaseTables)
            } else {
                Ok::<RootView, RootError<E>>(
                    RootView { label: label_of(labels(things)), items: elements(things) },
                )
            },
        ),
{
    let slots = seq![Ok(end)] + rest;
    lemma_told(boot, fat, things, slots);
    law_uses(end);
    assert(slots[0]->Ok_0 == end);
}

/// Behind things that can stand in the root directory, an entry that cannot stand
/// there any more keeps the volume from being opened, whatever follows it: a third
/// allocation bitmap, or one out of order or without a cluster; a second up-case
/// table, or one without a cluster; a second label, or one that is too long; an
/// entry that only stands behind others, or of a kind that is unknown there; and
/// one that cannot be read.
pub proof fn law_root_refuses<E>(
    boot: BootSector,
    fat: Seq<u32>,
    things: Seq<Thing<E>>,
    slot: Slot<E>,
    rest: Seq<Slot<E>>,
)
    requires
        can_stand(boot, fat, things),
    ensures
        ({
            let r = root_of(boot, fat, laid_out(things) + (seq![slot] + rest));
            match slot {
                Err(e) => r == Some(Err::<RootView, RootError<E>>(RootError::Reader(e))),
                Ok(DirEntry::Bitmap(e)) => {
                    let n = bitmaps(things).len();
                    &&& n == 2 ==> r == Some(
                        Err::<RootView, RootError<E>>(RootError::InvalidNumberOfAllocationBitmaps),
                    )
                    &&& n < 2 && (e.flags % 2 != n || e.first_cluster < 2) ==> r == Some(
                        Err::<RootView, RootError<E>>(RootError::InvalidAllocationBitmap),
                    )
                },
                Ok(DirEntry::UpcaseTable(e)) => {
                    let n = tables(things).len();
                    &&& n == 1 ==> r == Some(
                        Err::<RootView, RootError<E>>(RootError::InvalidNumberOfUpcaseTables),
                    )
                    &&& n == 0 && e.first_cluster < 2 ==> r == Some(
                        Err::<RootView, RootError<E>>(RootError::InvalidUpcaseTable),
                    )
                },
                Ok(DirEntry::VolumeLabel(e)) => {
                    let n = labels(things).len();
                    &&& n == 1 ==> r == Some(
                        Err::<RootView, RootError<E>>(RootError::InvalidNumberOfVolumeLabels),
                    )
                    &&& n == 0 && e.character_count > 11 ==> r == Some(
                        Err::<RootView, RootError<E>>(RootError::InvalidVolumeLabel),
                    )
                },
                Ok(DirEntry::VolumeGuid(_)) => r == Some(
                    Err::<RootView, RootError<E>>(RootError::UnexpectedRootEntry(0xA0)),
                ),
                Ok(DirEntry::StreamExtension(_)) => r == Some(
                    Err::<RootView, RootError<E>>(RootError::RootEntryNotPrimary(0xC0)),
                ),
                Ok(DirEntry::FileName(_)) => r == Some(
                    Err::<RootView, RootError<E>>(RootError::RootEntryNotPrimary(0xC1)),
                ),
                Ok(DirEntry::VendorExtension(_)) => r == Some(
                    Err::<RootView, RootError<E>>(RootError::RootEntryNotPrimary(0xE0)),
                ),
                Ok(DirEntry::VendorAllocation(_)) => r == Some(
                    Err::<RootView, RootError<E>>(RootError::RootEntryNotPrimary(0xE1)),
                ),
                Ok(_) => true,
            }
        }),
{
    let slots = seq![slot] + rest;
    lemma_told(boot, fat, things, slots);
    assert(slots[0] == slot);
    if let Ok(entry) = slot {
        law_uses(entry);
        if let DirEntry::Bitmap(e) = entry {
            lemma_bit(e.flags);
        }
    }
}

/// Entries that make up no file or directory, or none that can be read, keep the
/// volume from being opened, for that reason.
pub proof fn law_root_refuses_set<E>(
    boot: BootSector,
    fat: Seq<u32>,
    things: Seq<Thing<E>>,
    file_entry: FileEntry,
    set: Seq<Slot<E>>,
    rest: Seq<Slot<E>>,
)
    requires
        can_stand(boot, fat, things),
    ensures
        ({
            let r = root_of(boot, fat, laid_out(things) + (entry_set(file_entry, set) + rest));
            match parse_file(file_entry, set) {
                Some(Err(e)) => r == Some(
                    Err::<RootView, RootError<E>>(RootError::FileParser(e)),
                ),
                Some(Ok(parsed)) => node_of(boot, fat, parsed) matches Err(e) ==> r == Some(
                    Err::<RootView, RootError<E>>(RootError::ClusterChain(e)),
                ),
                None => true,
            }
        }),
{
    let entry = DirEntry::File(file_entry);
    let slots = entry_set(file_entry, set) + rest;
    lemma_told(boot, fat, things, slots);
    law_uses(entry);
    assert(slots[0]->Ok_0 == entry);
    assert(slots.skip(1) =~= set + rest);
    if parse_file(file_entry, set) is Some {
        lemma_element_extends(boot, fat, file_entry, set, rest);
    }
}

} // verus!
