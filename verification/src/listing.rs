//! What the list of a directory depends on, and what is in it.
use vstd::prelude::*;

use crate::boot_sector::{BootSector, BOOT_SECTOR_LEN};
use crate::cluster::lemma_extent_wf;
use crate::disk::{delivers, is_image, PartitionError, Replies};
use crate::entry::parsed::{names_in, parse_file};
use crate::entry::reader::{all_ok, may_read_all, Slot};
use crate::entry::{ClusterAllocation, DirEntry, FileEntry};
use crate::error::{FatError, RootError};
use crate::fat::fat_loads;
use crate::fs::directory::{
    decide_directory, directory_step, list_directory, lists, DirectoryStep, DirectoryView,
};
use crate::fs::file::{law_file_has_its_length, stream_options, FileView};
use crate::fs::{all_as_listed, element_of, lemma_element_extends, Node};
use crate::root::{
    decide_root, device_opens, list_root, root_extent, root_lists, volume_opens, RootScan,
    RootStep, RootView,
};
use crate::scan::{goes_in_order, settles};

verus! {

proof fn lemma_names_end<E>(slots: Seq<Slot<E>>, count: nat)
    requires
        slots.len() > 0,
        all_ok(slots.drop_last()),
        slots.last() is Err,
    ensures
        names_in(slots, count) is Some,
        names_in(slots, count) matches Some(Ok(_)) ==> count < slots.len(),
    decreases count,
{
    if count > 0 && slots.len() > 1 {
        assert(slots[0] == slots.drop_last()[0]);
        let rest = slots.skip(1);
        assert(rest.drop_last() =~= slots.drop_last().skip(1));
        assert forall|i: int| 0 <= i < rest.drop_last().len() implies (
        #[trigger] rest.drop_last()[i]) is Ok by {
            assert(slots.drop_last()[i + 1] is Ok);
        }
        lemma_names_end(rest, (count - 1) as nat);
    }
}

/// What a file or directory is, is decided at the latest where an entry cannot be
/// read, and not otherwise than as an error there.
proof fn lemma_file_ends<E>(file_entry: FileEntry, slots: Seq<Slot<E>>)
    requires
        slots.len() > 0,
        all_ok(slots.drop_last()),
        slots.last() is Err,
    ensures
        parse_file(file_entry, slots) is Some,
        parse_file(file_entry, slots) matches Some(Ok(_)) ==> file_entry.secondary_count
            < slots.len(),
{
    if slots.len() > 1 {
        assert(slots[0] == slots.drop_last()[0]);
        let rest = slots.skip(1);
        assert(rest.drop_last() =~= slots.drop_last().skip(1));
        assert forall|i: int| 0 <= i < rest.drop_last().len() implies (
        #[trigger] rest.drop_last()[i]) is Ok by {
            assert(slots.drop_last()[i + 1] is Ok);
        }
        if file_entry.secondary_count >= 2 {
            lemma_names_end(rest, (file_entry.secondary_count - 1) as nat);
        }
    }
}

/// Entries of which the last cannot be read, without the first `n`.
proof fn lemma_tail_fails<E>(slots: Seq<Slot<E>>, n: int)
    requires
        0 <= n < slots.len(),
        all_ok(slots.drop_last()),
        slots.last() is Err,
    ensures
        all_ok(slots.skip(n).drop_last()),
        slots.skip(n).last() is Err,
{
    let rest = slots.skip(n).drop_last();
    assert forall|i: int| 0 <= i < rest.len() implies (#[trigger] rest[i]) is Ok by {
        assert(slots.drop_last()[i + n] is Ok);
    }
}

/// What entries of the root directory decide stands whatever follows them.
pub proof fn law_root_decided_stands<E>(
    boot: BootSector,
    fat: Seq<u32>,
    a: Seq<Slot<E>>,
    b: Seq<Slot<E>>,
    scan: RootScan,
    items: Seq<Node>,
)
    requires
        list_root(boot, fat, a, scan, items) is Some,
    ensures
        list_root(boot, fat, a + b, scan, items) == list_root(boot, fat, a, scan, items),
    decreases a.len(),
{
    let all = a + b;
    assert(all.skip(1) =~= a.skip(1) + b);
    match a[0] {
        Err(_) => {},
        Ok(entry) => match scan.after::<E>(entry) {
            Err(_) => {},
            Ok((_, RootStep::End)) => {},
            Ok((next, RootStep::Continue)) => {
                law_root_decided_stands(boot, fat, a.skip(1), b, next, items);
            },
            Ok((next, RootStep::File(file_entry))) => {
                lemma_element_extends(boot, fat, file_entry, a.skip(1), b);
                let used = 1 + file_entry.secondary_count;
                if let Some(Ok(node)) = element_of(boot, fat, file_entry, a.skip(1)) {
                    assert(all.skip(used) =~= a.skip(used) + b);
                    law_root_decided_stands(boot, fat, a.skip(used), b, next, items.push(node));
                }
            },
        },
    }
}

proof fn lemma_root_ends<E>(
    boot: BootSector,
    fat: Seq<u32>,
    slots: Seq<Slot<E>>,
    scan: RootScan,
    items: Seq<Node>,
)
    requires
        slots.len() > 0,
        all_ok(slots.drop_last()),
        slots.last() is Err,
    ensures
        list_root(boot, fat, slots, scan, items) is Some,
    decreases slots.len(),
{
    if slots.len() > 1 {
        assert(slots[0] == slots.drop_last()[0]);
        let entry = slots[0]->Ok_0;
        lemma_tail_fails(slots, 1);
        match scan.after::<E>(entry) {
            Err(_) => {},
            Ok((_, RootStep::End)) => {},
            Ok((next, RootStep::Continue)) => {
                lemma_root_ends(boot, fat, slots.skip(1), next, items);
            },
            Ok((next, RootStep::File(file_entry))) => {
                lemma_file_ends(file_entry, slots.skip(1));
                let used = 1 + file_entry.secondary_count;
                if let Some(Ok(node)) = element_of(boot, fat, file_entry, slots.skip(1)) {
                    lemma_tail_fails(slots, used);
                    lemma_root_ends(boot, fat, slots.skip(used), next, items.push(node));
                }
            },
        }
    }
}

/// What entries of a directory decide stands whatever follows them.
pub proof fn law_directory_decided_stands<E>(
    boot: BootSector,
    fat: Seq<u32>,
    a: Seq<Slot<E>>,
    b: Seq<Slot<E>>,
    items: Seq<Node>,
)
    requires
        list_directory(boot, fat, a, items) is Some,
    ensures
        list_directory(boot, fat, a + b, items) == list_directory(boot, fat, a, items),
    decreases a.len(),
{
    let all = a + b;
    assert(all.skip(1) =~= a.skip(1) + b);
    match a[0] {
        Err(_) => {},
        Ok(entry) => match directory_step::<E>(entry) {
            Err(_) => {},
            Ok(DirectoryStep::End) => {},
            Ok(DirectoryStep::Skip) => {
                law_directory_decided_stands(boot, fat, a.skip(1), b, items);
            },
            Ok(DirectoryStep::File(file_entry)) => {
                lemma_element_extends(boot, fat, file_entry, a.skip(1), b);
                let used = 1 + file_entry.secondary_count;
                if let Some(Ok(node)) = element_of(boot, fat, file_entry, a.skip(1)) {
                    assert(all.skip(used) =~= a.skip(used) + b);
                    law_directory_decided_stands(boot, fat, a.skip(used), b, items.push(node));
                }
            },
        },
    }
}

proof fn lemma_directory_ends<E>(
    boot: BootSector,
    fat: Seq<u32>,
    slots: Seq<Slot<E>>,
    items: Seq<Node>,
)
    requires
        slots.len() > 0,
        all_ok(slots.drop_last()),
        slots.last() is Err,
    ensures
        list_directory(boot, fat, slots, items) is Some,
    decreases slots.len(),
{
    if slots.len() > 1 {
        assert(slots[0] == slots.drop_last()[0]);
        let entry = slots[0]->Ok_0;
        lemma_tail_fails(slots, 1);
        match directory_step::<E>(entry) {
            Err(_) => {},
            Ok(DirectoryStep::End) => {},
            Ok(DirectoryStep::Skip) => {
                lemma_directory_ends(boot, fat, slots.skip(1), items);
            },
            Ok(DirectoryStep::File(file_entry)) => {
                lemma_file_ends(file_entry, slots.skip(1));
                let used = 1 + file_entry.secondary_count;
                if let Some(Ok(node)) = element_of(boot, fat, file_entry, slots.skip(1)) {
                    lemma_tail_fails(slots, used);
                    lemma_directory_ends(boot, fat, slots.skip(used), items.push(node));
                }
            },
        }
    }
}

/// The entries of the root directory are taken in order.
pub proof fn lemma_root_goes_in_order<E>(
    boot: BootSector,
    fat: Seq<u32>,
    scan: RootScan,
    items: Seq<Node>,
)
    ensures
        goes_in_order(decide_root::<E>(boot, fat, scan, items)),
{
    let decide = decide_root::<E>(boot, fat, scan, items);
    assert forall|a: Seq<Slot<E>>, b: Seq<Slot<E>>| decide(a) is Some implies #[trigger] decide(
        a + b,
    ) == decide(a) by {
        law_root_decided_stands(boot, fat, a, b, scan, items);
    }
    assert forall|a: Seq<Slot<E>>|
        a.len() > 0 && all_ok(a.drop_last()) && a.last() is Err implies #[trigger] decide(a)
        is Some by {
        lemma_root_ends(boot, fat, a, scan, items);
    }
}

/// The entries of a directory are taken in order.
pub proof fn lemma_directory_goes_in_order<E>(boot: BootSector, fat: Seq<u32>, items: Seq<Node>)
    ensures
        goes_in_order(decide_directory::<E>(boot, fat, items)),
{
    let decide = decide_directory::<E>(boot, fat, items);
    assert forall|a: Seq<Slot<E>>, b: Seq<Slot<E>>| decide(a) is Some implies #[trigger] decide(
        a + b,
    ) == decide(a) by {
        law_directory_decided_stands(boot, fat, a, b, items);
    }
    assert forall|a: Seq<Slot<E>>|
        a.len() > 0 && all_ok(a.drop_last()) && a.last() is Err implies #[trigger] decide(a)
        is Some by {
        lemma_directory_ends(boot, fat, a, items);
    }
}

/// How many entries belong to what `entry` begins.
pub open spec fn set_len(entry: DirEntry) -> int {
    match entry {
        DirEntry::File(file_entry) => 1 + file_entry.secondary_count,
        _ => 1,
    }
}

/// The entries of a directory that are in use: those out of use are left out
/// where a file or directory could begin, and so is all behind the entry that
/// ends the directory.
pub open spec fn in_use<E>(slots: Seq<Slot<E>>) -> Seq<Slot<E>>
    decreases slots.len(),
{
    if slots.len() == 0 {
        slots
    } else {
        match slots[0] {
            Err(_) => slots.take(1),
            Ok(entry) => if entry.is_unused() {
                in_use(slots.skip(1))
            } else if !entry.is_regular() {
                slots.take(1)
            } else if slots.len() <= set_len(entry) {
                slots
            } else {
                slots.take(set_len(entry)) + in_use(slots.skip(set_len(entry)))
            },
        }
    }
}

/// `slots` are entries that tell something alone and whole files and directories.
pub open spec fn whole_sets<E>(slots: Seq<Slot<E>>) -> bool
    decreases slots.len(),
{
    slots.len() == 0 || (slots[0] matches Ok(entry) && set_len(entry) <= slots.len() && whole_sets(
        slots.skip(set_len(entry)),
    ))
}

/// Entries out of use are in nobody's way where a file or directory could begin.
pub proof fn law_unused_are_left_out<E>(
    front: Seq<Slot<E>>,
    unused: Seq<Slot<E>>,
    rest: Seq<Slot<E>>,
)
    requires
        whole_sets(front),
        forall|i: int|
            0 <= i < unused.len() ==> (#[trigger] unused[i] matches Ok(entry) && entry.is_unused()),
    ensures
        in_use(front + unused + rest) == in_use(front + rest),
    decreases front.len() + unused.len(),
{
    if front.len() > 0 {
        let n = set_len(front[0]->Ok_0);
        let all = front + unused + rest;
        law_unused_are_left_out(front.skip(n), unused, rest);
        assert(all.skip(n) =~= front.skip(n) + unused + rest);
        assert((front + rest).skip(n) =~= front.skip(n) + rest);
        assert(all.take(n) =~= front.take(n));
        assert((front + rest).take(n) =~= front.take(n));
        if all.len() == n {
            assert(all =~= front + rest);
        } else if (front + rest).len() == n {
            assert(in_use((front + rest).skip(n)) =~= Seq::empty());
            assert(front.take(n) + Seq::<Slot<E>>::empty() =~= front + rest);
        }
    } else if unused.len() > 0 {
        assert(unused[0] is Ok);
        let all = front + unused + rest;
        law_unused_are_left_out(front, unused.skip(1), rest);
        assert(all.skip(1) =~= front + unused.skip(1) + rest);
    } else {
        assert(front + unused + rest =~= front + rest);
    }
}

/// What comes behind the entry that ends a directory is left out.
pub proof fn law_end_is_the_end<E>(front: Seq<Slot<E>>, end: DirEntry, rest: Seq<Slot<E>>)
    requires
        whole_sets(front),
        !end.is_unused(),
        !end.is_regular(),
    ensures
        in_use(front + seq![Ok(end)] + rest) == in_use(front + seq![Ok(end)]),
    decreases front.len(),
{
    let last = seq![Ok(end)];
    let all = front + last + rest;
    if front.len() > 0 {
        let n = set_len(front[0]->Ok_0);
        law_end_is_the_end(front.skip(n), end, rest);
        assert(all.skip(n) =~= front.skip(n) + last + rest);
        assert((front + last).skip(n) =~= front.skip(n) + last);
        assert(all.take(n) =~= (front + last).take(n));
        assert(all.take(1) =~= (front + last).take(1));
    } else {
        assert(all.take(1) =~= (front + last).take(1));
    }
}

/// As many entries as a file or directory announces decide what it is.
proof fn lemma_names_suffice<E>(slots: Seq<Slot<E>>, count: nat)
    requires
        slots.len() >= count,
    ensures
        names_in(slots, count) is Some,
    decreases count,
{
    if count > 0 {
        lemma_names_suffice(slots.skip(1), (count - 1) as nat);
    }
}

/// What a file or directory is does not depend on what comes behind its entries.
proof fn lemma_element_alone<E>(
    boot: BootSector,
    fat: Seq<u32>,
    file_entry: FileEntry,
    a: Seq<Slot<E>>,
    b: Seq<Slot<E>>,
)
    requires
        a.len() >= file_entry.secondary_count,
        b.len() >= file_entry.secondary_count,
        a.take(file_entry.secondary_count as int) == b.take(file_entry.secondary_count as int),
    ensures
        element_of(boot, fat, file_entry, a) == element_of(boot, fat, file_entry, b),
{
    let n = file_entry.secondary_count as int;
    let used = a.take(n);
    if n >= 2 {
        lemma_names_suffice(used.skip(1), (n - 1) as nat);
    }
    assert(a =~= used + a.skip(n));
    assert(b =~= used + b.skip(n));
    lemma_element_extends(boot, fat, file_entry, used, a.skip(n));
    lemma_element_extends(boot, fat, file_entry, used, b.skip(n));
}

/// The entries behind what `slots` begin with, with those out of use left out.
proof fn lemma_in_use_splits<E>(slots: Seq<Slot<E>>, n: int)
    requires
        0 < n <= slots.len(),
        slots[0] matches Ok(entry) && entry.is_regular() && set_len(entry) == n,
    ensures
        in_use(slots).len() >= n,
        in_use(slots).take(n) == slots.take(n),
        in_use(slots).skip(n) == in_use(slots.skip(n)),
        in_use(slots)[0] == slots[0],
{
    assert(in_use(slots).take(n) =~= slots.take(n));
    assert(in_use(slots).skip(n) =~= in_use(slots.skip(n)));
    assert(in_use(slots).take(n)[0] == slots.take(n)[0]);
}

/// What a directory holds depends on its entries in use alone: entries out of use
/// count for nothing between files and directories, and nothing counts behind the
/// entry that ends the directory.
pub proof fn law_directory_is_its_entries_in_use<E>(
    boot: BootSector,
    fat: Seq<u32>,
    slots: Seq<Slot<E>>,
    items: Seq<Node>,
)
    ensures
        list_directory(boot, fat, slots, items) == list_directory(boot, fat, in_use(slots), items),
    decreases slots.len(),
{
    if slots.len() > 0 && slots[0] is Ok {
        let entry = slots[0]->Ok_0;
        if entry.is_unused() {
            law_directory_is_its_entries_in_use(boot, fat, slots.skip(1), items);
        } else if entry.is_regular() && slots.len() >= set_len(entry) {
            let n = set_len(entry);
            lemma_in_use_splits(slots, n);
            if let Ok(DirectoryStep::File(file_entry)) = directory_step::<E>(entry) {
                let a = slots.skip(1);
                let b = in_use(slots).skip(1);
                assert(a.take(n - 1) =~= slots.take(n).skip(1));
                assert(b.take(n - 1) =~= in_use(slots).take(n).skip(1));
                lemma_element_alone(boot, fat, file_entry, a, b);
                if let Some(Ok(node)) = element_of(boot, fat, file_entry, a) {
                    law_directory_is_its_entries_in_use(
                        boot,
                        fat,
                        slots.skip(n),
                        items.push(node),
                    );
                }
            }
        }
    }
}

/// What the root directory holds depends on its entries in use alone: entries out
/// of use count for nothing between files, directories and the entries that tell
/// of the volume, and nothing counts behind the entry that ends the directory.
pub proof fn law_root_is_its_entries_in_use<E>(
    boot: BootSector,
    fat: Seq<u32>,
    slots: Seq<Slot<E>>,
    scan: RootScan,
    items: Seq<Node>,
)
    ensures
        list_root(boot, fat, slots, scan, items) == list_root(
            boot,
            fat,
            in_use(slots),
            scan,
            items,
        ),
    decreases slots.len(),
{
    if slots.len() > 0 && slots[0] is Ok {
        let entry = slots[0]->Ok_0;
        if entry.is_unused() {
            law_root_is_its_entries_in_use(boot, fat, slots.skip(1), scan, items);
        } else if entry.is_regular() && slots.len() >= set_len(entry) {
            let n = set_len(entry);
            lemma_in_use_splits(slots, n);
            match scan.after::<E>(entry) {
                Ok((next, RootStep::File(file_entry))) => {
                    let a = slots.skip(1);
                    let b = in_use(slots).skip(1);
                    assert(a.take(n - 1) =~= slots.take(n).skip(1));
                    assert(b.take(n - 1) =~= in_use(slots).take(n).skip(1));
                    lemma_element_alone(boot, fat, file_entry, a, b);
                    if let Some(Ok(node)) = element_of(boot, fat, file_entry, a) {
                        law_root_is_its_entries_in_use(
                            boot,
                            fat,
                            slots.skip(n),
                            next,
                            items.push(node),
                        );
                    }
                },
                Ok((next, RootStep::Continue)) => {
                    law_root_is_its_entries_in_use(boot, fat, slots.skip(1), next, items);
                },
                _ => {},
            }
        }
    }
}

proof fn lemma_element_as_listed<E>(
    boot: BootSector,
    fat: Seq<u32>,
    file_entry: FileEntry,
    slots: Seq<Slot<E>>,
)
    requires
        boot.valid(),
        fat.len() == boot.cluster_count + 2,
    ensures
        element_of(boot, fat, file_entry, slots) matches Some(Ok(node)) ==> node.as_listed(),
{
    if let Some(Ok(node)) = element_of(boot, fat, file_entry, slots) {
        let parsed = parse_file(file_entry, slots)->Some_0->Ok_0;
        let stream = parsed.stream;
        assert(stream.is_valid());
        if node is File {
            law_file_has_its_length(boot, fat, parsed.name, stream, parsed.timestamps);
            if stream.first_cluster != 0 {
                let options = stream_options(stream, stream.valid_data_length);
                lemma_extent_wf(boot, fat, stream.first_cluster, options);
            }
        }
    }
}

proof fn lemma_directory_as_listed<E>(
    boot: BootSector,
    fat: Seq<u32>,
    slots: Seq<Slot<E>>,
    items: Seq<Node>,
)
    requires
        boot.valid(),
        fat.len() == boot.cluster_count + 2,
        all_as_listed(items),
    ensures
        list_directory(boot, fat, slots, items) matches Some(Ok(all)) ==> all_as_listed(all),
    decreases slots.len(),
{
    if slots.len() > 0 && slots[0] is Ok {
        match directory_step::<E>(slots[0]->Ok_0) {
            Ok(DirectoryStep::Skip) => {
                lemma_directory_as_listed(boot, fat, slots.skip(1), items);
            },
            Ok(DirectoryStep::File(file_entry)) => {
                lemma_element_as_listed(boot, fat, file_entry, slots.skip(1));
                let used = 1 + file_entry.secondary_count;
                if let Some(Ok(node)) = element_of(boot, fat, file_entry, slots.skip(1)) {
                    if used <= slots.len() {
                        lemma_directory_as_listed(boot, fat, slots.skip(used), items.push(node));
                    }
                }
            },
            _ => {},
        }
    }
}

proof fn lemma_root_as_listed<E>(
    boot: BootSector,
    fat: Seq<u32>,
    slots: Seq<Slot<E>>,
    scan: RootScan,
    items: Seq<Node>,
)
    requires
        boot.valid(),
        fat.len() == boot.cluster_count + 2,
        all_as_listed(items),
    ensures
        list_root(boot, fat, slots, scan, items) matches Some(Ok(root)) ==> all_as_listed(
            root.items,
        ),
    decreases slots.len(),
{
    if slots.len() > 0 && slots[0] is Ok {
        match scan.after::<E>(slots[0]->Ok_0) {
            Ok((next, RootStep::Continue)) => {
                lemma_root_as_listed(boot, fat, slots.skip(1), next, items);
            },
            Ok((next, RootStep::File(file_entry))) => {
                lemma_element_as_listed(boot, fat, file_entry, slots.skip(1));
                let used = 1 + file_entry.secondary_count;
                if let Some(Ok(node)) = element_of(boot, fat, file_entry, slots.skip(1)) {
                    if used <= slots.len() {
                        lemma_root_as_listed(boot, fat, slots.skip(used), next, items.push(node));
                    }
                }
            },
            _ => {},
        }
    }
}

/// Every file in a directory that was listed stands at its first byte and has as
/// many bytes as it is long; every directory in it can be listed.
pub proof fn law_directory_lists_unread<E: PartitionError>(
    directory: DirectoryView,
    replies: Replies<E>,
    items: Seq<Node>,
)
    requires
        directory.wf(),
        lists(directory, replies, Ok(items)),
    ensures
        all_as_listed(items),
{
    let extent = directory.extent()->Ok_0;
    let decide = decide_directory::<E>(directory.boot, directory.fat, Seq::empty());
    let slots = choose|slots: Seq<Slot<E>>|
        {
            &&& #[trigger] may_read_all(extent, replies, slots)
            &&& settles(decide, slots, Ok(items))
        };
    assert(settles(decide, slots, Ok(items)));
    lemma_directory_as_listed(directory.boot, directory.fat, slots, Seq::empty());
}

/// Every file in the root directory of a volume that was opened stands at its
/// first byte and has as many bytes as it is long; every directory in it can be
/// listed.
pub proof fn law_volume_lists_unread<E: PartitionError>(replies: Replies<E>, root: RootView)
    requires
        device_opens(replies, Ok(root)),
    ensures
        all_as_listed(root.items),
{
    let r = Ok::<RootView, RootError<E>>(root);
    let (sector, boot) = choose|sector: Seq<u8>, boot: BootSector|
        {
            &&& sector.len() == BOOT_SECTOR_LEN
            &&& #[trigger] delivers(replies, 0, sector)
            &&& #[trigger] boot.describes(sector)
            &&& volume_opens(boot, replies, r)
        };
    let loaded = choose|loaded: Result<Seq<u32>, FatError<E>>|
        {
            &&& #[trigger] fat_loads(replies, boot, loaded)
            &&& match loaded {
                Err(e) => r == Err::<RootView, RootError<E>>(RootError::Fat(e)),
                Ok(fat) => root_lists(boot, fat, replies, r),
            }
        };
    let fat = loaded->Ok_0;
    let extent = root_extent(boot, fat)->Ok_0;
    let decide = decide_root::<E>(boot, fat, RootScan::nothing(), Seq::empty());
    let slots = choose|slots: Seq<Slot<E>>|
        {
            &&& #[trigger] may_read_all(extent, replies, slots)
            &&& settles(decide, slots, r)
        };
    assert(settles(decide, slots, r));
    lemma_root_as_listed(boot, fat, slots, RootScan::nothing(), Seq::empty());
}

/// Reading a file of a directory that was listed, from when it was listed until
/// nothing comes, gives its contents, which are as many bytes as it is long.
pub proof fn law_listed_file_reads_its_contents<E: PartitionError>(
    directory: DirectoryView,
    replies: Replies<E>,
    items: Seq<Node>,
    i: int,
    image: Seq<u8>,
    parts: Seq<Seq<u8>>,
)
    requires
        directory.wf(),
        lists(directory, replies, Ok(items)),
        0 <= i < items.len(),
        items[i] is File,
        is_image(replies, image),
        items[i]->File_0.reads_through(replies, parts),
    ensures
        parts.flatten() == items[i]->File_0.contents(image),
        parts.flatten().len() == items[i]->File_0.len,
{
    law_directory_lists_unread(directory, replies, items);
    lemma_unread_reads_contents(items[i]->File_0, replies, image, parts);
}

/// Reading a file of the root directory of a volume that was opened, from when it
/// was opened until nothing comes, gives its contents, which are as many bytes as
/// it is long.
pub proof fn law_root_file_reads_its_contents<E: PartitionError>(
    replies: Replies<E>,
    root: RootView,
    i: int,
    image: Seq<u8>,
    parts: Seq<Seq<u8>>,
)
    requires
        device_opens(replies, Ok(root)),
        0 <= i < root.items.len(),
        root.items[i] is File,
        is_image(replies, image),
        root.items[i]->File_0.reads_through(replies, parts),
    ensures
        parts.flatten() == root.items[i]->File_0.contents(image),
        parts.flatten().len() == root.items[i]->File_0.len,
{
    law_volume_lists_unread(replies, root);
    lemma_unread_reads_contents(root.items[i]->File_0, replies, image, parts);
}

proof fn lemma_unread_reads_contents<E: PartitionError>(
    file: FileView,
    replies: Replies<E>,
    image: Seq<u8>,
    parts: Seq<Seq<u8>>,
)
    requires
        file.unread(),
        is_image(replies, image),
        file.reads_through(replies, parts),
    ensures
        parts.flatten() == file.contents(image),
        parts.flatten().len() == file.len,
{
    file.law_reads_through_contents(replies, image, parts);
    assert(file.contents(image).skip(0) =~= file.contents(image));
}

} // verus!
