//! The root directory, and with it the volume.
use std::sync::Arc;
use vstd::prelude::*;

use crate::boot_sector::{BootSector, BOOT_SECTOR_LEN};
use crate::cluster::{extent_of, share, ClusterChainOptions, ClusterChainReader, Extent};
use crate::disk::{delivers, fails, PartitionError, ReadOffset, Replies};
use crate::entry::reader::{all_ok, may_read_all, DirEntryReader, Slot};
use crate::entry::{
    BitmapEntry, ClusterAllocation, DirEntry, FileEntry, UpcaseTableEntry, ENTRY_LEN,
};
use crate::error::{ClusterChainError, ElementError, FatError, RootError};
use crate::fat::{fat_loads, Fat};
use crate::fs::{element_of, element_view, nodes, read_element, FsElement, Node};
use crate::label::{Label, MAX_LABEL_LEN};
use crate::scan::{
    leads_to, lemma_file, lemma_leads_nowhere, lemma_leads_on, lemma_settles, settles, takes_file,
    Decide,
};

verus! {

/// What the root directory has told of the volume so far.
#[derive(Clone, Copy, Debug, PartialEq, Eq)]
pub struct RootScan {
    pub first_bitmap: Option<BitmapEntry>,
    pub second_bitmap: Option<BitmapEntry>,
    pub upcase_table: Option<UpcaseTableEntry>,
    pub volume_label: Option<Label>,
}

/// What an entry means for the list of what the root directory holds.
pub enum RootStep {
    /// It adds nothing to the list.
    Continue,
    /// It ends the list.
    End,
    /// A file or directory begins.
    File(FileEntry),
}

impl RootScan {
    /// Nothing has been told.
    pub open spec fn nothing() -> RootScan {
        RootScan {
            first_bitmap: None,
            second_bitmap: None,
            upcase_table: None,
            volume_label: None,
        }
    }

    /// What is known after one more entry and what the entry means, or why it
    /// cannot stand here.
    pub open spec fn after<E>(self, entry: DirEntry) -> Result<(RootScan, RootStep), RootError<E>> {
        if entry.is_unused() {
            Ok((self, RootStep::Continue))
        } else if !entry.is_regular() {
            Ok((self, RootStep::End))
        } else if !entry.is_primary() {
            Err(RootError::RootEntryNotPrimary(entry.type_byte()))
        } else {
            match entry {
                DirEntry::Bitmap(bitmap) => if self.second_bitmap is Some {
                    Err(RootError::InvalidNumberOfAllocationBitmaps)
                } else if bitmap.flags & 1 != (if self.first_bitmap is Some {
                    1u8
                } else {
                    0u8
                }) || !bitmap.is_valid() {
                    Err(RootError::InvalidAllocationBitmap)
                } else if self.first_bitmap is Some {
                    Ok((RootScan { second_bitmap: Some(bitmap), ..self }, RootStep::Continue))
                } else {
                    Ok((RootScan { first_bitmap: Some(bitmap), ..self }, RootStep::Continue))
                },
                DirEntry::UpcaseTable(table) => if self.upcase_table is Some {
                    Err(RootError::InvalidNumberOfUpcaseTables)
                } else if !table.is_valid() {
                    Err(RootError::InvalidUpcaseTable)
                } else {
                    Ok((RootScan { upcase_table: Some(table), ..self }, RootStep::Continue))
                },
                DirEntry::VolumeLabel(label) => if self.volume_label is Some {
                    Err(RootError::InvalidNumberOfVolumeLabels)
                } else if label.character_count > MAX_LABEL_LEN {
                    Err(RootError::InvalidVolumeLabel)
                } else {
                    Ok(
                        (
                            RootScan {
                                volume_label: Some(
                                    Label(label.volume_label, label.character_count),
                                ),
                                ..self
                            },
                            RootStep::Continue,
                        ),
                    )
                },
                DirEntry::File(file_entry) => Ok((self, RootStep::File(file_entry))),
                _ => Err(RootError::UnexpectedRootEntry(entry.type_byte())),
            }
        }
    }

    /// What a volume with this many FATs still lacks, if anything.
    pub open spec fn missing<E>(self, number_of_fats: u8) -> Option<RootError<E>> {
        if number_of_fats == 2 && self.second_bitmap is None || self.first_bitmap is None {
            Some(RootError::InvalidNumberOfAllocationBitmaps)
        } else if self.upcase_table is None {
            Some(RootError::InvalidNumberOfUpcaseTables)
        } else {
            None
        }
    }

    pub fn new() -> (r: Self)
        ensures
            r == RootScan::nothing(),
    {
        RootScan {
            first_bitmap: None,
            second_bitmap: None,
            upcase_table: None,
            volume_label: None,
        }
    }

    /// Takes in one more entry.
    pub fn take_in<E>(&mut self, entry: &DirEntry) -> (r: Result<RootStep, RootError<E>>)
        ensures
            match old(self).after::<E>(*entry) {
                Ok((next, step)) => r == Ok::<RootStep, RootError<E>>(step) && *final(self) == next,
                Err(e) => r == Err::<RootStep, RootError<E>>(e) && *final(self) == *old(self),
            },
    {
        // unused entries are ignored
        if entry.unused() {
            return Ok(RootStep::Continue);
        }
        if !entry.regular() {
            return Ok(RootStep::End);
        } else if !entry.primary() {
            return Err(RootError::RootEntryNotPrimary(entry.entry_type()));
        }
        match entry {
            DirEntry::Bitmap(bitmap) => {
                if self.second_bitmap.is_some() {
                    return Err(RootError::InvalidNumberOfAllocationBitmaps);
                }
                let index: u8 = if self.first_bitmap.is_some() {
                    1
                } else {
                    0
                };
                if index != bitmap.index() || !bitmap.valid() {
                    return Err(RootError::InvalidAllocationBitmap);
                }
                if index == 0 {
                    self.first_bitmap = Some(*bitmap);
                } else {
                    self.second_bitmap = Some(*bitmap);
                }
                Ok(RootStep::Continue)
            },
            DirEntry::UpcaseTable(table) => {
                if self.upcase_table.is_some() {
                    return Err(RootError::InvalidNumberOfUpcaseTables);
                }
                if !table.valid() {
                    return Err(RootError::InvalidUpcaseTable);
                }
                self.upcase_table = Some(*table);
                Ok(RootStep::Continue)
            },
            DirEntry::VolumeLabel(label) => {
                if self.volume_label.is_some() {
                    return Err(RootError::InvalidNumberOfVolumeLabels);
                }
                if label.character_count > MAX_LABEL_LEN {
                    return Err(RootError::InvalidVolumeLabel);
                }
                self.volume_label = Some(Label(label.volume_label, label.character_count));
                Ok(RootStep::Continue)
            },
            DirEntry::File(file_entry) => Ok(RootStep::File(*file_entry)),
            _ => Err(RootError::UnexpectedRootEntry(entry.entry_type())),
        }
    }

    /// Whether all has been told that a volume with this many FATs needs.
    pub fn complete<E>(&self, number_of_fats: u8) -> (r: Result<(), RootError<E>>)
        ensures
            r == match self.missing::<E>(number_of_fats) {
                Some(e) => Err(e),
                None => Ok::<(), RootError<E>>(()),
            },
    {
        // check allocation bitmap count
        if number_of_fats == 2 && self.second_bitmap.is_none() || self.first_bitmap.is_none() {
            return Err(RootError::InvalidNumberOfAllocationBitmaps);
        }

        // check upcase table
        if self.upcase_table.is_none() {
            return Err(RootError::InvalidNumberOfUpcaseTables);
        }
        Ok(())
    }
}

/// What is known of a volume.
#[verifier::ext_equal]
pub struct RootView {
    pub label: Option<Label>,
    pub items: Seq<Node>,
}

/// Why a volume cannot be opened whose root directory holds a file or directory
/// that cannot be had.
pub open spec fn element_fault<E>(e: ElementError<E>) -> RootError<E> {
    match e {
        ElementError::FileParser(e) => RootError::FileParser(e),
        ElementError::ClusterChain(e) => RootError::ClusterChain(e),
    }
}

fn root_error<E>(e: ElementError<E>) -> (r: RootError<E>)
    ensures
        r == element_fault(e),
{
    match e {
        ElementError::FileParser(e) => RootError::FileParser(e),
        ElementError::ClusterChain(e) => RootError::ClusterChain(e),
    }
}

/// What the root directory holds whose entries are `slots`, `scan` and `items`
/// being what came before them. `None` where slots are missing that would decide.
pub open spec fn list_root<E>(
    boot: BootSector,
    fat: Seq<u32>,
    slots: Seq<Slot<E>>,
    scan: RootScan,
    items: Seq<Node>,
) -> Option<Result<RootView, RootError<E>>>
    decreases slots.len(),
{
    if slots.len() == 0 {
        None
    } else {
        match slots[0] {
            Err(e) => Some(Err(RootError::Reader(e))),
            Ok(entry) => match scan.after(entry) {
                Err(e) => Some(Err(e)),
                Ok((_, RootStep::End)) => Some(
                    match scan.missing(boot.number_of_fats) {
                        Some(e) => Err(e),
                        None => Ok(RootView { label: scan.volume_label, items }),
                    },
                ),
                Ok((next, RootStep::Continue)) => list_root(boot, fat, slots.skip(1), next, items),
                Ok((next, RootStep::File(file_entry))) => {
                    let used = 1 + file_entry.secondary_count;
                    match element_of(boot, fat, file_entry, slots.skip(1)) {
                        None => None,
                        Some(Err(e)) => Some(Err(element_fault(e))),
                        Some(Ok(node)) => if slots.len() < used {
                            None
                        } else {
                            list_root(boot, fat, slots.skip(used), next, items.push(node))
                        },
                    }
                },
            },
        }
    }
}

/// What the root directory holds whose entries are `slots`.
pub open spec fn root_of<E>(boot: BootSector, fat: Seq<u32>, slots: Seq<Slot<E>>) -> Option<
    Result<RootView, RootError<E>>,
> {
    list_root(boot, fat, slots, RootScan::nothing(), Seq::empty())
}

/// `list_root` for entries to come.
pub open spec fn decide_root<E>(
    boot: BootSector,
    fat: Seq<u32>,
    scan: RootScan,
    items: Seq<Node>,
) -> Decide<E, Result<RootView, RootError<E>>> {
    |slots: Seq<Slot<E>>| list_root(boot, fat, slots, scan, items)
}

/// The bytes of the root directory, or why there are none.
pub open spec fn root_extent(boot: BootSector, fat: Seq<u32>) -> Result<Extent, ClusterChainError> {
    extent_of(
        boot,
        fat,
        boot.first_cluster_of_root_directory,
        ClusterChainOptions::Fat { data_length: None },
    )
}

/// Listing the root directory may come out as `r`.
pub open spec fn root_lists<E: PartitionError>(
    boot: BootSector,
    fat: Seq<u32>,
    replies: Replies<E>,
    r: Result<RootView, RootError<E>>,
) -> bool {
    if !boot.has_cluster(boot.first_cluster_of_root_directory) {
        r == Err::<RootView, RootError<E>>(
            RootError::InvalidRootDirectoryClusterIndex(boot.first_cluster_of_root_directory),
        )
    } else {
        match root_extent(boot, fat) {
            Err(e) => r == Err::<RootView, RootError<E>>(RootError::ClusterChain(e)),
            Ok(extent) => exists|slots: Seq<Slot<E>>|
                {
                    &&& #[trigger] may_read_all(extent, replies, slots)
                    &&& settles(
                        decide_root(boot, fat, RootScan::nothing(), Seq::empty()),
                        slots,
                        r,
                    )
                },
        }
    }
}

/// Opening a volume with this boot sector may come out as `r`.
pub open spec fn volume_opens<E: PartitionError>(
    boot: BootSector,
    replies: Replies<E>,
    r: Result<RootView, RootError<E>>,
) -> bool {
    match boot.fault::<E>() {
        Some(e) => r == Err::<RootView, RootError<E>>(e),
        None => exists|loaded: Result<Seq<u32>, FatError<E>>|
            {
                &&& #[trigger] fat_loads(replies, boot, loaded)
                &&& match loaded {
                    Err(e) => r == Err::<RootView, RootError<E>>(RootError::Fat(e)),
                    Ok(fat) => root_lists(boot, fat, replies, r),
                }
            },
    }
}

/// Opening the volume on a device may come out as `r`.
pub open spec fn device_opens<E: PartitionError>(
    replies: Replies<E>,
    r: Result<RootView, RootError<E>>,
) -> bool {
    ||| r matches Err(RootError::Io(e)) && fails(replies, 0, BOOT_SECTOR_LEN as nat, e)
    ||| exists|sector: Seq<u8>, boot: BootSector|
        {
            &&& sector.len() == BOOT_SECTOR_LEN
            &&& #[trigger] delivers(replies, 0, sector)
            &&& #[trigger] boot.describes(sector)
            &&& volume_opens(boot, replies, r)
        }
}

/// The entries `log` and `more` that were read end the list as `r`.
proof fn lemma_ends<E: PartitionError>(
    boot: BootSector,
    fat: Seq<u32>,
    extent: Extent,
    replies: Replies<E>,
    log: Seq<Slot<E>>,
    here: Decide<E, Result<RootView, RootError<E>>>,
    more: Seq<Slot<E>>,
    r: Result<RootView, RootError<E>>,
)
    requires
        boot.has_cluster(boot.first_cluster_of_root_directory),
        root_extent(boot, fat) == Ok::<Extent, ClusterChainError>(extent),
        may_read_all(extent, replies, log + more),
        leads_to(decide_root(boot, fat, RootScan::nothing(), Seq::empty()), log, here),
        settles(here, more, r),
    ensures
        root_lists(boot, fat, replies, r),
{
    let whole = decide_root::<E>(boot, fat, RootScan::nothing(), Seq::empty());
    lemma_settles(whole, log, here, more, r);
    assert(may_read_all(root_extent(boot, fat)->Ok_0, replies, log + more));
}

/// A volume that has been opened: its label and what its root directory holds.
pub struct Root<O: ReadOffset> {
    volume_label: Option<Label>,
    items: Vec<FsElement<O>>,
}

impl<O: ReadOffset> View for Root<O> {
    type V = RootView;

    open spec fn view(&self) -> RootView {
        RootView { label: self.volume_label(), items: nodes(self.elements()) }
    }
}

/// What opening a volume gives.
pub open spec fn opened<O: ReadOffset, F>(r: Result<Root<O>, F>) -> Result<RootView, F> {
    match r {
        Ok(root) => Ok(root@),
        Err(e) => Err(e),
    }
}

impl<O: ReadOffset> Root<O> {
    pub closed spec fn volume_label(self) -> Option<Label> {
        self.volume_label
    }

    /// What the root directory holds.
    pub closed spec fn elements(self) -> Seq<FsElement<O>> {
        self.items@
    }

    pub fn label(&self) -> (r: Option<&Label>)
        ensures
            r == match self@.label {
                Some(label) => Some(&label),
                None => None::<&Label>,
            },
    {
        self.volume_label.as_ref()
    }

    pub fn items(&mut self) -> (r: &mut [FsElement<O>])
        ensures
            r@ == old(self).elements(),
            final(self).elements() == final(r)@,
            final(self).volume_label() == old(self).volume_label(),
    {
        self.items.as_mut_slice()
    }
}

impl<O: ReadOffset> Root<O> {
    /// Opens the volume on `device`.
    pub fn open(device: O) -> (r: Result<Self, RootError<O::Err>>)
        ensures
            device_opens(device.replies(), opened(r)),
            r matches Ok(root) ==> forall|i: int|
                0 <= i < root.elements().len() ==> (#[trigger] root.elements()[i]).reads_from(
                    device,
                ),
    {
        let ghost replies = device.replies();
        let device = Arc::new(device);
        let mut sector: Vec<u8> = vec![0u8; BOOT_SECTOR_LEN];
        match device.read_exact(0, sector.as_mut_slice()) {
            Err(e) => return Err(RootError::Io(e)),
            Ok(()) => {},
        }
        let ghost raw = sector@;
        let boot = BootSector::parse(sector.as_slice());
        assert(delivers(replies, 0, raw) && boot.describes(raw));
        match boot.check() {
            Err(e) => {
                assert(volume_opens(boot, replies, Err(e)));
                return Err(e);
            },
            Ok(()) => {},
        }
        let boot_sector = Arc::new(boot);

        // parse FAT
        let fat = match Fat::load(&*device, &boot_sector) {
            Err(e) => {
                proof {
                    assert(fat_loads(replies, boot, Err(e)));
                    assert(volume_opens(boot, replies, Err(RootError::Fat(e))));
                }
                return Err(RootError::Fat(e));
            },
            Ok(fat) => Arc::new(fat),
        };

        let r = Self::list(&device, &boot_sector, &fat);
        proof {
            assert(fat_loads(replies, boot, Ok(fat@)));
            assert(volume_opens(boot, replies, opened(r)));
        }
        r
    }

    /// Lists the root directory of a volume.
    #[verifier::rlimit(50)]
    fn list(device: &Arc<O>, boot_sector: &Arc<BootSector>, fat: &Arc<Fat>) -> (r: Result<
        Self,
        RootError<O::Err>,
    >)
        requires
            boot_sector.valid(),
            fat@.len() == boot_sector.cluster_count + 2,
        ensures
            root_lists(**boot_sector, fat@, (**device).replies(), opened(r)),
            r matches Ok(root) ==> forall|i: int|
                0 <= i < root.elements().len() ==> (#[trigger] root.elements()[i]).reads_from(
                    **device,
                ),
    {
        let ghost boot = **boot_sector;
        let ghost links = fat@;
        let ghost replies = (**device).replies();
        let first_cluster: u32 = boot_sector.first_cluster_of_root_directory;
        // check for correct index of root cluster
        if first_cluster < 2 || first_cluster as u64 > boot_sector.cluster_count as u64 + 1 {
            return Err(RootError::InvalidRootDirectoryClusterIndex(first_cluster));
        }
        let chain_reader = match ClusterChainReader::try_new(
            share(boot_sector),
            fat,
            first_cluster,
            ClusterChainOptions::default(),
            share(device),
        ) {
            Ok(chain_reader) => chain_reader,
            Err(e) => return Err(RootError::ClusterChain(e)),
        };
        let mut reader = DirEntryReader::from(chain_reader);
        let ghost extent = reader.extent();

        // Load root directory
        let mut scan = RootScan::new();
        let mut items: Vec<FsElement<O>> = Vec::new();
        let ghost whole = decide_root::<O::Err>(boot, links, scan, Seq::empty());
        proof {
            assert(nodes(items@) =~= Seq::empty());
            lemma_leads_nowhere(whole);
        }
        loop
            invariant
                boot == **boot_sector,
                links == fat@,
                replies == (**device).replies(),
                boot.valid(),
                links.len() == boot.cluster_count + 2,
                boot.has_cluster(boot.first_cluster_of_root_directory),
                root_extent(boot, links) == Ok::<Extent, ClusterChainError>(extent),
                reader.wf(),
                reader.extent() == extent,
                reader.device() == **device,
                all_ok(reader.log()),
                whole == decide_root::<O::Err>(boot, links, RootScan::nothing(), Seq::empty()),
                leads_to(whole, reader.log(), decide_root(boot, links, scan, nodes(items@))),
                forall|i: int|
                    0 <= i < items@.len() ==> (#[trigger] items@[i]).reads_from(**device),
            decreases extent.data_length - ENTRY_LEN * reader.log().len(),
        {
            let ghost log = reader.log();
            let ghost known = scan;
            let ghost before = nodes(items@);
            let ghost here = decide_root::<O::Err>(boot, links, known, before);
            proof {
                reader.lemma_log_bounded();
            }
            let slot = reader.read();
            let ghost more = seq![slot];
            proof {
                reader.lemma_log();
                assert(reader.log() =~= log + more);
                assert(may_read_all(extent, replies, log + more));
                assert(more.take(0) =~= Seq::empty());
            }
            let entry = match slot {
                Err(e) => {
                    proof {
                        let r = Err(RootError::Reader(e));
                        lemma_ends(boot, links, extent, replies, log, here, more, r);
                    }
                    return Err(RootError::Reader(e));
                },
                Ok(entry) => entry,
            };
            match scan.take_in(&entry) {
                Err(e) => {
                    proof {
                        lemma_ends(boot, links, extent, replies, log, here, more, Err(e));
                    }
                    return Err(e);
                },
                Ok(RootStep::Continue) => {
                    proof {
                        let next = decide_root::<O::Err>(boot, links, scan, before);
                        assert forall|rest: Seq<Slot<O::Err>>| #[trigger]
                            here(more + rest) == next(rest) by {
                            assert((more + rest).skip(1) =~= rest);
                        }
                        lemma_leads_on(whole, log, here, more, next);
                        reader.lemma_log_bounded();
                    }
                },
                Ok(RootStep::End) => {
                    let r = match scan.complete(boot_sector.number_of_fats) {
                        Err(e) => Err(e),
                        Ok(()) => Ok(Root { volume_label: scan.volume_label, items }),
                    };
                    proof {
                        lemma_ends(boot, links, extent, replies, log, here, more, opened(r));
                    }
                    return r;
                },
                Ok(RootStep::File(file_entry)) => {
                    let ghost mid = reader.log();
                    let r = read_element(device, boot_sector, fat, &file_entry, &mut reader);
                    let ghost used = reader.log().skip(mid.len() as int);
                    let ghost more = more + used;
                    let ghost next = |node: Node|
                        decide_root::<O::Err>(boot, links, known, before.push(node));
                    proof {
                        reader.lemma_log();
                        let fail = |e: ElementError<O::Err>| Err::<RootView, _>(element_fault(e));
                        assert(takes_file(here, boot, links, entry, file_entry, fail, next));
                        lemma_file(
                            here,
                            boot,
                            links,
                            entry,
                            file_entry,
                            fail,
                            next,
                            used,
                            element_view(r),
                        );
                        assert(reader.log() =~= log + more);
                        assert(may_read_all(extent, replies, log + more));
                    }
                    let item = match r {
                        Err(e) => {
                            let e = root_error(e);
                            proof {
                                lemma_ends(boot, links, extent, replies, log, here, more, Err(e));
                            }
                            return Err(e);
                        },
                        Ok(item) => item,
                    };
                    items.push(item);
                    proof {
                        assert(nodes(items@) =~= before.push(item@));
                        lemma_leads_on(whole, log, here, more, next(item@));
                        assert(all_ok(reader.log()));
                        reader.lemma_log_bounded();
                    }
                },
            }
        }
    }
}

} // verus!
