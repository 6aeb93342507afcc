//! Directories.
use std::sync::Arc;
use vstd::prelude::*;

use crate::boot_sector::BootSector;
use crate::cluster::{extent_of, share, ClusterChainOptions, ClusterChainReader, Extent};
use crate::disk::{PartitionError, ReadOffset, Replies};
use crate::entry::reader::{all_ok, may_read_all, DirEntryReader, Slot};
use crate::entry::{DirEntry, FileEntry, StreamExtensionEntry, ENTRY_LEN};
use crate::error::{ClusterChainError, DirectoryError, ElementError};
use crate::fat::Fat;
use crate::fs::file::stream_options;
use crate::fs::{element_of, element_view, nodes, read_element, FsElement, Node};
use crate::scan::{
    leads_to, lemma_file, lemma_leads_nowhere, lemma_leads_on, lemma_settles, settles, takes_file,
    Decide,
};
use crate::timestamp::Timestamps;

verus! {

/// What is known of a directory.
#[verifier::ext_equal]
pub struct DirectoryView {
    pub name: Seq<char>,
    pub stream: StreamExtensionEntry,
    pub timestamps: Timestamps,
    pub boot: BootSector,
    pub fat: Seq<u32>,
}

impl DirectoryView {
    /// Clusters have sizes that volumes can have, and the FAT lists all of them.
    pub open spec fn wf(self) -> bool {
        &&& self.boot.valid()
        &&& self.fat.len() == self.boot.cluster_count + 2
    }

    /// How the clusters of the directory are found.
    pub open spec fn options(self) -> ClusterChainOptions {
        stream_options(self.stream, self.stream.data_len)
    }

    /// The bytes of the directory, or why there are none.
    pub open spec fn extent(self) -> Result<Extent, ClusterChainError> {
        extent_of(self.boot, self.fat, self.stream.first_cluster, self.options())
    }
}

/// What an entry means for the list of what a directory holds.
pub enum DirectoryStep {
    /// It adds nothing.
    Skip,
    /// It ends the list.
    End,
    /// A file or directory begins.
    File(FileEntry),
}

/// What an entry means for the list of what a directory holds, or why it cannot
/// stand in a directory.
pub open spec fn directory_step<E>(entry: DirEntry) -> Result<DirectoryStep, DirectoryError<E>> {
    if entry.is_unused() {
        Ok(DirectoryStep::Skip)
    } else if !entry.is_regular() {
        Ok(DirectoryStep::End)
    } else if !entry.is_primary() {
        Err(DirectoryError::NotPrimaryEntry(entry.type_byte()))
    } else {
        match entry {
            DirEntry::File(file_entry) => Ok(DirectoryStep::File(file_entry)),
            _ => Err(DirectoryError::NotFileEntry(entry.type_byte())),
        }
    }
}

/// What an entry means for the list of what a directory holds.
pub fn step<E>(entry: &DirEntry) -> (r: Result<DirectoryStep, DirectoryError<E>>)
    ensures
        r == directory_step::<E>(*entry),
{
    // unused entries are ignored
    if entry.unused() {
        return Ok(DirectoryStep::Skip);
    }

    // check for validity of dir entry
    if !entry.regular() {
        return Ok(DirectoryStep::End);
    } else if !entry.primary() {
        return Err(DirectoryError::NotPrimaryEntry(entry.entry_type()));
    }
    match entry {
        DirEntry::File(file_entry) => Ok(DirectoryStep::File(*file_entry)),
        _ => Err(DirectoryError::NotFileEntry(entry.entry_type())),
    }
}

/// Why a directory cannot be listed that holds a file or directory that cannot be
/// had.
pub open spec fn element_fault<E>(e: ElementError<E>) -> DirectoryError<E> {
    match e {
        ElementError::FileParser(e) => DirectoryError::FileParser(e),
        ElementError::ClusterChain(e) => DirectoryError::ClusterChain(e),
    }
}

fn directory_error<E>(e: ElementError<E>) -> (r: DirectoryError<E>)
    ensures
        r == element_fault(e),
{
    match e {
        ElementError::FileParser(e) => DirectoryError::FileParser(e),
        ElementError::ClusterChain(e) => DirectoryError::ClusterChain(e),
    }
}

/// What a directory holds whose entries are `slots`, `items` being what came
/// before them. `None` where slots are missing that would decide.
pub open spec fn list_directory<E>(
    boot: BootSector,
    fat: Seq<u32>,
    slots: Seq<Slot<E>>,
    items: Seq<Node>,
) -> Option<Result<Seq<Node>, DirectoryError<E>>>
    decreases slots.len(),
{
    if slots.len() == 0 {
        None
    } else {
        match slots[0] {
            Err(e) => Some(Err(DirectoryError::Reader(e))),
            Ok(entry) => match directory_step(entry) {
                Err(e) => Some(Err(e)),
                Ok(DirectoryStep::End) => Some(Ok(items)),
                Ok(DirectoryStep::Skip) => list_directory(boot, fat, slots.skip(1), items),
                Ok(DirectoryStep::File(file_entry)) => {
                    let used = 1 + file_entry.secondary_count;
                    match element_of(boot, fat, file_entry, slots.skip(1)) {
                        None => None,
                        Some(Err(e)) => Some(Err(element_fault(e))),
                        Some(Ok(node)) => if slots.len() < used {
                            None
                        } else {
                            list_directory(boot, fat, slots.skip(used), items.push(node))
                        },
                    }
                },
            },
        }
    }
}

/// `list_directory` for entries to come.
pub open spec fn decide_directory<E>(
    boot: BootSector,
    fat: Seq<u32>,
    items: Seq<Node>,
) -> Decide<E, Result<Seq<Node>, DirectoryError<E>>> {
    |slots: Seq<Slot<E>>| list_directory(boot, fat, slots, items)
}

/// Listing a directory may come out as `r`.
pub open spec fn lists<E: PartitionError>(
    directory: DirectoryView,
    replies: Replies<E>,
    r: Result<Seq<Node>, DirectoryError<E>>,
) -> bool {
    match directory.extent() {
        Err(e) => r == Err::<Seq<Node>, DirectoryError<E>>(DirectoryError::ClusterChain(e)),
        Ok(extent) => exists|slots: Seq<Slot<E>>|
            {
                &&& #[trigger] may_read_all(extent, replies, slots)
                &&& settles(decide_directory(directory.boot, directory.fat, Seq::empty()), slots, r)
            },
    }
}

/// What a list of a directory gives.
pub open spec fn listing<O: ReadOffset, F>(r: Result<Vec<FsElement<O>>, F>) -> Result<
    Seq<Node>,
    F,
> {
    match r {
        Ok(items) => Ok(nodes(items@)),
        Err(e) => Err(e),
    }
}

/// Represents a directory in an exFAT filesystem.
pub struct Directory<O> {
    disk: Arc<O>,
    boot: Arc<BootSector>,
    fat: Arc<Fat>,
    name: String,
    stream: StreamExtensionEntry,
    timestamps: Timestamps,
}

impl<O> View for Directory<O> {
    type V = DirectoryView;

    closed spec fn view(&self) -> DirectoryView {
        DirectoryView {
            name: self.name@,
            stream: self.stream,
            timestamps: self.timestamps,
            boot: *self.boot,
            fat: self.fat@,
        }
    }
}

impl<O> Directory<O> {
    #[verifier::type_invariant]
    spec fn inv(self) -> bool {
        &&& self.boot.valid()
        &&& self.fat@.len() == self.boot.cluster_count + 2
    }

    /// What the directory is read from.
    pub closed spec fn device(self) -> O {
        *self.disk
    }

    pub fn new(
        disk: Arc<O>,
        boot: Arc<BootSector>,
        fat: Arc<Fat>,
        name: String,
        stream: StreamExtensionEntry,
        timestamps: Timestamps,
    ) -> (r: Self)
        requires
            boot.valid(),
            fat@.len() == boot.cluster_count + 2,
        ensures
            r@ == (DirectoryView { name: name@, stream, timestamps, boot: *boot, fat: fat@ }),
            r.device() == *disk,
    {
        Directory { disk, boot, fat, name, stream, timestamps }
    }

    pub fn name(&self) -> (r: &str)
        ensures
            r@ == self@.name,
    {
        self.name.as_str()
    }

    pub fn timestamps(&self) -> (r: &Timestamps)
        ensures
            *r == self@.timestamps,
    {
        &self.timestamps
    }
}

/// The entries `log` and `more` that were read end the list as `r`.
proof fn lemma_ends<E: PartitionError>(
    directory: DirectoryView,
    extent: Extent,
    replies: Replies<E>,
    log: Seq<Slot<E>>,
    items: Seq<Node>,
    more: Seq<Slot<E>>,
    r: Result<Seq<Node>, DirectoryError<E>>,
)
    requires
        directory.extent() == Ok::<Extent, ClusterChainError>(extent),
        may_read_all(extent, replies, log + more),
        leads_to(
            decide_directory(directory.boot, directory.fat, Seq::empty()),
            log,
            decide_directory(directory.boot, directory.fat, items),
        ),
        settles(decide_directory(directory.boot, directory.fat, items), more, r),
    ensures
        lists(directory, replies, r),
{
    let whole = decide_directory::<E>(directory.boot, directory.fat, Seq::empty());
    let here = decide_directory::<E>(directory.boot, directory.fat, items);
    lemma_settles(whole, log, here, more, r);
    assert(may_read_all(directory.extent()->Ok_0, replies, log + more));
}

impl<O: ReadOffset> Directory<O> {
    /// Lists what the directory holds.
    #[verifier::rlimit(50)]
    pub fn open(&self) -> (r: Result<Vec<FsElement<O>>, DirectoryError<O::Err>>)
        ensures
            self@.wf(),
            lists(self@, self.device().replies(), listing(r)),
            r matches Ok(items) ==> forall|i: int|
                0 <= i < items@.len() ==> (#[trigger] items@[i]).reads_from(self.device()),
    {
        proof {
            use_type_invariant(self);
        }
        let options = if self.stream.general_secondary_flags.no_fat_chain() {
            ClusterChainOptions::Contiguous { data_length: self.stream.data_len }
        } else {
            ClusterChainOptions::Fat { data_length: Some(self.stream.data_len) }
        };

        let chain_reader = match ClusterChainReader::try_new(
            share(&self.boot),
            &self.fat,
            self.stream.first_cluster,
            options,
            share(&self.disk),
        ) {
            Ok(chain_reader) => chain_reader,
            Err(e) => return Err(DirectoryError::ClusterChain(e)),
        };
        let mut reader = DirEntryReader::from(chain_reader);
        let ghost boot = self@.boot;
        let ghost fat = self@.fat;
        let ghost extent = reader.extent();
        let ghost replies = self.device().replies();

        // Read file entries.
        let mut items: Vec<FsElement<O>> = Vec::new();
        let ghost whole = decide_directory::<O::Err>(boot, fat, Seq::empty());
        proof {
            assert(nodes(items@) =~= Seq::empty());
            lemma_leads_nowhere(whole);
        }
        loop
            invariant
                self.inv(),
                boot == self@.boot,
                fat == self@.fat,
                reader.wf(),
                reader.extent() == extent,
                reader.device() == self.device(),
                replies == self.device().replies(),
                all_ok(reader.log()),
                whole == decide_directory::<O::Err>(boot, fat, Seq::empty()),
                leads_to(whole, reader.log(), decide_directory(boot, fat, nodes(items@))),
                self@.extent() == Ok::<Extent, ClusterChainError>(extent),
                forall|i: int|
                    0 <= i < items@.len() ==> (#[trigger] items@[i]).reads_from(self.device()),
            decreases extent.data_length - ENTRY_LEN * reader.log().len(),
        {
            let ghost log = reader.log();
            let ghost before = nodes(items@);
            let ghost here = decide_directory::<O::Err>(boot, fat, before);
            proof {
                reader.lemma_log_bounded();
            }
            // read primary entry
            let slot = reader.read();
            let ghost more = seq![slot];
            proof {
                reader.lemma_log();
                assert(reader.log() =~= log + more);
                assert(may_read_all(extent, replies, log + more));
                assert(more.take(0) =~= Seq::empty());
            }
            let entry = match slot {
                Err(e) => {
                    proof {
                        let r = Err(DirectoryError::Reader(e));
                        lemma_ends(self@, extent, replies, log, before, more, r);
                    }
                    return Err(DirectoryError::Reader(e));
                },
                Ok(entry) => entry,
            };
            match step(&entry) {
                Err(e) => {
                    proof {
                        lemma_ends(self@, extent, replies, log, before, more, Err(e));
                    }
                    return Err(e);
                },
                Ok(DirectoryStep::Skip) => {
                    proof {
                        assert forall|rest: Seq<Slot<O::Err>>| #[trigger]
                            here(more + rest) == here(rest) by {
                            assert((more + rest).skip(1) =~= rest);
                        }
                        lemma_leads_on(whole, log, here, more, here);
                        reader.lemma_log_bounded();
                    }
                    continue;
                },
                Ok(DirectoryStep::End) => {
                    proof {
                        lemma_ends(self@, extent, replies, log, before, more, Ok(before));
                    }
                    return Ok(items);
                },
                Ok(DirectoryStep::File(file_entry)) => {
                    // parse file entry
                    let ghost mid = reader.log();
                    let r = read_element(
                        &self.disk,
                        &self.boot,
                        &self.fat,
                        &file_entry,
                        &mut reader,
                    );
                    let ghost used = reader.log().skip(mid.len() as int);
                    let ghost more = more + used;
                    let ghost next = |node: Node|
                        decide_directory::<O::Err>(boot, fat, before.push(node));
                    proof {
                        reader.lemma_log();
                        let fail = |e: ElementError<O::Err>|
                            Err::<Seq<Node>, _>(element_fault(e));
                        assert(takes_file(here, boot, fat, entry, file_entry, fail, next));
                        lemma_file(
                            here,
                            boot,
                            fat,
                            entry,
                            file_entry,
                            fail,
                            next,
                            used,
                            element_view(r),
                        );
                        assert(reader.log() =~= log + more);
                        assert(may_read_all(extent, replies, log + more));
                    }
                    let item = match r {
                        Err(e) => {
                            let e = directory_error(e);
                            proof {
                                lemma_ends(self@, extent, replies, log, before, more, Err(e));
                            }
                            return Err(e);
                        },
                        Ok(item) => item,
                    };
                    items.push(item);
                    proof {
                        assert(nodes(items@) =~= before.push(item@));
                        lemma_leads_on(whole, log, here, more, next(item@));
                        assert(all_ok(reader.log()));
                        reader.lemma_log_bounded();
                    }
                },
            }
        }
    }
}

} // verus!
