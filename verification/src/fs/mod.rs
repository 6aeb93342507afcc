//! Files and directories.
use std::sync::Arc;
use vstd::prelude::*;

use crate::boot_sector::BootSector;
use crate::cluster::share;
use crate::disk::ReadOffset;
use crate::entry::parsed::{lemma_parse_file_extends, parse_file, ParsedFile, ParsedFileEntry};
use crate::entry::reader::{all_ok, DirEntryReader, Slot};
use crate::entry::FileEntry;
use crate::error::{ClusterChainError, ElementError};
use crate::fat::Fat;
use crate::scan::{settles, Decide};

pub mod directory;
pub mod file;

use self::directory::{Directory, DirectoryView};
use self::file::{file_of, File, FileView};

verus! {

/// Something that a directory holds.
pub enum FsElement<O: ReadOffset> {
    F(File<O>),
    D(Directory<O>),
}

/// What is known of something that a directory holds.
#[verifier::ext_equal]
pub enum Node {
    File(FileView),
    Directory(DirectoryView),
}

impl Node {
    /// This is as a list has it: a file that has not been read, or a directory
    /// that can be listed.
    pub open spec fn as_listed(self) -> bool {
        match self {
            Node::File(file) => file.unread(),
            Node::Directory(directory) => directory.wf(),
        }
    }
}

/// All of `items` are as lists have them.
pub open spec fn all_as_listed(items: Seq<Node>) -> bool {
    forall|i: int| 0 <= i < items.len() ==> (#[trigger] items[i]).as_listed()
}

impl<O: ReadOffset> View for FsElement<O> {
    type V = Node;

    open spec fn view(&self) -> Node {
        match self {
            FsElement::F(file) => Node::File(file@),
            FsElement::D(directory) => Node::Directory(directory@),
        }
    }
}

impl<O: ReadOffset> FsElement<O> {
    /// What is read of it is read from `device`. A file without clusters is not
    /// read from any.
    pub open spec fn reads_from(self, device: O) -> bool {
        match self {
            FsElement::F(file) => file.device() == (if file@.data is Some {
                Some(device)
            } else {
                None
            }),
            FsElement::D(directory) => directory.device() == device,
        }
    }
}

/// What all of `items` are.
pub open spec fn nodes<O: ReadOffset>(items: Seq<FsElement<O>>) -> Seq<Node> {
    items.map_values(|item: FsElement<O>| item@)
}

/// What is known of the file or directory that some entries describe.
pub open spec fn node_of(boot: BootSector, fat: Seq<u32>, parsed: ParsedFile) -> Result<
    Node,
    ClusterChainError,
> {
    if parsed.attributes.directory() {
        Ok(
            Node::Directory(
                DirectoryView {
                    name: parsed.name,
                    stream: parsed.stream,
                    timestamps: parsed.timestamps,
                    boot,
                    fat,
                },
            ),
        )
    } else {
        match file_of(boot, fat, parsed.name, parsed.stream, parsed.timestamps) {
            Ok(file) => Ok(Node::File(file)),
            Err(e) => Err(e),
        }
    }
}

/// The file or directory that some entries describe.
pub fn make_element<O: ReadOffset>(
    disk: &Arc<O>,
    boot: &Arc<BootSector>,
    fat: &Arc<Fat>,
    parsed: ParsedFileEntry,
) -> (r: Result<FsElement<O>, ClusterChainError>)
    requires
        boot.valid(),
        fat@.len() == boot.cluster_count + 2,
    ensures
        match (node_of(**boot, fat@, parsed@), r) {
            (Ok(node), Ok(element)) => element@ == node && element.reads_from(**disk),
            (Err(a), Err(b)) => a == b,
            _ => false,
        },
{
    if parsed.attributes.is_directory() {
        Ok(
            FsElement::D(
                Directory::new(
                    share(disk),
                    share(boot),
                    share(fat),
                    parsed.name,
                    parsed.stream_extension_entry,
                    parsed.timestamps,
                ),
            ),
        )
    } else {
        match File::try_new(
            disk,
            boot,
            fat,
            parsed.name,
            parsed.stream_extension_entry,
            parsed.timestamps,
        ) {
            Ok(file) => Ok(FsElement::F(file)),
            Err(e) => Err(e),
        }
    }
}

/// What is known of the file or directory that begins with `file_entry`, the
/// entries behind it being `slots`. `None` where slots are missing that would
/// decide.
pub open spec fn element_of<E>(
    boot: BootSector,
    fat: Seq<u32>,
    file_entry: FileEntry,
    slots: Seq<Slot<E>>,
) -> Option<Result<Node, ElementError<E>>> {
    match parse_file(file_entry, slots) {
        None => None,
        Some(Err(e)) => Some(Err(ElementError::FileParser(e))),
        Some(Ok(parsed)) => match node_of(boot, fat, parsed) {
            Err(e) => Some(Err(ElementError::ClusterChain(e))),
            Ok(node) => Some(Ok(node)),
        },
    }
}

/// `element_of` for entries to come.
pub open spec fn decide_element<E>(
    boot: BootSector,
    fat: Seq<u32>,
    file_entry: FileEntry,
) -> Decide<E, Result<Node, ElementError<E>>> {
    |slots: Seq<Slot<E>>| element_of(boot, fat, file_entry, slots)
}

/// Entries that decide what a file or directory is decide it whatever follows
/// them.
pub proof fn lemma_element_extends<E>(
    boot: BootSector,
    fat: Seq<u32>,
    file_entry: FileEntry,
    slots: Seq<Slot<E>>,
    rest: Seq<Slot<E>>,
)
    requires
        element_of(boot, fat, file_entry, slots) is Some,
    ensures
        element_of(boot, fat, file_entry, slots + rest) == element_of(boot, fat, file_entry, slots),
{
    lemma_parse_file_extends(file_entry, slots, rest);
}

pub open spec fn element_view<O: ReadOffset, F>(r: Result<FsElement<O>, F>) -> Result<Node, F> {
    match r {
        Ok(element) => Ok(element@),
        Err(e) => Err(e),
    }
}

/// Reads the entries behind `file_entry` and makes the file or directory that
/// they describe. No more of them are read than decide what comes out.
pub fn read_element<O: ReadOffset>(
    disk: &Arc<O>,
    boot: &Arc<BootSector>,
    fat: &Arc<Fat>,
    file_entry: &FileEntry,
    reader: &mut DirEntryReader<O>,
) -> (r: Result<FsElement<O>, ElementError<O::Err>>)
    requires
        boot.valid(),
        fat@.len() == boot.cluster_count + 2,
        old(reader).wf(),
    ensures
        final(reader).wf(),
        final(reader).extent() == old(reader).extent(),
        final(reader).device() == old(reader).device(),
        ({
            let before = old(reader).log();
            let after = final(reader).log();
            let used = after.skip(before.len() as int);
            &&& after == before + used
            &&& settles(decide_element(**boot, fat@, *file_entry), used, element_view(r))
            &&& r matches Ok(element) ==> {
                &&& used.len() == file_entry.secondary_count
                &&& all_ok(used)
                &&& element.reads_from(**disk)
            }
        }),
{
    let parsed = match ParsedFileEntry::try_new(file_entry, reader) {
        Err(e) => return Err(ElementError::FileParser(e)),
        Ok(parsed) => parsed,
    };
    match make_element(disk, boot, fat, parsed) {
        Err(e) => Err(ElementError::ClusterChain(e)),
        Ok(element) => Ok(element),
    }
}

} // verus!
