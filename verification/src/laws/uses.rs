//! What calls on volumes, directories and files return, said of the bytes of the
//! image that the device holds.
use std::sync::Arc;
use vstd::prelude::*;

use crate::boot_sector::BootSector;
use crate::cluster::{extent_of, ClusterChainOptions, ClusterChainReader, Extent};
use crate::disk::{is_image, outcome, PartitionError, ReadOffset, SeekFrom};
use crate::entry::parsed::ParsedFileEntry;
use crate::entry::reader::{lemma_whole_entry, slot_of, DirEntryReader, Slot};
use crate::entry::{decode, DirEntry, FileEntry, StreamExtensionEntry};
use crate::error::{
    ClusterChainError, DirectoryError, EntryReaderError, FileParserError, InvalidSeek, RootError,
};
use crate::fat::Fat;
use crate::fs::directory::{listing, step, Directory, DirectoryStep};
use crate::fs::file::File;
use crate::fs::{make_element, nodes, FsElement, Node};
use crate::label::Label;
use crate::laws::entries::{law_types, law_uses};
use crate::laws::files::{
    law_file_of_stream, law_node_of_entries, law_read_moves_on, law_seek, leads,
};
use crate::laws::listings::{describes, law_directory_holds_all};
use crate::laws::names::{fits, law_entry_set_is_whole};
use crate::laws::places::{cluster_bytes, follows_to_end, is_fat_of};
use crate::laws::roots::{
    bitmaps, can_stand, elements, label_of, labels, law_root_holds_all, tables, Thing,
};
use crate::laws::volumes::{
    are_entries_in, holds, law_directory_is_what_image_holds, law_volume_is_what_image_holds,
    lemma_intact, lies_within,
};
use crate::laws::{listings, roots};
use crate::root::{opened, Root, RootScan, RootStep};
use crate::timestamp::Timestamps;

verus! {

/// What is read of a file or directory is read from `device`: all of it, where it has
/// clusters.
pub open spec fn on_device<O: ReadOffset>(element: FsElement<O>, device: O) -> bool {
    match element {
        FsElement::F(file) => {
            &&& file@.data is Some ==> file.device() == Some(device)
            &&& file@.data is None ==> file.device() is None
        },
        FsElement::D(directory) => directory.device() == device,
    }
}

/// Opening the volume on an image succeeds where its root directory holds what a
/// root directory must, and gives the label that it tells and every file and
/// directory in it, in order.
pub proof fn law_open_volume<O: ReadOffset>(
    device: O,
    image: Seq<u8>,
    boot: BootSector,
    fat: Seq<u32>,
    extent: Extent,
    things: Seq<Thing<O::Err>>,
    end: DirEntry,
    rest: Seq<Slot<O::Err>>,
    r: Result<Root<O>, RootError<O::Err>>,
)
    requires
        call_ensures(Root::<O>::open, (device,), r),
        is_image(device.replies(), image),
        image.len() >= 512,
        boot.describes(image.take(512)),
        boot.fault::<O::Err>() is None,
        4 * (boot.cluster_count + 2) <= usize::MAX,
        is_fat_of(fat, boot, image),
        follows_to_end(fat, boot.first_cluster_of_root_directory, extent.chain),
        extent.boot == boot,
        extent.data_length == extent.chain.len() * cluster_bytes(boot),
        lies_within(extent, image.len()),
        are_entries_in(
            roots::laid_out(things) + (seq![Ok(end)] + rest),
            extent.contents(image),
        ),
        can_stand(boot, fat, things),
        end is EndOfDirectory,
    ensures
        r is Ok <==> bitmaps(things).len() >= boot.number_of_fats && tables(things).len() == 1,
        r matches Ok(root) ==> {
            &&& root.volume_label() == label_of(labels(things))
            &&& root.elements().len() == elements(things).len()
            &&& forall|i: int|
                0 <= i < root.elements().len() ==> {
                    &&& (#[trigger] root.elements()[i])@ == elements(things)[i]
                    &&& on_device(root.elements()[i], device)
                }
        },
        r matches Err(e) ==> e == if bitmaps(things).len() < boot.number_of_fats {
            RootError::<O::Err>::InvalidNumberOfAllocationBitmaps
        } else {
            RootError::InvalidNumberOfUpcaseTables
        },
{
    let slots = roots::laid_out(things) + (seq![Ok(end)] + rest);
    law_volume_is_what_image_holds(
        boot,
        fat,
        extent.chain,
        extent,
        device.replies(),
        image,
        slots,
        opened(r),
    );
    law_root_holds_all(boot, fat, things, end, rest);
    if let Ok(root) = r {
        assert(nodes(root.elements()) == elements(things));
        assert forall|i: int| 0 <= i < root.elements().len() implies {
            &&& (#[trigger] root.elements()[i])@ == elements(things)[i]
            &&& on_device(root.elements()[i], device)
        } by {
            assert(nodes(root.elements())[i] == root.elements()[i]@);
        }
    }
}

/// A volume that was opened shows its label and what its root directory holds.
pub proof fn law_volume_shown<O: ReadOffset>(root: &Root<O>, r: Option<&Label>)
    requires
        call_ensures(Root::<O>::label, (root,), r),
    ensures
        r is Some <==> root.volume_label() is Some,
        r matches Some(label) ==> root.volume_label() == Some(*label),
{
}

/// Listing a directory on an image gives every file and directory whose entries it
/// holds before its end, in order.
pub proof fn law_list_directory<O: ReadOffset>(
    directory: &Directory<O>,
    image: Seq<u8>,
    extent: Extent,
    sets: Seq<(FileEntry, Seq<Slot<O::Err>>)>,
    found: Seq<Node>,
    end: DirEntry,
    rest: Seq<Slot<O::Err>>,
    r: Result<Vec<FsElement<O>>, DirectoryError<O::Err>>,
)
    requires
        call_ensures(Directory::<O>::open, (directory,), r),
        is_image(directory.device().replies(), image),
        directory@.extent() == Ok::<Extent, ClusterChainError>(extent),
        lies_within(extent, image.len()),
        are_entries_in(
            listings::laid_out(sets) + (seq![Ok(end)] + rest),
            extent.contents(image),
        ),
        found.len() == sets.len(),
        forall|i: int|
            0 <= i < sets.len() ==> describes(
                directory@.boot,
                directory@.fat,
                #[trigger] sets[i],
                found[i],
            ),
        end is EndOfDirectory,
    ensures
        r matches Ok(items) && {
            &&& items@.len() == sets.len()
            &&& forall|i: int|
                0 <= i < items@.len() ==> {
                    &&& (#[trigger] items@[i])@ == found[i]
                    &&& on_device(items@[i], directory.device())
                }
        },
{
    let slots = listings::laid_out(sets) + (seq![Ok(end)] + rest);
    let listed = listing(r);
    law_directory_is_what_image_holds(
        directory@,
        extent,
        directory.device().replies(),
        image,
        slots,
        listed,
    );
    law_directory_holds_all(directory@.boot, directory@.fat, sets, found, end, rest);
    let items = r->Ok_0;
    assert(nodes(items@) == found);
    assert forall|i: int| 0 <= i < items@.len() implies {
        &&& (#[trigger] items@[i])@ == found[i]
        &&& on_device(items@[i], directory.device())
    } by {
        assert(nodes(items@)[i] == items@[i]@);
    }
}

/// A directory shows the name and times that it was made with, and is read from the
/// device that it was made with.
pub proof fn law_directory_shown<O>(
    disk: Arc<O>,
    boot: Arc<BootSector>,
    fat: Arc<Fat>,
    name: String,
    stream: StreamExtensionEntry,
    times: Timestamps,
    directory: Directory<O>,
    shown: &str,
    shown_times: &Timestamps,
)
    requires
        call_ensures(Directory::<O>::new, (disk, boot, fat, name, stream, times), directory),
        call_ensures(Directory::<O>::name, (&directory,), shown),
        call_ensures(Directory::<O>::timestamps, (&directory,), shown_times),
    ensures
        shown@ == name@,
        *shown_times == times,
        directory@.stream == stream,
        directory@.boot == *boot,
        directory@.fat == fat@,
        directory.device() == *disk,
{
}

/// A file shows the name and times that it was made with, is as long as the valid
/// data of its stream, and stands at its first byte. It is read from the device and
/// in the clusters of its stream, and not at all where that has none. It cannot be
/// made only where the clusters cannot be had.
pub proof fn law_file_shown<O: ReadOffset>(
    disk: &Arc<O>,
    boot: &Arc<BootSector>,
    fat: &Fat,
    name: String,
    stream: StreamExtensionEntry,
    times: Timestamps,
    r: Result<File<O>, ClusterChainError>,
)
    requires
        call_ensures(File::<O>::try_new, (disk, boot, fat, name, stream, times), r),
    ensures
        ({
            let len = stream.valid_data_length;
            let data = extent_of(
                **boot,
                fat@,
                stream.first_cluster,
                if (stream.general_secondary_flags.0 / 2) % 2 == 1 {
                    ClusterChainOptions::Contiguous { data_length: len }
                } else {
                    ClusterChainOptions::Fat { data_length: Some(len) }
                },
            );
            match r {
                Ok(file) => {
                    &&& forall|shown: &str|
                        call_ensures(File::<O>::name, (&file,), shown) ==> shown@ == name@
                    &&& forall|shown: u64|
                        call_ensures(File::<O>::len, (&file,), shown) ==> shown == len
                    &&& forall|shown: bool|
                        call_ensures(File::<O>::is_empty, (&file,), shown) ==> shown == (len == 0)
                    &&& forall|shown: &Timestamps|
                        call_ensures(File::<O>::timestamps, (&file,), shown) ==> *shown == times
                    &&& file@.position == 0
                    &&& stream.first_cluster == 0 ==> file@.data is None && file.device() is None
                    &&& stream.first_cluster != 0 ==> {
                        &&& file@.data is Some && data == Ok::<Extent, ClusterChainError>(
                            file@.data->Some_0,
                        )
                        &&& file.device() == Some(**disk)
                    }
                },
                Err(e) => stream.first_cluster != 0 && data == Err::<Extent, ClusterChainError>(e),
            }
        }),
{
    law_file_of_stream(**boot, fat@, name@, stream, times);
}

/// What is put together from entries becomes a directory where the attributes have
/// bit 4, and a file where they do not.
pub proof fn law_element_made<O: ReadOffset>(
    disk: &Arc<O>,
    boot: &Arc<BootSector>,
    fat: &Arc<Fat>,
    parsed: ParsedFileEntry,
    r: Result<FsElement<O>, ClusterChainError>,
)
    requires
        call_ensures(make_element::<O>, (disk, boot, fat, parsed), r),
    ensures
        (parsed.attributes.0 / 16) % 2 == 1 ==> (r matches Ok(FsElement::D(directory)) && {
            &&& directory@.name == parsed.name@
            &&& directory@.stream == parsed.stream_extension_entry
            &&& directory@.timestamps == parsed.timestamps
            &&& directory@.boot == **boot
            &&& directory@.fat == fat@
            &&& directory.device() == **disk
        }),
        (parsed.attributes.0 / 16) % 2 == 0 ==> match r {
            Ok(FsElement::D(_)) => false,
            Ok(FsElement::F(file)) => {
                &&& file@.name == parsed.name@
                &&& file@.len == parsed.stream_extension_entry.valid_data_length
                &&& file@.timestamps == parsed.timestamps
                &&& file@.position == 0
                &&& file@.data is None <==> parsed.stream_extension_entry.first_cluster == 0
                &&& file@.data is Some ==> file.device() == Some(**disk)
            },
            Err(_) => parsed.stream_extension_entry.first_cluster != 0,
        },
{
    law_node_of_entries(**boot, fat@, parsed@);
    law_file_of_stream(
        **boot,
        fat@,
        parsed.name@,
        parsed.stream_extension_entry,
        parsed.timestamps,
    );
}

/// A seek leads as far as it says from where it is counted, and changes nothing but
/// where the file stands.
pub proof fn law_file_seek<O: ReadOffset>(
    file: &mut File<O>,
    pos: SeekFrom,
    r: Result<u64, InvalidSeek>,
)
    requires
        call_ensures(File::<O>::seek, (file, pos), r),
    ensures
        old(file)@.data matches Some(extent) ==> {
            let len = extent.data_length as int;
            match pos {
                SeekFrom::Start(v) => leads(0, v as int, len, r),
                SeekFrom::End(v) => leads(len, v as int, len, r),
                SeekFrom::Current(v) => leads(old(file)@.position as int, v as int, len, r),
            }
        },
        old(file)@.data is None ==> r == Ok::<u64, InvalidSeek>(0),
        final(file)@.position == match r {
            Ok(o) => o,
            Err(_) => old(file)@.position,
        },
        final(file)@.name == old(file)@.name,
        final(file)@.len == old(file)@.len,
        final(file)@.timestamps == old(file)@.timestamps,
        final(file)@.data == old(file)@.data,
        final(file).device() == old(file).device(),
{
    law_seek(old(file)@, pos, r, final(file)@);
}

/// A seek by `v` and one by `-v` that stay within the file leave it where it stood.
pub proof fn law_file_seek_and_back<O: ReadOffset>(
    file: &mut File<O>,
    v: i64,
    r: Result<u64, InvalidSeek>,
    then: &mut File<O>,
    w: i64,
    s: Result<u64, InvalidSeek>,
)
    requires
        old(file)@.data is Some,
        0 <= old(file)@.position + v <= old(file)@.data->Some_0.data_length,
        call_ensures(File::<O>::seek, (file, SeekFrom::Current(v)), r),
        *old(then) == *final(file),
        w == -v,
        call_ensures(File::<O>::seek, (then, SeekFrom::Current(w)), s),
    ensures
        r is Ok,
        final(file)@.position - old(file)@.position == v,
        s == Ok::<u64, InvalidSeek>(old(file)@.position),
        final(then)@ == old(file)@,
{
}

/// Rewinding leads to the first byte, and the position that a file tells is the one
/// at which it stands.
pub proof fn law_file_rewind<O: ReadOffset>(
    file: &mut File<O>,
    r: (),
    then: &mut File<O>,
    told: u64,
)
    requires
        call_ensures(File::<O>::rewind, (file,), r),
        call_ensures(File::<O>::stream_position, (then,), told),
    ensures
        final(file)@.position == 0,
        final(file)@.name == old(file)@.name,
        final(file)@.len == old(file)@.len,
        final(file)@.timestamps == old(file)@.timestamps,
        final(file)@.data == old(file)@.data,
        final(file).device() == old(file).device(),
        told == old(then)@.position,
        final(then)@ == old(then)@,
        final(then).device() == old(then).device(),
{
}

/// A read of a file on an image puts the bytes of the file from where it stands to
/// the front of the buffer, touches nothing behind them, and moves on by as many. It
/// gives none only where none are wanted or left.
pub proof fn law_file_read<O: ReadOffset>(
    file: &mut File<O>,
    device: O,
    image: Seq<u8>,
    buf: &mut [u8],
    r: Result<usize, O::Err>,
)
    requires
        call_ensures(File::<O>::read, (file, buf), r),
        old(file).device() == Some(device),
        is_image(device.replies(), image),
    ensures
        final(buf)@.len() == old(buf)@.len(),
        old(file)@.data is Some,
        match r {
            Ok(n) => {
                let extent = old(file)@.data->Some_0;
                let from = old(file)@.position as int;
                &&& n <= old(buf)@.len() && from + n <= extent.data_length
                &&& final(buf)@.subrange(0, n as int) == extent.contents(image).subrange(
                    from,
                    from + n,
                )
                &&& final(buf)@.skip(n as int) == old(buf)@.skip(n as int)
                &&& final(file)@.position == from + n
                &&& n == 0 ==> old(buf)@.len() == 0 || from == extent.data_length
            },
            Err(_) => {
                &&& final(file)@.position == old(file)@.position
                &&& old(buf)@.len() > 0
                &&& old(file)@.position < old(file)@.data->Some_0.data_length
                &&& !lies_within(old(file)@.data->Some_0, image.len())
            },
        },
        final(file)@.name == old(file)@.name,
        final(file)@.len == old(file)@.len,
        final(file)@.timestamps == old(file)@.timestamps,
        final(file)@.data == old(file)@.data,
        final(file).device() == old(file).device(),
{
    let extent = old(file)@.data->Some_0;
    extent.law_read_gives_contents(
        device.replies(),
        image,
        old(file)@.position as int,
        old(buf)@.len(),
        outcome(r, final(buf)@),
    );
    if lies_within(extent, image.len()) {
        lemma_intact(extent, image);
    }
    extent.boot.lemma_sizes();
    let p = old(file)@.position as int;
    let size = extent.boot.cluster_size() as int;
    assert(0 <= p % size < size) by (nonlinear_arith)
        requires
            size > 0,
    ;
    law_read_moves_on(
        old(file)@,
        device.replies(),
        image,
        old(buf)@.len(),
        outcome(r, final(buf)@),
        final(file)@,
    );
    if let Ok(n) = r {
        let data = final(buf)@.take(n as int);
        assert(data =~= final(buf)@.subrange(0, n as int));
        assert(outcome(r, final(buf)@) == Ok::<Seq<u8>, O::Err>(data));
        assert(data.len() == n);
    }
}

/// A file without clusters reads as empty and leaves the buffer alone.
pub proof fn law_file_read_nothing<O: ReadOffset>(
    file: &mut File<O>,
    buf: &mut [u8],
    r: Result<usize, O::Err>,
)
    requires
        call_ensures(File::<O>::read, (file, buf), r),
        old(file)@.data is None,
    ensures
        r == Ok::<usize, O::Err>(0),
        final(buf)@ == old(buf)@,
        final(file)@ == old(file)@,
{
    assert(final(buf)@.skip(0) =~= final(buf)@);
    assert(old(buf)@.skip(0) =~= old(buf)@);
}

/// A copy of a file is the same file, standing at the same place.
pub proof fn law_file_copied<O: ReadOffset>(file: &File<O>, copy: File<O>)
    requires
        call_ensures(<File<O> as Clone>::clone, (file,), copy),
    ensures
        copy@ == file@,
        copy.device() == file.device(),
{
}

/// What is read through clusters is told as it is: how many bytes there are, where
/// the reader stands, and that a seek beyond the end is refused and moves nothing.
pub proof fn law_chain_reader<O: ReadOffset>(
    boot: Arc<BootSector>,
    fat: &Fat,
    first: u32,
    options: ClusterChainOptions,
    disk: Arc<O>,
    made: Result<ClusterChainReader<O>, ClusterChainError>,
    reader: &mut ClusterChainReader<O>,
    len: u64,
    told: u64,
    offset: u64,
    moved: bool,
)
    requires
        call_ensures(ClusterChainReader::<O>::try_new, (boot, fat, first, options, disk), made),
        call_ensures(ClusterChainReader::<O>::data_length, (old(reader),), len),
        call_ensures(ClusterChainReader::<O>::stream_position, (old(reader),), told),
        call_ensures(ClusterChainReader::<O>::seek, (reader, offset), moved),
    ensures
        match made {
            Ok(reader) => {
                &&& extent_of(*boot, fat@, first, options) == Ok::<Extent, ClusterChainError>(
                    reader.extent(),
                )
                &&& reader.pos() == 0
                &&& reader.device() == *disk
            },
            Err(e) => extent_of(*boot, fat@, first, options) == Err::<Extent, ClusterChainError>(e),
        },
        len == old(reader).extent().data_length,
        told == old(reader).pos(),
        moved <==> offset <= len,
        final(reader).pos() == if moved {
            offset
        } else {
            told
        },
        final(reader).extent() == old(reader).extent(),
{
}

/// The entries behind that of a file or directory are read until they make it up or
/// show that they do not.
pub proof fn law_set_read<O: ReadOffset>(
    file_entry: &FileEntry,
    reader: &mut DirEntryReader<O>,
    r: Result<ParsedFileEntry, FileParserError<O::Err>>,
)
    requires
        old(reader).wf(),
        call_ensures(ParsedFileEntry::try_new::<O>, (file_entry, reader), r),
    ensures
        ({
            let used = final(reader).log().skip(old(reader).log().len() as int);
            &&& final(reader).log() == old(reader).log() + used
            &&& r matches Ok(p) ==> {
                &&& used.len() == file_entry.secondary_count >= 2
                &&& used[0] == Ok::<DirEntry, EntryReaderError<O::Err>>(
                    DirEntry::StreamExtension(p.stream_extension_entry),
                )
                &&& fits(*file_entry, p.stream_extension_entry)
                &&& forall|i: int|
                    1 <= i < used.len() ==> (#[trigger] used[i] matches Ok(DirEntry::FileName(_)))
                &&& p.attributes == file_entry.file_attributes
            }
        }),
{
    let used = final(reader).log().skip(old(reader).log().len() as int);
    if let Ok(p) = r {
        let names = law_entry_set_is_whole(*file_entry, used, p@);
        assert forall|i: int| 1 <= i < used.len() implies (#[trigger] used[i] matches Ok(
            DirEntry::FileName(_),
        )) by {
            assert(used[(i - 1) + 1] == Ok::<DirEntry, EntryReaderError<O::Err>>(
                DirEntry::FileName(names[i - 1]),
            ));
        }
    }
}

/// What an entry means in a directory is told by its kind.
pub proof fn law_step<E>(entry: &DirEntry, r: Result<DirectoryStep, DirectoryError<E>>)
    requires
        call_ensures(step::<E>, (entry,), r),
    ensures
        match *entry {
            DirEntry::EndOfDirectory(_) => r matches Ok(DirectoryStep::End),
            DirEntry::Invalid => r matches Ok(DirectoryStep::End),
            DirEntry::Unused(t, _) => 1 <= t <= 127 ==> (r matches Ok(DirectoryStep::Skip)),
            DirEntry::File(file_entry) => r matches Ok(DirectoryStep::File(f)) && f == file_entry,
            DirEntry::Bitmap(_) => r matches Err(DirectoryError::NotFileEntry(t)) && t == 0x81,
            DirEntry::UpcaseTable(_) => r matches Err(DirectoryError::NotFileEntry(t)) && t == 0x82,
            DirEntry::VolumeLabel(_) => r matches Err(DirectoryError::NotFileEntry(t)) && t == 0x83,
            DirEntry::VolumeGuid(_) => r matches Err(DirectoryError::NotFileEntry(t)) && t == 0xA0,
            DirEntry::StreamExtension(_) => r matches Err(DirectoryError::NotPrimaryEntry(t)) && t
                == 0xC0,
            DirEntry::FileName(_) => r matches Err(DirectoryError::NotPrimaryEntry(t)) && t == 0xC1,
            DirEntry::VendorExtension(_) => r matches Err(DirectoryError::NotPrimaryEntry(t)) && t
                == 0xE0,
            DirEntry::VendorAllocation(_) => r matches Err(DirectoryError::NotPrimaryEntry(t)) && t
                == 0xE1,
        },
{
    law_uses(*entry);
}

/// What the root directory holds is handed out to be used, in order, and stays what
/// it is made there.
pub proof fn law_items_handed_out<O: ReadOffset>(root: &mut Root<O>, items: &mut [FsElement<O>])
    requires
        call_ensures(Root::<O>::items, (root,), items),
    ensures
        old(items)@ == old(root).elements(),
        final(root).elements() == final(items)@,
        final(root).volume_label() == old(root).volume_label(),
{
}

/// A read through clusters on an image puts the bytes from where the reader stands to
/// the front of the buffer, touches nothing behind them, and moves on by as many.
pub proof fn law_chain_read<O: ReadOffset>(
    reader: &mut ClusterChainReader<O>,
    image: Seq<u8>,
    buf: &mut [u8],
    r: Result<usize, O::Err>,
)
    requires
        call_ensures(ClusterChainReader::<O>::read, (reader, buf), r),
        is_image(old(reader).device().replies(), image),
    ensures
        final(buf)@.len() == old(buf)@.len(),
        match r {
            Ok(n) => {
                let extent = old(reader).extent();
                let from = old(reader).pos() as int;
                &&& n <= old(buf)@.len() && from + n <= extent.data_length
                &&& final(buf)@.subrange(0, n as int) == extent.contents(image).subrange(
                    from,
                    from + n,
                )
                &&& final(buf)@.skip(n as int) == old(buf)@.skip(n as int)
                &&& final(reader).pos() == from + n
                &&& n == 0 ==> old(buf)@.len() == 0 || from == extent.data_length
            },
            Err(_) => {
                &&& final(reader).pos() == old(reader).pos()
                &&& old(buf)@.len() > 0
                &&& old(reader).pos() < old(reader).extent().data_length
                &&& !lies_within(old(reader).extent(), image.len())
            },
        },
        final(reader).extent() == old(reader).extent(),
        final(reader).device() == old(reader).device(),
{
    let extent = old(reader).extent();
    let p = old(reader).pos() as int;
    extent.law_read_gives_contents(
        old(reader).device().replies(),
        image,
        p,
        old(buf)@.len(),
        outcome(r, final(buf)@),
    );
    if lies_within(extent, image.len()) {
        lemma_intact(extent, image);
    }
    extent.boot.lemma_sizes();
    let size = extent.boot.cluster_size() as int;
    assert(0 <= p % size < size) by (nonlinear_arith)
        requires
            size > 0,
    ;
    if let Ok(n) = r {
        let data = final(buf)@.take(n as int);
        assert(data =~= final(buf)@.subrange(0, n as int));
        assert(outcome(r, final(buf)@) == Ok::<Seq<u8>, O::Err>(data));
        assert(data.len() == n);
    }
}

/// Rewinding a reader leads to the first byte; a copy of one reads the same from the
/// same place on.
pub proof fn law_chain_rewind_and_copy<O: ReadOffset>(
    reader: &mut ClusterChainReader<O>,
    r: (),
    other: &ClusterChainReader<O>,
    copy: ClusterChainReader<O>,
)
    requires
        call_ensures(ClusterChainReader::<O>::rewind, (reader,), r),
        call_ensures(<ClusterChainReader<O> as Clone>::clone, (other,), copy),
    ensures
        final(reader).pos() == 0,
        final(reader).extent() == old(reader).extent(),
        final(reader).device() == old(reader).device(),
        copy.pos() == other.pos(),
        copy.extent() == other.extent(),
        copy.device() == other.device(),
{
}

/// The entries of a directory on an image are read from the first on, each in the 32
/// bytes where the reader stands, and the reader stands behind them then. Where the
/// directory has no 32 bytes more, the partition has ended and nothing moves.
pub proof fn law_entry_read<O: ReadOffset>(
    chain: ClusterChainReader<O>,
    fresh: DirEntryReader<O>,
    reader: &mut DirEntryReader<O>,
    image: Seq<u8>,
    r: Slot<O::Err>,
)
    requires
        call_ensures(DirEntryReader::<O>::from, (chain,), fresh),
        old(reader).wf(),
        call_ensures(DirEntryReader::<O>::read, (reader,), r),
        is_image(old(reader).device().replies(), image),
        lies_within(old(reader).extent(), image.len()),
        old(reader).extent().wf(),
        0 <= old(reader).position(),
        old(reader).position() % 32 == 0,
    ensures
        fresh.position() == 0,
        fresh.extent() == chain.extent(),
        fresh.device() == chain.device(),
        ({
            let p = old(reader).position();
            let extent = old(reader).extent();
            if p + 32 > extent.data_length {
                &&& r matches Err(EntryReaderError::Io(e)) && e.is_unexpected_eop()
                &&& final(reader).position() == p
            } else {
                &&& match r {
                    Ok(entry) => decode(extent.contents(image).subrange(p, p + 32)) == Some(entry),
                    _ => holds(extent.contents(image).subrange(p, p + 32), r),
                }
                &&& final(reader).position() == p + 32
            }
        }),
        final(reader).log() == old(reader).log().push(r),
        final(reader).extent() == old(reader).extent(),
        final(reader).device() == old(reader).device(),
{
    let p = old(reader).position();
    let extent = old(reader).extent();
    if p + 32 <= extent.data_length {
        lemma_intact(extent, image);
        lemma_whole_entry(extent, p);
        let replies = old(reader).device().replies();
        let raw = choose|raw: Result<Seq<u8>, O::Err>| #[trigger]
            extent.reads(replies, p, 32, raw) && r == slot_of(raw);
        extent.law_read_gives_contents(replies, image, p, 32, raw);
        law_types(raw->Ok_0);
    }
}

/// What an entry adds to what the root directory has told, or why it cannot stand
/// there: two bitmaps in their order, one table and one label.
pub proof fn law_take_in<E>(
    scan: &mut RootScan,
    entry: &DirEntry,
    r: Result<RootStep, RootError<E>>,
)
    requires
        call_ensures(RootScan::take_in::<E>, (scan, entry), r),
    ensures
        ({
            let a = *old(scan);
            let b = *final(scan);
            &&& r is Err ==> b == a
            &&& match *entry {
                DirEntry::EndOfDirectory(_) => (r matches Ok(RootStep::End)) && b == a,
                DirEntry::Invalid => (r matches Ok(RootStep::End)) && b == a,
                DirEntry::Unused(t, _) => 1 <= t <= 127 ==> (r matches Ok(RootStep::Continue)) && b
                    == a,
                DirEntry::File(f) => (r matches Ok(RootStep::File(g)) && f == g) && b == a,
                DirEntry::Bitmap(e) => {
                    let fits = e.first_cluster >= 2 && (e.flags % 2 == 1 <==> a.first_bitmap
                        is Some);
                    if a.second_bitmap is Some {
                        r matches Err(RootError::InvalidNumberOfAllocationBitmaps)
                    } else if !fits {
                        r matches Err(RootError::InvalidAllocationBitmap)
                    } else {
                        &&& r matches Ok(RootStep::Continue)
                        &&& a.first_bitmap is None ==> b.first_bitmap == Some(e)
                            && b.second_bitmap is None
                        &&& a.first_bitmap is Some ==> b.first_bitmap == a.first_bitmap
                            && b.second_bitmap == Some(e)
                        &&& b.upcase_table == a.upcase_table
                        &&& b.volume_label == a.volume_label
                    }
                },
                DirEntry::UpcaseTable(e) => if a.upcase_table is Some {
                    r matches Err(RootError::InvalidNumberOfUpcaseTables)
                } else if e.first_cluster < 2 {
                    r matches Err(RootError::InvalidUpcaseTable)
                } else {
                    &&& r matches Ok(RootStep::Continue)
                    &&& b.upcase_table == Some(e)
                    &&& b.first_bitmap == a.first_bitmap
                    &&& b.second_bitmap == a.second_bitmap
                    &&& b.volume_label == a.volume_label
                },
                DirEntry::VolumeLabel(e) => if a.volume_label is Some {
                    r matches Err(RootError::InvalidNumberOfVolumeLabels)
                } else if e.character_count > 11 {
                    r matches Err(RootError::InvalidVolumeLabel)
                } else {
                    &&& r matches Ok(RootStep::Continue)
                    &&& b.volume_label == Some(Label(e.volume_label, e.character_count))
                    &&& b.first_bitmap == a.first_bitmap
                    &&& b.second_bitmap == a.second_bitmap
                    &&& b.upcase_table == a.upcase_table
                },
                DirEntry::VolumeGuid(_) => r matches Err(RootError::UnexpectedRootEntry(t)) && t
                    == 0xA0,
                DirEntry::StreamExtension(_) => r matches Err(RootError::RootEntryNotPrimary(t))
                    && t == 0xC0,
                DirEntry::FileName(_) => r matches Err(RootError::RootEntryNotPrimary(t)) && t
                    == 0xC1,
                DirEntry::VendorExtension(_) => r matches Err(RootError::RootEntryNotPrimary(t))
                    && t == 0xE0,
                DirEntry::VendorAllocation(_) => r matches Err(RootError::RootEntryNotPrimary(t))
                    && t == 0xE1,
            }
        }),
{
    law_uses(*entry);
    if let DirEntry::Bitmap(e) = *entry {
        let v = e.flags;
        assert(v & 1 == v % 2) by (bit_vector);
    }
}

/// A root directory has told enough if it has told of a table and of as many bitmaps
/// as there are FATs. At first it has told nothing.
pub proof fn law_complete<E>(
    fresh: RootScan,
    scan: &RootScan,
    number_of_fats: u8,
    r: Result<(), RootError<E>>,
)
    requires
        call_ensures(RootScan::new, (), fresh),
        call_ensures(RootScan::complete::<E>, (scan, number_of_fats), r),
    ensures
        fresh.first_bitmap is None && fresh.second_bitmap is None,
        fresh.upcase_table is None && fresh.volume_label is None,
        ({
            let enough = scan.first_bitmap is Some && (number_of_fats == 2 ==> scan.second_bitmap
                is Some);
            match r {
                Ok(_) => enough && scan.upcase_table is Some,
                Err(RootError::InvalidNumberOfAllocationBitmaps) => !enough,
                Err(RootError::InvalidNumberOfUpcaseTables) => enough && scan.upcase_table is None,
                _ => false,
            }
        }),
{
}

} // verus!
