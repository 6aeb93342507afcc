//! Files: what they are made from, and moving about and reading in them.
use vstd::prelude::*;

use crate::boot_sector::BootSector;
use crate::cluster::{extent_of, ClusterChainOptions, Extent};
use crate::disk::{is_image, outcome, PartitionError, ReadOffset, Replies, SeekFrom};
use crate::entry::parsed::{parsed_view, ParsedFile, ParsedFileEntry};
use crate::entry::StreamExtensionEntry;
use crate::error::{ClusterChainError, InvalidSeek};
use crate::fs::directory::{listing, Directory, DirectoryView};
use crate::fs::file::{file_of, File, FileView};
use crate::fs::{element_view, node_of, nodes, FsElement, Node};
use crate::laws::entries::{law_attributes, law_secondary_flags};
use crate::root::{opened, Root};
use crate::timestamp::Timestamps;

verus! {

/// A move by `v` from some place leads to the place `v` further on. What is beyond
/// the end is the end, and what is before the first byte is refused.
pub open spec fn leads(from: int, v: int, len: int, r: Result<u64, InvalidSeek>) -> bool {
    match r {
        Ok(o) => {
            &&& 0 <= from + v
            &&& from + v <= len ==> o == from + v
            &&& from + v > len ==> o == len
        },
        Err(_) => from + v < 0,
    }
}

/// A seek leads as far from where it is counted as it says: from the first byte,
/// from the end, or from where the file stands. It changes nothing but where the
/// file stands, and where it is refused, nothing at all. A file without clusters
/// stays where it is.
pub proof fn law_seek(
    file: FileView,
    pos: SeekFrom,
    r: Result<u64, InvalidSeek>,
    after: FileView,
)
    requires
        file.wf(),
        file.seeks(pos, r, after),
    ensures
        file.data matches Some(extent) ==> match pos {
            SeekFrom::Start(v) => leads(0, v as int, extent.data_length as int, r),
            SeekFrom::End(v) => leads(
                extent.data_length as int,
                v as int,
                extent.data_length as int,
                r,
            ),
            SeekFrom::Current(v) => leads(
                file.position as int,
                v as int,
                extent.data_length as int,
                r,
            ),
        },
        file.data is None ==> r == Ok::<u64, InvalidSeek>(0) && after == file,
        r matches Ok(o) ==> after.position == o,
        r is Err ==> after.position == file.position,
        after.name == file.name,
        after.len == file.len,
        after.timestamps == file.timestamps,
        after.data == file.data,
        after.wf(),
{
}

/// A seek can be undone: a move by `v` and one by `-v` that stay within the file
/// leave it as it was.
pub proof fn law_seek_there_and_back(
    file: FileView,
    v: i64,
    back: i64,
    there: Result<u64, InvalidSeek>,
    mid: FileView,
    r: Result<u64, InvalidSeek>,
    after: FileView,
)
    requires
        file.wf(),
        file.data is Some,
        back == -v,
        0 <= file.position + v <= file.data->Some_0.data_length,
        file.seeks(SeekFrom::Current(v), there, mid),
        mid.seeks(SeekFrom::Current(back), r, after),
    ensures
        there is Ok,
        mid.position - file.position == v,
        r == Ok::<u64, InvalidSeek>(file.position),
        after == file,
{
}

/// Two moves that stay within the file lead where one by both together does.
pub proof fn law_seeks_add_up(
    file: FileView,
    v: i64,
    w: i64,
    both: i64,
    mid: FileView,
    after: FileView,
    once: FileView,
    r: (Result<u64, InvalidSeek>, Result<u64, InvalidSeek>, Result<u64, InvalidSeek>),
)
    requires
        file.wf(),
        file.data is Some,
        both == v + w,
        0 <= file.position + v <= file.data->Some_0.data_length,
        file.seeks(SeekFrom::Current(v), r.0, mid),
        mid.seeks(SeekFrom::Current(w), r.1, after),
        file.seeks(SeekFrom::Current(both), r.2, once),
    ensures
        r.1 == r.2,
        r.1 is Ok ==> after == once,
{
}

/// Counting from the end is counting from where the file stands once it stands at
/// the end, and counting from the first byte likewise.
pub proof fn law_seek_from_ends(
    file: FileView,
    v: i64,
    at_end: FileView,
    at_start: FileView,
    r: Result<u64, InvalidSeek>,
    after: FileView,
)
    requires
        file.wf(),
        file.data is Some,
        file.seeks(SeekFrom::Start(u64::MAX), Ok(at_end.position), at_end),
        file.seeks(SeekFrom::Start(0), Ok(0), at_start),
    ensures
        at_end.position == file.data->Some_0.data_length,
        at_start.position == 0,
        file.seeks(SeekFrom::End(v), r, after) && r is Ok ==> at_end.seeks(
            SeekFrom::Current(v),
            r,
            after,
        ),
        v >= 0 && file.seeks(SeekFrom::Start(v as u64), r, after) ==> at_start.seeks(
            SeekFrom::Current(v),
            r,
            after,
        ),
{
}

/// Where a seek leads does not depend on where the file stood, unless it is counted
/// from there.
pub proof fn law_seek_forgets(
    a: FileView,
    b: FileView,
    pos: SeekFrom,
    r: Result<u64, InvalidSeek>,
    s: Result<u64, InvalidSeek>,
    after: FileView,
    other: FileView,
)
    requires
        a.data == b.data,
        !(pos is Current),
        a.seeks(pos, r, after),
        b.seeks(pos, s, other),
    ensures
        r == s,
        r is Ok ==> after.position == other.position,
{
}

/// A read gives the bytes of the file from where it stands, and the file then stands
/// behind them. A read that fails leaves it where it stood.
pub proof fn law_read_moves_on<E: PartitionError>(
    file: FileView,
    replies: Replies<E>,
    image: Seq<u8>,
    want: nat,
    r: Result<Seq<u8>, E>,
    after: FileView,
)
    requires
        file.wf(),
        is_image(replies, image),
        file.reads(replies, want, r, after),
    ensures
        match r {
            Ok(data) => {
                &&& after.position == file.position + data.len()
                &&& file.data matches Some(extent) ==> {
                    &&& after.position <= extent.data_length
                    &&& data == extent.contents(image).subrange(
                        file.position as int,
                        after.position as int,
                    )
                    &&& data.len() == 0 ==> want == 0 || file.position == extent.data_length
                }
                &&& file.data is None ==> data.len() == 0
                &&& data.len() <= want
            },
            Err(_) => after == file,
        },
        after.name == file.name,
        after.len == file.len,
        after.timestamps == file.timestamps,
        after.data == file.data,
        after.wf(),
{
    if let Some(extent) = file.data {
        let p = file.position as int;
        extent.law_read_gives_contents(replies, image, p, want, r);
        extent.boot.lemma_sizes();
        let size = extent.boot.cluster_size() as int;
        assert(0 <= p % size < size) by (nonlinear_arith)
            requires
                size > 0,
        ;
    }
}

/// A read behind a seek gives the bytes from where the seek led.
pub proof fn law_seek_then_read<E: PartitionError>(
    file: FileView,
    o: u64,
    found: u64,
    mid: FileView,
    replies: Replies<E>,
    image: Seq<u8>,
    want: nat,
    data: Seq<u8>,
    after: FileView,
)
    requires
        file.wf(),
        file.data is Some,
        o <= file.data->Some_0.data_length,
        is_image(replies, image),
        file.seeks(SeekFrom::Start(o), Ok(found), mid),
        mid.reads(replies, want, Ok(data), after),
    ensures
        found == o,
        data == file.data->Some_0.contents(image).subrange(o as int, o + data.len()),
        after.position == o + data.len(),
{
    law_read_moves_on(mid, replies, image, want, Ok(data), after);
}

/// A stream extension describes a file of its name and times, as long as its valid
/// data. Without a first cluster it has no data. With one, its clusters follow one
/// another where the flags have bit 1, and the FAT lists them where they do not.
pub proof fn law_file_of_stream(
    boot: BootSector,
    fat: Seq<u32>,
    name: Seq<char>,
    stream: StreamExtensionEntry,
    times: Timestamps,
)
    ensures
        ({
            let r = file_of(boot, fat, name, stream, times);
            let len = stream.valid_data_length;
            let data = extent_of(
                boot,
                fat,
                stream.first_cluster,
                if (stream.general_secondary_flags.0 / 2) % 2 == 1 {
                    ClusterChainOptions::Contiguous { data_length: len }
                } else {
                    ClusterChainOptions::Fat { data_length: Some(len) }
                },
            );
            &&& r matches Ok(file) ==> {
                &&& file.name == name
                &&& file.len == len
                &&& file.timestamps == times
                &&& file.position == 0
                &&& stream.first_cluster == 0 ==> file.data is None
                &&& stream.first_cluster != 0 ==> file.data is Some && data == Ok::<
                    Extent,
                    ClusterChainError,
                >(file.data->Some_0)
            }
            &&& r matches Err(e) ==> stream.first_cluster != 0 && data == Err::<
                Extent,
                ClusterChainError,
            >(e)
        }),
{
    law_secondary_flags(stream.general_secondary_flags);
}

/// The bytes of a directory are all the data of its stream, whose clusters follow
/// one another where the flags have bit 1, and which the FAT lists where they do
/// not.
pub proof fn law_directory_of_stream(directory: DirectoryView)
    ensures
        directory.extent() == extent_of(
            directory.boot,
            directory.fat,
            directory.stream.first_cluster,
            if (directory.stream.general_secondary_flags.0 / 2) % 2 == 1 {
                ClusterChainOptions::Contiguous { data_length: directory.stream.data_len }
            } else {
                ClusterChainOptions::Fat { data_length: Some(directory.stream.data_len) }
            },
        ),
{
    law_secondary_flags(directory.stream.general_secondary_flags);
}

/// Entries describe a directory where the attributes have bit 4, and a file where
/// they do not. A directory is never refused; a file is where its clusters are.
pub proof fn law_node_of_entries(boot: BootSector, fat: Seq<u32>, parsed: ParsedFile)
    ensures
        ({
            let r = node_of(boot, fat, parsed);
            if (parsed.attributes.0 / 16) % 2 == 1 {
                r matches Ok(Node::Directory(directory)) && {
                    &&& directory.name == parsed.name
                    &&& directory.stream == parsed.stream
                    &&& directory.timestamps == parsed.timestamps
                    &&& directory.boot == boot
                    &&& directory.fat == fat
                }
            } else {
                match file_of(boot, fat, parsed.name, parsed.stream, parsed.timestamps) {
                    Ok(file) => r == Ok::<Node, ClusterChainError>(Node::File(file)),
                    Err(e) => r == Err::<Node, ClusterChainError>(e),
                }
            }
        }),
{
    law_attributes(parsed.attributes);
}

/// What is said of what a call returns is said of all of it, in order: of the bytes
/// that were read, the entries that were put together, and what was listed.
pub proof fn law_results_are_seen_whole<O: ReadOffset, F>(
    read: Result<usize, F>,
    buffer: Seq<u8>,
    parsed: Result<ParsedFileEntry, F>,
    element: Result<FsElement<O>, F>,
    listed: Result<Vec<FsElement<O>>, F>,
    root: Result<Root<O>, F>,
    file: File<O>,
    directory: Directory<O>,
    items: Seq<FsElement<O>>,
    i: int,
)
    requires
        0 <= i < items.len(),
        read matches Ok(n) ==> n <= buffer.len(),
    ensures
        match read {
            Ok(n) => outcome(read, buffer) == Ok::<Seq<u8>, F>(buffer.subrange(0, n as int)),
            Err(e) => outcome(read, buffer) == Err::<Seq<u8>, F>(e),
        },
        match parsed {
            Ok(p) => parsed_view(parsed) is Ok && parsed_view(parsed)->Ok_0.name == p.name@
                && parsed_view(parsed)->Ok_0.attributes == p.attributes && parsed_view(
                parsed,
            )->Ok_0.stream == p.stream_extension_entry && parsed_view(parsed)->Ok_0.timestamps
                == p.timestamps,
            Err(e) => parsed_view(parsed) == Err::<ParsedFile, F>(e),
        },
        FsElement::F(file)@ == Node::File(file@),
        FsElement::D(directory)@ == Node::Directory(directory@),
        match element {
            Ok(e) => element_view(element) == Ok::<Node, F>(e@),
            Err(e) => element_view(element) == Err::<Node, F>(e),
        },
        nodes(items).len() == items.len(),
        nodes(items)[i] == items[i]@,
        match listed {
            Ok(v) => listing(listed) == Ok::<Seq<Node>, F>(nodes(v@)),
            Err(e) => listing(listed) == Err::<Seq<Node>, F>(e),
        },
        match root {
            Ok(r) => opened(root) is Ok && opened(root)->Ok_0.label == r.volume_label() && opened(
                root,
            )->Ok_0.items == nodes(r.elements()),
            Err(e) => opened(root) is Err && opened(root)->Err_0 == e,
        },
{
    if let Ok(n) = read {
        assert(buffer.take(n as int) =~= buffer.subrange(0, n as int));
    }
}

} // verus!
