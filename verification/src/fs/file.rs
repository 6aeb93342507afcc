//! Files.
use std::sync::Arc;
use vstd::prelude::*;

use crate::boot_sector::BootSector;
use crate::cluster::{extent_of, share, ClusterChainOptions, ClusterChainReader, Extent};
use crate::disk::{is_image, outcome, PartitionError, ReadOffset, Replies, SeekFrom};
use crate::entry::{ClusterAllocation, StreamExtensionEntry};
use crate::error::{ClusterChainError, InvalidSeek};
use crate::fat::Fat;
use crate::timestamp::Timestamps;

verus! {

/// What is known of a file, and where in it the next read begins.
#[verifier::ext_equal]
pub struct FileView {
    pub name: Seq<char>,
    pub len: u64,
    pub timestamps: Timestamps,
    /// The bytes of the file. A file without clusters has none.
    pub data: Option<Extent>,
    pub position: u64,
}

impl FileView {
    /// The file stands at one of its bytes or at its end.
    pub open spec fn wf(self) -> bool {
        match self.data {
            Some(extent) => extent.wf() && self.position <= extent.data_length,
            None => self.position == 0,
        }
    }

    /// The file stands at its first byte and has as many bytes as it is long.
    pub open spec fn unread(self) -> bool {
        &&& self.wf()
        &&& self.position == 0
        &&& match self.data {
            Some(extent) => extent.data_length == self.len,
            None => self.len == 0,
        }
    }

    /// The bytes of the file, where the volume holds `image`.
    pub open spec fn contents(self, image: Seq<u8>) -> Seq<u8> {
        match self.data {
            Some(extent) => extent.contents(image),
            None => Seq::empty(),
        }
    }

    /// `parts` may be what is read from the position of the file on, one read
    /// behind the other, each of them for some bytes, up to the first that gives
    /// none. A file without clusters gives none at once.
    pub open spec fn reads_through<E: PartitionError>(
        self,
        replies: Replies<E>,
        parts: Seq<Seq<u8>>,
    ) -> bool {
        match self.data {
            Some(extent) => extent.reads_through(replies, self.position as int, parts),
            None => parts == seq![Seq::<u8>::empty()],
        }
    }

    /// Moving the file to `pos` returns `r` and leaves it as `after`.
    pub open spec fn seeks(
        self,
        pos: SeekFrom,
        r: Result<u64, InvalidSeek>,
        after: FileView,
    ) -> bool {
        let target = match self.data {
            Some(extent) => seek_target(pos, self.position, extent.data_length),
            None => Some(0u64),
        };
        match target {
            Some(o) => {
                &&& r == Ok::<u64, InvalidSeek>(o)
                &&& after == (FileView { position: o, ..self })
            },
            None => r == Err::<u64, InvalidSeek>(InvalidSeek) && after == self,
        }
    }

    /// Reading `want` bytes of the file may return `r` and leave it as `after`.
    pub open spec fn reads<E: PartitionError>(
        self,
        replies: Replies<E>,
        want: nat,
        r: Result<Seq<u8>, E>,
        after: FileView,
    ) -> bool {
        &&& match self.data {
            Some(extent) => extent.reads(replies, self.position as int, want, r),
            None => r == Ok::<Seq<u8>, E>(Seq::empty()),
        }
        &&& after == match r {
            Ok(data) => FileView { position: (self.position + data.len()) as u64, ..self },
            Err(_) => self,
        }
    }

    /// Reading an image on until nothing comes gives the bytes of the file from
    /// its position on.
    pub proof fn law_reads_through_contents<E: PartitionError>(
        self,
        replies: Replies<E>,
        image: Seq<u8>,
        parts: Seq<Seq<u8>>,
    )
        requires
            self.wf(),
            is_image(replies, image),
            self.reads_through(replies, parts),
        ensures
            parts.flatten() == self.contents(image).skip(self.position as int),
    {
        match self.data {
            Some(extent) => {
                extent.law_reads_through_contents(replies, image, self.position as int, parts);
            },
            None => {
                parts.lemma_flatten_one_element();
                assert(parts.flatten() =~= self.contents(image).skip(0));
            },
        }
    }
}

/// How the clusters of a stream are found, where `len` of its bytes are of
/// interest.
pub open spec fn stream_options(stream: StreamExtensionEntry, len: u64) -> ClusterChainOptions {
    if stream.general_secondary_flags.contiguous() {
        ClusterChainOptions::Contiguous { data_length: len }
    } else {
        ClusterChainOptions::Fat { data_length: Some(len) }
    }
}

/// What is known of the file that a stream extension describes.
pub open spec fn file_of(
    boot: BootSector,
    fat: Seq<u32>,
    name: Seq<char>,
    stream: StreamExtensionEntry,
    timestamps: Timestamps,
) -> Result<FileView, ClusterChainError> {
    let len = stream.valid_data_length;
    if stream.first_cluster == 0 {
        Ok(FileView { name, len, timestamps, data: None, position: 0 })
    } else {
        match extent_of(boot, fat, stream.first_cluster, stream_options(stream, len)) {
            Ok(extent) => Ok(FileView { name, len, timestamps, data: Some(extent), position: 0 }),
            Err(e) => Err(e),
        }
    }
}

/// Where a seek leads in a file of `len` bytes that stands at `position`: never
/// beyond the end. There is nothing before the first byte.
pub open spec fn seek_target(pos: SeekFrom, position: u64, len: u64) -> Option<u64> {
    let target: int = match pos {
        SeekFrom::Start(v) => v as int,
        SeekFrom::End(v) => len + v,
        SeekFrom::Current(v) => position + v,
    };
    if target < 0 {
        None
    } else if target > len {
        Some(len)
    } else {
        Some(target as u64)
    }
}

/// A seek that is not refused leads no further than the end; one to the first
/// byte, to the end or by nothing leads there.
pub proof fn law_seek_target(pos: SeekFrom, position: u64, len: u64)
    requires
        position <= len,
    ensures
        seek_target(pos, position, len) matches Some(o) ==> o <= len,
        seek_target(SeekFrom::Start(0), position, len) == Some(0u64),
        seek_target(SeekFrom::End(0), position, len) == Some(len),
        seek_target(SeekFrom::Current(0), position, len) == Some(position),
{
}

/// A file has as many bytes as it is long, and where it has no clusters it is
/// empty.
pub proof fn law_file_has_its_length(
    boot: BootSector,
    fat: Seq<u32>,
    name: Seq<char>,
    stream: StreamExtensionEntry,
    timestamps: Timestamps,
)
    requires
        stream.is_valid(),
        file_of(boot, fat, name, stream, timestamps) is Ok,
    ensures
        match file_of(boot, fat, name, stream, timestamps)->Ok_0.data {
            Some(extent) => extent.data_length == stream.valid_data_length,
            None => stream.valid_data_length == 0,
        },
{
}

/// Represents a file in an exFAT filesystem.
pub struct File<O: ReadOffset> {
    name: String,
    len: u64,
    reader: Option<ClusterChainReader<O>>,
    timestamps: Timestamps,
}

impl<O: ReadOffset> View for File<O> {
    type V = FileView;

    closed spec fn view(&self) -> FileView {
        FileView {
            name: self.name@,
            len: self.len,
            timestamps: self.timestamps,
            data: match self.reader {
                Some(reader) => Some(reader.extent()),
                None => None,
            },
            position: match self.reader {
                Some(reader) => reader.pos(),
                None => 0,
            },
        }
    }
}

impl<O: ReadOffset> Clone for File<O> {
    fn clone(&self) -> (r: Self)
        ensures
            r@ == self@,
            r.device() == self.device(),
    {
        let reader = match &self.reader {
            Some(reader) => Some(reader.clone()),
            None => None,
        };
        File { name: self.name.clone(), len: self.len, reader, timestamps: self.timestamps }
    }
}

impl<O: ReadOffset> File<O> {
    /// What the bytes of the file are read from. A file without clusters is not
    /// read.
    pub closed spec fn device(self) -> Option<O> {
        match self.reader {
            Some(reader) => Some(reader.device()),
            None => None,
        }
    }

    pub fn try_new(
        disk: &Arc<O>,
        boot: &Arc<BootSector>,
        fat: &Fat,
        name: String,
        stream: StreamExtensionEntry,
        timestamps: Timestamps,
    ) -> (r: Result<Self, ClusterChainError>)
        requires
            boot.valid(),
            fat@.len() == boot.cluster_count + 2,
        ensures
            match (file_of(**boot, fat@, name@, stream, timestamps), r) {
                (Ok(view), Ok(file)) => {
                    &&& file@ == view
                    &&& file.device() == (if stream.first_cluster == 0 {
                        None
                    } else {
                        Some(**disk)
                    })
                },
                (Err(a), Err(b)) => a == b,
                _ => false,
            },
    {
        // create a cluster reader
        let first_cluster: u32 = stream.first_cluster;
        let len: u64 = stream.valid_data_length;
        let reader = if first_cluster == 0 {
            None
        } else {
            let options = if stream.general_secondary_flags.no_fat_chain() {
                ClusterChainOptions::Contiguous { data_length: len }
            } else {
                ClusterChainOptions::Fat { data_length: Some(len) }
            };
            match ClusterChainReader::try_new(
                share(boot),
                fat,
                first_cluster,
                options,
                share(disk),
            ) {
                Ok(reader) => Some(reader),
                Err(e) => return Err(e),
            }
        };

        Ok(File { name, len, reader, timestamps })
    }

    pub fn name(&self) -> (r: &str)
        ensures
            r@ == self@.name,
    {
        self.name.as_str()
    }

    pub fn is_empty(&self) -> (r: bool)
        ensures
            r == (self@.len == 0),
    {
        self.len == 0
    }

    pub fn len(&self) -> (r: u64)
        ensures
            r == self@.len,
    {
        self.len
    }

    pub fn timestamps(&self) -> (r: &Timestamps)
        ensures
            *r == self@.timestamps,
    {
        &self.timestamps
    }

    /// Moves to `pos` and says where that is. A position beyond the end is the
    /// end; one before the first byte is refused, and the file stays where it is.
    /// A file without clusters has only the position 0.
    pub fn seek(&mut self, pos: SeekFrom) -> (r: Result<u64, InvalidSeek>)
        ensures
            r == match old(self)@.data {
                None => Ok::<u64, InvalidSeek>(0),
                Some(extent) => match seek_target(
                    pos,
                    old(self)@.position,
                    extent.data_length,
                ) {
                    Some(o) => Ok(o),
                    None => Err(InvalidSeek),
                },
            },
            final(self)@ == (FileView {
                position: match r {
                    Ok(o) => o,
                    Err(_) => old(self)@.position,
                },
                ..old(self)@
            }),
            old(self)@.wf(),
            old(self)@.seeks(pos, r, final(self)@),
            final(self).device() == old(self).device(),
    {
        match &mut self.reader {
            None => Ok(0),
            Some(r) => {
                let len: u64 = r.data_length();
                let here: u64 = r.stream_position();
                // get absolute offset.
                let o: u64 = match pos {
                    SeekFrom::Start(v) => if v < len {
                        v
                    } else {
                        len
                    },
                    SeekFrom::End(v) => if v >= 0 {
                        len
                    } else {
                        match len.checked_sub(magnitude(v)) {
                            Some(o) => o,
                            None => return Err(InvalidSeek),
                        }
                    },
                    SeekFrom::Current(v) => if v >= 0 {
                        let o: u64 = here.saturating_add(v as u64);
                        if o < len {
                            o
                        } else {
                            len
                        }
                    } else {
                        match here.checked_sub(magnitude(v)) {
                            Some(o) => o,
                            None => return Err(InvalidSeek),
                        }
                    },
                };
                let moved: bool = r.seek(o);
                assert(moved);
                Ok(o)
            },
        }
    }

    /// Moves to the first byte.
    pub fn rewind(&mut self)
        ensures
            final(self)@ == (FileView { position: 0, ..old(self)@ }),
            old(self)@.seeks(SeekFrom::Start(0), Ok(0), final(self)@),
            final(self).device() == old(self).device(),
    {
        match &mut self.reader {
            Some(r) => r.rewind(),
            None => {},
        }
    }

    /// Where the next read begins.
    pub fn stream_position(&mut self) -> (r: u64)
        ensures
            old(self)@.wf(),
            r == old(self)@.position,
            final(self)@ == old(self)@,
            final(self).device() == old(self).device(),
    {
        match &self.reader {
            Some(r) => r.stream_position(),
            None => 0,
        }
    }

    /// Reads bytes to the front of `buf` and says how many they are.
    pub fn read(&mut self, buf: &mut [u8]) -> (r: Result<usize, O::Err>)
        ensures
            old(self)@.wf(),
            final(buf)@.len() == old(buf)@.len(),
            match (old(self)@.data, old(self).device()) {
                (Some(extent), Some(device)) => extent.reads(
                    device.replies(),
                    old(self)@.position as int,
                    old(buf)@.len(),
                    outcome(r, final(buf)@),
                ),
                _ => r matches Ok(n) && n == 0,
            },
            r matches Ok(n) ==> n <= old(buf)@.len() && final(buf)@.skip(n as int) == old(
                buf,
            )@.skip(n as int),
            final(self)@ == (FileView {
                position: (old(self)@.position + match r {
                    Ok(n) => n as int,
                    Err(_) => 0,
                }) as u64,
                ..old(self)@
            }),
            old(self).device() matches Some(device) ==> old(self)@.reads(
                device.replies(),
                old(buf)@.len(),
                outcome(r, final(buf)@),
                final(self)@,
            ),
            old(self).device() is Some <==> old(self)@.data is Some,
            final(self).device() == old(self).device(),
    {
        match &mut self.reader {
            Some(v) => v.read(buf),
            None => Ok(0),
        }
    }
}

/// How far below zero `v` is.
fn magnitude(v: i64) -> (r: u64)
    requires
        v < 0,
    ensures
        r == -v,
{
    (-(v + 1)) as u64 + 1
}

} // verus!
