//! Putting together the entries that make up a file or directory.
use vstd::prelude::*;

use crate::disk::ReadOffset;
use crate::entry::reader::{all_ok, DirEntryReader, Slot};
use crate::entry::{
    ClusterAllocation, DirEntry, FileAttributes, FileEntry, FileNameEntry, StreamExtensionEntry,
};
use crate::error::{EntryReaderError, FileParserError};
use crate::le::{le_value, read_u16};
use crate::timestamp::{Timestamp, Timestamps};

verus! {

/// How many UTF-16 units of a name one entry holds.
pub const UNITS_PER_ENTRY: usize = 15;

/// The first of two units that spell one character.
pub open spec fn is_high_surrogate(unit: u16) -> bool {
    0xD800 <= unit <= 0xDBFF
}

/// The second of two units that spell one character.
pub open spec fn is_low_surrogate(unit: u16) -> bool {
    0xDC00 <= unit <= 0xDFFF
}

/// The characters that UTF-16 units spell, `None` where a surrogate stands alone.
pub open spec fn utf16_decode(units: Seq<u16>) -> Option<Seq<char>>
    decreases units.len(),
{
    if units.len() == 0 {
        Some(Seq::empty())
    } else if is_high_surrogate(units[0]) && units.len() >= 2 && is_low_surrogate(units[1]) {
        let c = (0x1_0000 + (units[0] - 0xD800) * 0x400 + (units[1] - 0xDC00)) as char;
        match utf16_decode(units.skip(2)) {
            Some(rest) => Some(seq![c] + rest),
            None => None,
        }
    } else if is_high_surrogate(units[0]) || is_low_surrogate(units[0]) {
        None
    } else {
        match utf16_decode(units.skip(1)) {
            Some(rest) => Some(seq![units[0] as char] + rest),
            None => None,
        }
    }
}

/// The string that UTF-16 units spell. This is `String::from_utf16`, which by its
/// documentation decodes them and gives an error where they are invalid.
#[verifier::external_body]
fn string_from_utf16(units: &[u16]) -> (r: Option<String>)
    ensures
        match r {
            Some(s) => utf16_decode(units@) == Some(s@),
            None => utf16_decode(units@) is None,
        },
{
    String::from_utf16(units).ok()
}

/// The first `n` units of the part of a name that an entry holds.
pub open spec fn name_units(entry: FileNameEntry, n: nat) -> Seq<u16> {
    Seq::new(n, |i: int| le_value(entry.file_name@.subrange(2 * i, 2 * i + 2)) as u16)
}

/// How many units the next entry holds while `left` are to come.
pub open spec fn units_in_next(left: nat) -> nat {
    if left < UNITS_PER_ENTRY {
        left
    } else {
        UNITS_PER_ENTRY as nat
    }
}

/// The name of `len` units that the entries spell, each on its own. There is none
/// where an entry claims clusters or its units are not UTF-16.
pub open spec fn name_of(names: Seq<FileNameEntry>, len: nat) -> Option<Seq<char>>
    decreases names.len(),
{
    if names.len() == 0 {
        Some(Seq::empty())
    } else if names[0].general_secondary_flags.may_allocate() {
        None
    } else {
        let n = units_in_next(len);
        match (utf16_decode(name_units(names[0], n)), name_of(names.skip(1), (len - n) as nat)) {
            (Some(part), Some(rest)) => Some(part + rest),
            _ => None,
        }
    }
}

/// The offset from UTC that a byte gives: its low seven bits, where the highest
/// bit says that they count.
pub open spec fn utc_offset(b: u8) -> i8 {
    if b >= 0x80 {
        (b - 0x80) as i8
    } else {
        0
    }
}

fn read_utc_offset(b: u8) -> (r: i8)
    ensures
        r == utc_offset(b),
{
    assert((((b >> 7) & 1) == 1) == (b >= 0x80)) by (bit_vector);
    assert(b >= 0x80 ==> b & 0x7F == b - 0x80) by (bit_vector);
    if ((b >> 7) & 1) == 1 {
        (b & 0x7F) as i8
    } else {
        0
    }
}

/// The times that an entry gives. There are no tens of milliseconds of the last
/// access.
pub open spec fn timestamps_of(file_entry: FileEntry) -> Timestamps {
    Timestamps {
        created: Timestamp {
            timestamp: file_entry.create_timestamp,
            increment_10ms: file_entry.create_10ms_increment,
            utc_offset: utc_offset(file_entry.create_utc_offset),
        },
        modified: Timestamp {
            timestamp: file_entry.last_modified_timestamp,
            increment_10ms: file_entry.last_modified_10ms_increment,
            utc_offset: utc_offset(file_entry.last_modified_utc_offset),
        },
        accessed: Timestamp {
            timestamp: file_entry.last_accessed_timestamp,
            increment_10ms: 0,
            utc_offset: utc_offset(file_entry.last_accessed_utc_offset),
        },
    }
}

/// What the entries of a file or directory say.
#[verifier::ext_equal]
pub struct ParsedFile {
    pub name: Seq<char>,
    pub attributes: FileAttributes,
    pub stream: StreamExtensionEntry,
    pub timestamps: Timestamps,
}

/// What the entries of a file or directory say together, or what is wrong with
/// their names.
pub open spec fn assembled<E>(
    file_entry: FileEntry,
    stream: StreamExtensionEntry,
    names: Seq<FileNameEntry>,
) -> Result<ParsedFile, FileParserError<E>> {
    if names.len() != (stream.name_length + UNITS_PER_ENTRY - 1) / UNITS_PER_ENTRY as int {
        Err(FileParserError::WrongFileNameEntries)
    } else {
        match name_of(names, stream.name_length as nat) {
            None => Err(FileParserError::InvalidFileName),
            Some(name) => Ok(
                ParsedFile {
                    name,
                    attributes: file_entry.file_attributes,
                    stream,
                    timestamps: timestamps_of(file_entry),
                },
            ),
        }
    }
}

/// The first `count` slots as entries of a name, `None` where slots are missing
/// that would decide.
pub open spec fn names_in<E>(slots: Seq<Slot<E>>, count: nat) -> Option<
    Result<Seq<FileNameEntry>, FileParserError<E>>,
>
    decreases count,
{
    if count == 0 {
        Some(Ok(Seq::empty()))
    } else if slots.len() == 0 {
        None
    } else {
        match slots[0] {
            Err(e) => Some(Err(FileParserError::Reader(e))),
            Ok(DirEntry::FileName(name)) => match names_in(slots.skip(1), (count - 1) as nat) {
                Some(Ok(rest)) => Some(Ok(seq![name] + rest)),
                other => other,
            },
            Ok(_) => Some(Err(FileParserError::NoFileName)),
        }
    }
}

/// Whether a stream extension can stand behind the entry of a file or directory.
/// All the data of a directory is in use.
pub open spec fn stream_fits(file_entry: FileEntry, stream: StreamExtensionEntry) -> bool {
    &&& stream.is_valid()
    &&& file_entry.file_attributes.directory() ==> stream.valid_data_length == stream.data_len
}

/// The file or directory that begins with `file_entry`, the entries behind it
/// being `slots`. `None` where slots are missing that would decide.
pub open spec fn parse_file<E>(file_entry: FileEntry, slots: Seq<Slot<E>>) -> Option<
    Result<ParsedFile, FileParserError<E>>,
> {
    if file_entry.secondary_count < 1 {
        Some(Err(FileParserError::NoStreamExtension))
    } else if file_entry.secondary_count < 2 {
        Some(Err(FileParserError::NoFileName))
    } else if slots.len() == 0 {
        None
    } else {
        match slots[0] {
            Err(e) => Some(Err(FileParserError::Reader(e))),
            Ok(DirEntry::StreamExtension(stream)) => if !stream_fits(file_entry, stream) {
                Some(Err(FileParserError::InvalidStreamExtension))
            } else {
                match names_in(slots.skip(1), (file_entry.secondary_count - 1) as nat) {
                    None => None,
                    Some(Err(e)) => Some(Err(e)),
                    Some(Ok(names)) => Some(assembled(file_entry, stream, names)),
                }
            },
            Ok(_) => Some(Err(FileParserError::NoStreamExtension)),
        }
    }
}

/// A file or directory as its entries describe it.
#[derive(Debug)]
pub struct ParsedFileEntry {
    pub name: String,
    pub attributes: FileAttributes,
    pub stream_extension_entry: StreamExtensionEntry,
    pub timestamps: Timestamps,
}

impl Clone for ParsedFileEntry {
    fn clone(&self) -> (r: Self)
        ensures
            r@ == self@,
    {
        ParsedFileEntry {
            name: self.name.clone(),
            attributes: self.attributes,
            stream_extension_entry: self.stream_extension_entry,
            timestamps: self.timestamps,
        }
    }
}

impl View for ParsedFileEntry {
    type V = ParsedFile;

    open spec fn view(&self) -> ParsedFile {
        ParsedFile {
            name: self.name@,
            attributes: self.attributes,
            stream: self.stream_extension_entry,
            timestamps: self.timestamps,
        }
    }
}

pub open spec fn parsed_view<F>(r: Result<ParsedFileEntry, F>) -> Result<ParsedFile, F> {
    match r {
        Ok(parsed) => Ok(parsed@),
        Err(e) => Err(e),
    }
}

impl ParsedFileEntry {
    /// Puts together a file or directory from its entries.
    pub fn assemble<E>(
        file_entry: &FileEntry,
        stream: &StreamExtensionEntry,
        names: &Vec<FileNameEntry>,
    ) -> (r: Result<ParsedFileEntry, FileParserError<E>>)
        ensures
            parsed_view(r) == assembled::<E>(*file_entry, *stream, names@),
    {
        if names.len() != (stream.name_length as usize + UNITS_PER_ENTRY - 1) / UNITS_PER_ENTRY {
            return Err(FileParserError::WrongFileNameEntries);
        }

        // construct a filename
        let mut left: usize = stream.name_length as usize;
        let mut name = String::new();
        let mut i: usize = 0;
        assert(names@.skip(0) =~= names@);
        while i < names.len()
            invariant
                i <= names@.len(),
                names@.len() == (stream.name_length + UNITS_PER_ENTRY - 1) / UNITS_PER_ENTRY as int,
                name_of(names@, stream.name_length as nat) == (match name_of(
                    names@.skip(i as int),
                    left as nat,
                ) {
                    Some(rest) => Some(name@ + rest),
                    None => None,
                }),
            decreases names@.len() - i,
        {
            let entry: FileNameEntry = names[i];
            assert(names@.skip(i as int).skip(1) =~= names@.skip(i + 1));
            if entry.general_secondary_flags.allocation_possible() {
                return Err(FileParserError::InvalidFileName);
            }
            let n: usize = if left < UNITS_PER_ENTRY {
                left
            } else {
                UNITS_PER_ENTRY
            };
            let units = read_units(&entry, n);
            match string_from_utf16(units.as_slice()) {
                None => return Err(FileParserError::InvalidFileName),
                Some(part) => {
                    let ghost before = name@;
                    name.append(part.as_str());
                    proof {
                        match name_of(names@.skip(i + 1), (left - n) as nat) {
                            Some(rest) => {
                                assert(before + (part@ + rest) =~= name@ + rest);
                            },
                            None => {},
                        }
                    }
                },
            }
            left = left - n;
            i = i + 1;
        }
        assert(name@ + Seq::<char>::empty() =~= name@);

        // read timestamps
        let create_utc_offset: i8 = read_utc_offset(file_entry.create_utc_offset);
        let last_modified_utc_offset: i8 = read_utc_offset(file_entry.last_modified_utc_offset);
        let last_accessed_utc_offset: i8 = read_utc_offset(file_entry.last_accessed_utc_offset);

        Ok(
            ParsedFileEntry {
                name,
                attributes: file_entry.file_attributes,
                stream_extension_entry: *stream,
                timestamps: Timestamps::new(
                    Timestamp::new(
                        file_entry.create_timestamp,
                        file_entry.create_10ms_increment,
                        create_utc_offset,
                    ),
                    Timestamp::new(
                        file_entry.last_modified_timestamp,
                        file_entry.last_modified_10ms_increment,
                        last_modified_utc_offset,
                    ),
                    Timestamp::new(
                        file_entry.last_accessed_timestamp,
                        0,
                        last_accessed_utc_offset,
                    ),
                ),
            },
        )
    }

    /// Reads the entries behind `file_entry` and puts them together. No more of
    /// them are read than decide what comes out.
    pub fn try_new<O: ReadOffset>(file_entry: &FileEntry, reader: &mut DirEntryReader<O>) -> (r:
        Result<ParsedFileEntry, FileParserError<O::Err>>)
        requires
            old(reader).wf(),
        ensures
            final(reader).wf(),
            final(reader).extent() == old(reader).extent(),
            final(reader).device() == old(reader).device(),
            ({
                let before = old(reader).log();
                let after = final(reader).log();
                let used = after.skip(before.len() as int);
                &&& after == before + used
                &&& parse_file(*file_entry, used) == Some(parsed_view(r))
                &&& forall|k: int|
                    0 <= k < used.len() ==> parse_file(*file_entry, #[trigger] used.take(k)) is None
                &&& r is Ok ==> used.len() == file_entry.secondary_count && all_ok(used)
            }),
    {
        let ghost before = reader.log();
        let secondary_count: u8 = file_entry.secondary_count;
        if secondary_count < 1 {
            assert(reader.log().skip(before.len() as int) =~= Seq::empty());
            return Err(FileParserError::NoStreamExtension);
        } else if secondary_count < 2 {
            assert(reader.log().skip(before.len() as int) =~= Seq::empty());
            return Err(FileParserError::NoFileName);
        }

        // parse stream extension entry afterward
        let ghost mut used: Seq<Slot<O::Err>> = Seq::empty();
        let slot = reader.read();
        proof {
            used = used.push(slot);
            assert(reader.log() =~= before + used);
            assert(reader.log().skip(before.len() as int) =~= used);
            assert(used.take(0) =~= Seq::empty());
        }
        let stream: StreamExtensionEntry = match slot {
            Err(e) => return Err(FileParserError::Reader(e)),
            Ok(DirEntry::StreamExtension(stream)) => {
                if !stream.valid() || file_entry.file_attributes.is_directory()
                    && stream.valid_data_length != stream.data_len {
                    return Err(FileParserError::InvalidStreamExtension);
                }
                stream
            },
            Ok(_) => return Err(FileParserError::NoStreamExtension),
        };

        // read file names
        let name_count: usize = secondary_count as usize - 1;
        let mut names: Vec<FileNameEntry> = Vec::new();
        assert(used.skip(1) =~= Seq::empty());
        while names.len() < name_count
            invariant
                reader.wf(),
                reader.extent() == old(reader).extent(),
                reader.device() == old(reader).device(),
                before == old(reader).log(),
                reader.log() == before + used,
                used.len() == 1 + names@.len(),
                names@.len() <= name_count,
                name_count == secondary_count - 1,
                secondary_count == file_entry.secondary_count,
                secondary_count >= 2,
                used[0] == Ok::<DirEntry, EntryReaderError<O::Err>>(
                    DirEntry::StreamExtension(stream),
                ),
                stream_fits(*file_entry, stream),
                forall|i: int|
                    0 <= i < names@.len() ==> #[trigger] used[i + 1] == Ok::<
                        DirEntry,
                        EntryReaderError<O::Err>,
                    >(DirEntry::FileName(names@[i])),
            decreases name_count - names@.len(),
        {
            let slot = reader.read();
            proof {
                used = used.push(slot);
                assert(reader.log() =~= before + used);
                assert(reader.log().skip(before.len() as int) =~= used);
            }
            // parse file name entry
            match slot {
                Err(e) => {
                    proof {
                        lemma_undecided(*file_entry, stream, names@, used);
                        lemma_names_stop(names@, used.skip(1), name_count as nat);
                    }
                    return Err(FileParserError::Reader(e));
                },
                Ok(DirEntry::FileName(entry)) => {
                    names.push(entry);
                },
                Ok(_) => {
                    proof {
                        lemma_undecided(*file_entry, stream, names@, used);
                        lemma_names_stop(names@, used.skip(1), name_count as nat);
                    }
                    return Err(FileParserError::NoFileName);
                },
            }
        }
        proof {
            assert(reader.log().skip(before.len() as int) =~= used);
            lemma_undecided(*file_entry, stream, names@.drop_last(), used);
            lemma_names_stop(names@, used.skip(1), name_count as nat);
            assert forall|i: int| 0 <= i < used.len() implies (#[trigger] used[i]) is Ok by {
                if i > 0 {
                    assert(used[(i - 1) + 1] is Ok);
                }
            }
        }
        Self::assemble(file_entry, &stream, &names)
    }
}

/// The first `n` units of the part of a name that an entry holds.
fn read_units(entry: &FileNameEntry, n: usize) -> (r: Vec<u16>)
    requires
        n <= UNITS_PER_ENTRY,
    ensures
        r@ == name_units(*entry, n as nat),
{
    let mut units: Vec<u16> = Vec::new();
    let mut i: usize = 0;
    while i < n
        invariant
            i <= n <= UNITS_PER_ENTRY,
            units@ =~= name_units(*entry, i as nat),
        decreases n - i,
    {
        units.push(read_u16(&entry.file_name, 2 * i));
        i = i + 1;
    }
    units
}

/// Where `names` come first in `slots`, what follows them decides.
pub proof fn lemma_names_stop<E>(names: Seq<FileNameEntry>, slots: Seq<Slot<E>>, count: nat)
    requires
        names.len() <= count,
        names.len() <= slots.len(),
        forall|i: int|
            0 <= i < names.len() ==> #[trigger] slots[i] == Ok::<DirEntry, EntryReaderError<E>>(
                DirEntry::FileName(names[i]),
            ),
    ensures
        names_in(slots, count) == match names_in(
            slots.skip(names.len() as int),
            (count - names.len()) as nat,
        ) {
            Some(Ok(rest)) => Some(Ok::<_, FileParserError<E>>(names + rest)),
            other => other,
        },
    decreases names.len(),
{
    if names.len() == 0 {
        assert(slots.skip(0) =~= slots);
        match names_in(slots, count) {
            Some(Ok(rest)) => {
                assert(names + rest =~= rest);
            },
            _ => {},
        }
    } else {
        let tail = names.skip(1);
        assert(slots[0] == Ok::<DirEntry, EntryReaderError<E>>(DirEntry::FileName(names[0])));
        assert forall|i: int| 0 <= i < tail.len() implies #[trigger] slots.skip(1)[i] == Ok::<
            DirEntry,
            EntryReaderError<E>,
        >(DirEntry::FileName(tail[i])) by {
            assert(slots[i + 1] == Ok::<DirEntry, EntryReaderError<E>>(
                DirEntry::FileName(names[i + 1]),
            ));
        }
        lemma_names_stop(tail, slots.skip(1), (count - 1) as nat);
        assert(slots.skip(1).skip(tail.len() as int) =~= slots.skip(names.len() as int));
        match names_in(slots.skip(names.len() as int), (count - names.len()) as nat) {
            Some(Ok(rest)) => {
                assert(seq![names[0]] + (tail + rest) =~= names + rest);
            },
            _ => {},
        }
    }
}

proof fn lemma_names_extend<E>(slots: Seq<Slot<E>>, rest: Seq<Slot<E>>, count: nat)
    requires
        names_in(slots, count) is Some,
    ensures
        names_in(slots + rest, count) == names_in(slots, count),
    decreases count,
{
    if count > 0 {
        assert((slots + rest).skip(1) =~= slots.skip(1) + rest);
        if names_in(slots.skip(1), (count - 1) as nat) is Some {
            lemma_names_extend(slots.skip(1), rest, (count - 1) as nat);
        }
    }
}

/// Entries that settle what a file or directory is settle it whatever follows
/// them.
pub proof fn lemma_parse_file_extends<E>(
    file_entry: FileEntry,
    slots: Seq<Slot<E>>,
    rest: Seq<Slot<E>>,
)
    requires
        parse_file(file_entry, slots) is Some,
    ensures
        parse_file(file_entry, slots + rest) == parse_file(file_entry, slots),
{
    if file_entry.secondary_count >= 2 {
        assert((slots + rest).skip(1) =~= slots.skip(1) + rest);
        let count = (file_entry.secondary_count - 1) as nat;
        if names_in(slots.skip(1), count) is Some {
            lemma_names_extend(slots.skip(1), rest, count);
        }
    }
}

/// A stream extension and fewer names than are announced decide nothing.
proof fn lemma_undecided<E>(
    file_entry: FileEntry,
    stream: StreamExtensionEntry,
    names: Seq<FileNameEntry>,
    used: Seq<Slot<E>>,
)
    requires
        file_entry.secondary_count >= 2,
        names.len() + 1 < file_entry.secondary_count,
        used.len() == names.len() + 2,
        used[0] == Ok::<DirEntry, EntryReaderError<E>>(DirEntry::StreamExtension(stream)),
        stream_fits(file_entry, stream),
        forall|i: int|
            0 <= i < names.len() ==> #[trigger] used[i + 1] == Ok::<DirEntry, EntryReaderError<E>>(
                DirEntry::FileName(names[i]),
            ),
    ensures
        forall|k: int|
            0 <= k < used.len() ==> parse_file(file_entry, #[trigger] used.take(k)) is None,
{
    assert forall|k: int| 0 <= k < used.len() implies parse_file(
        file_entry,
        #[trigger] used.take(k),
    ) is None by {
        if k > 0 {
            let some = names.take(k - 1);
            let slots = used.take(k).skip(1);
            assert forall|i: int| 0 <= i < some.len() implies #[trigger] slots[i] == Ok::<
                DirEntry,
                EntryReaderError<E>,
            >(DirEntry::FileName(some[i])) by {
                assert(slots[i] == used[i + 1]);
            }
            let count = (file_entry.secondary_count - 1) as nat;
            lemma_names_stop(some, slots, count);
            assert(slots.skip(k - 1).len() == 0);
        }
    }
}

} // verus!
