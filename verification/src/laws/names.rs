//! Entry sets: the entries that make up a file or directory, and its name.
use vstd::prelude::*;

use crate::entry::parsed::{
    assembled, lemma_names_stop, name_of, name_units, names_in, parse_file, units_in_next,
    utf16_decode, ParsedFile,
};
use crate::entry::reader::Slot;
use crate::entry::{ClusterAllocation, DirEntry, FileEntry, FileNameEntry, StreamExtensionEntry};
use crate::error::{EntryReaderError, FileParserError};
use crate::laws::entries::{law_attributes, law_secondary_flags};
use crate::laws::numbers::{lemma_values, two};

verus! {

/// The UTF-16 units of a character.
pub open spec fn char_units(c: char) -> Seq<u16> {
    if (c as int) < 0x1_0000 {
        seq![c as u16]
    } else {
        seq![
            (0xD800 + (c as int - 0x1_0000) / 0x400) as u16,
            (0xDC00 + (c as int - 0x1_0000) % 0x400) as u16,
        ]
    }
}

/// The UTF-16 units of a text.
pub open spec fn utf16(text: Seq<char>) -> Seq<u16>
    decreases text.len(),
{
    if text.len() == 0 {
        Seq::empty()
    } else {
        char_units(text[0]) + utf16(text.skip(1))
    }
}

/// Spelling out what units spell gives the units back.
pub proof fn law_units_of_text(units: Seq<u16>, text: Seq<char>)
    requires
        utf16_decode(units) == Some(text),
    ensures
        utf16(text) == units,
    decreases units.len(),
{
    if units.len() == 0 {
        assert(utf16(text) =~= units);
    } else {
        let n: int = if 0xD800 <= units[0] <= 0xDBFF {
            2
        } else {
            1
        };
        let rest = utf16_decode(units.skip(n))->Some_0;
        law_units_of_text(units.skip(n), rest);
        assert(text.skip(1) =~= rest);
        assert(char_units(text[0]) =~= units.take(n));
        assert(utf16(text) =~= units);
    }
}

proof fn lemma_char_range(c: char)
    ensures
        0 <= c as int <= 0xD7FF || 0xE000 <= c as int <= 0x10_FFFF,
{
}

/// What is spelled out is read back.
pub proof fn law_text_of_units(text: Seq<char>)
    ensures
        utf16_decode(utf16(text)) == Some(text),
    decreases text.len(),
{
    if text.len() > 0 {
        let rest = text.skip(1);
        law_text_of_units(rest);
        let c = text[0];
        let units = utf16(text);
        let n = char_units(c).len() as int;
        assert(units.skip(n) =~= utf16(rest));
        assert(units[0] == char_units(c)[0]);
        lemma_char_range(c);
        if n == 2 {
            assert(units[1] == char_units(c)[1]);
            let x = c as int - 0x1_0000;
            assert(x == (x / 0x400) * 0x400 + x % 0x400);
            assert(units[0] == 0xD800 + x / 0x400);
            assert(units[1] == 0xDC00 + x % 0x400);
            assert(0x1_0000 + (units[0] - 0xD800) * 0x400 + (units[1] - 0xDC00) == c as int);
        } else {
            assert(units[0] == c as int);
        }
        assert(seq![c] + rest =~= text);
    } else {
        assert(text =~= Seq::empty());
    }
}

proof fn lemma_utf16_joins(a: Seq<char>, b: Seq<char>)
    ensures
        utf16(a + b) == utf16(a) + utf16(b),
    decreases a.len(),
{
    if a.len() == 0 {
        assert(a + b =~= b);
        assert(utf16(a) + utf16(b) =~= utf16(b));
    } else {
        lemma_utf16_joins(a.skip(1), b);
        assert((a + b).skip(1) =~= a.skip(1) + b);
        assert(utf16(a + b) =~= utf16(a) + utf16(b));
    }
}

/// The first `n` units that an entry holds spell `part`.
pub open spec fn spells(entry: FileNameEntry, n: int, part: Seq<char>) -> bool {
    &&& utf16(part).len() == n
    &&& forall|k: int|
        0 <= k < n ==> #[trigger] utf16(part)[k] == two(entry.file_name@, 2 * k)
}

/// How many of the `len` units of a name the entry number `i` holds.
pub open spec fn share_of(len: int, i: int) -> int {
    if len - 15 * i < 15 {
        len - 15 * i
    } else {
        15
    }
}

/// Each entry of a name spells its part, and none of them claims clusters.
pub open spec fn spell_parts(
    names: Seq<FileNameEntry>,
    len: int,
    parts: Seq<Seq<char>>,
) -> bool {
    &&& parts.len() == names.len()
    &&& forall|i: int|
        0 <= i < names.len() ==> {
            &&& (#[trigger] names[i]).general_secondary_flags.0 % 2 == 0
            &&& spells(names[i], share_of(len, i), parts[i])
        }
}

proof fn lemma_entry_units(entry: FileNameEntry, n: nat, part: Seq<char>)
    requires
        n <= 15,
    ensures
        utf16_decode(name_units(entry, n)) == Some(part) <==> spells(entry, n as int, part),
{
    let units = name_units(entry, n);
    assert forall|k: int| 0 <= k < n implies #[trigger] units[k] == two(
        entry.file_name@,
        2 * k,
    ) by {
        lemma_values(entry.file_name@, 2 * k);
    }
    if utf16_decode(units) == Some(part) {
        law_units_of_text(units, part);
    }
    if spells(entry, n as int, part) {
        assert(utf16(part) =~= units);
        law_text_of_units(part);
    }
}

proof fn lemma_flatten_first(parts: Seq<Seq<char>>)
    requires
        parts.len() > 0,
    ensures
        parts.flatten() == parts[0] + parts.skip(1).flatten(),
{
    assert(parts.drop_first() =~= parts.skip(1));
}

proof fn lemma_parts_spell_name(names: Seq<FileNameEntry>, len: nat, parts: Seq<Seq<char>>)
    requires
        15 * (names.len() - 1) < len <= 15 * names.len(),
        spell_parts(names, len as int, parts),
    ensures
        name_of(names, len) == Some(parts.flatten()),
    decreases names.len(),
{
    if names.len() == 0 {
        assert(parts.flatten() =~= Seq::empty());
    } else {
        let n = units_in_next(len);
        assert(spells(names[0], share_of(len as int, 0), parts[0]));
        law_secondary_flags(names[0].general_secondary_flags);
        lemma_entry_units(names[0], n, parts[0]);
        let rest = names.skip(1);
        let left = (len - n) as nat;
        assert forall|i: int| 0 <= i < rest.len() implies {
            &&& (#[trigger] rest[i]).general_secondary_flags.0 % 2 == 0
            &&& spells(rest[i], share_of(left as int, i), parts.skip(1)[i])
        } by {
            assert(rest[i] == names[i + 1]);
            assert(share_of(left as int, i) == share_of(len as int, i + 1));
        }
        lemma_parts_spell_name(rest, left, parts.skip(1));
        lemma_flatten_first(parts);
    }
}

proof fn lemma_name_has_parts(names: Seq<FileNameEntry>, len: nat) -> (parts: Seq<Seq<char>>)
    requires
        15 * (names.len() - 1) < len <= 15 * names.len(),
        name_of(names, len) is Some,
    ensures
        spell_parts(names, len as int, parts),
        name_of(names, len) == Some(parts.flatten()),
    decreases names.len(),
{
    if names.len() == 0 {
        let parts = Seq::empty();
        lemma_parts_spell_name(names, len, parts);
        parts
    } else {
        let n = units_in_next(len);
        law_secondary_flags(names[0].general_secondary_flags);
        let part = utf16_decode(name_units(names[0], n))->Some_0;
        lemma_entry_units(names[0], n, part);
        let rest = names.skip(1);
        let left = (len - n) as nat;
        let others = lemma_name_has_parts(rest, left);
        let parts = seq![part] + others;
        assert forall|i: int| 0 <= i < names.len() implies {
            &&& (#[trigger] names[i]).general_secondary_flags.0 % 2 == 0
            &&& spells(names[i], share_of(len as int, i), parts[i])
        } by {
            if i > 0 {
                assert(names[i] == rest[i - 1]);
                assert(parts[i] == others[i - 1]);
                assert(share_of(left as int, i - 1) == share_of(len as int, i));
            }
        }
        lemma_parts_spell_name(names, len, parts);
        parts
    }
}

proof fn lemma_units_of_parts(names: Seq<FileNameEntry>, len: nat, parts: Seq<Seq<char>>)
    requires
        15 * (names.len() - 1) < len <= 15 * names.len(),
        spell_parts(names, len as int, parts),
    ensures
        utf16(parts.flatten()).len() == len,
        forall|k: int|
            0 <= k < len ==> #[trigger] utf16(parts.flatten())[k] == two(
                names[k / 15].file_name@,
                2 * (k % 15),
            ),
    decreases names.len(),
{
    if names.len() == 0 {
        assert(parts.flatten() =~= Seq::empty());
    } else {
        let n = share_of(len as int, 0);
        let rest = names.skip(1);
        let others = parts.skip(1);
        let left = (len - n) as nat;
        assert(spells(names[0], n, parts[0]));
        assert forall|i: int| 0 <= i < rest.len() implies {
            &&& (#[trigger] rest[i]).general_secondary_flags.0 % 2 == 0
            &&& spells(rest[i], share_of(left as int, i), others[i])
        } by {
            assert(rest[i] == names[i + 1]);
            assert(share_of(left as int, i) == share_of(len as int, i + 1));
        }
        lemma_units_of_parts(rest, left, others);
        lemma_flatten_first(parts);
        lemma_utf16_joins(parts[0], others.flatten());
        let all = utf16(parts.flatten());
        assert forall|k: int| 0 <= k < len implies #[trigger] all[k] == two(
            names[k / 15].file_name@,
            2 * (k % 15),
        ) by {
            if k < n {
                assert(all[k] == utf16(parts[0])[k]);
            } else {
                assert(all[k] == utf16(others.flatten())[k - 15]);
                assert((k - 15) / 15 == k / 15 - 1);
                assert(rest[(k - 15) / 15] == names[k / 15]);
            }
        }
    }
}

/// The name of a file or directory, spelled back as UTF-16, is what its entries
/// hold: its units are the pairs of bytes of the entries, one entry behind the
/// other, and as many as the stream extension says. The attributes and the stream
/// are those of the entries.
pub proof fn law_name_is_what_entries_hold<E>(
    file_entry: FileEntry,
    stream: StreamExtensionEntry,
    names: Seq<FileNameEntry>,
    parsed: ParsedFile,
)
    requires
        assembled::<E>(file_entry, stream, names) == Ok::<ParsedFile, FileParserError<E>>(parsed),
    ensures
        utf16(parsed.name).len() == stream.name_length,
        forall|k: int|
            0 <= k < stream.name_length ==> #[trigger] utf16(parsed.name)[k] == two(
                names[k / 15].file_name@,
                2 * (k % 15),
            ),
        15 * (names.len() - 1) < stream.name_length <= 15 * names.len(),
        forall|i: int|
            0 <= i < names.len() ==> (#[trigger] names[i]).general_secondary_flags.0 % 2 == 0,
        parsed.attributes == file_entry.file_attributes,
        parsed.stream == stream,
{
    let parts = lemma_name_has_parts(names, stream.name_length as nat);
    lemma_units_of_parts(names, stream.name_length as nat, parts);
}

/// Entries are put together if and only if there are as many of them as the name
/// needs, none of them claims clusters, and each of them spells a text for itself.
/// The name is then these texts, one behind the other.
pub proof fn law_name_is_put_together<E>(
    file_entry: FileEntry,
    stream: StreamExtensionEntry,
    names: Seq<FileNameEntry>,
)
    ensures
        ({
            let r = assembled::<E>(file_entry, stream, names);
            let enough = 15 * (names.len() - 1) < stream.name_length <= 15 * names.len();
            &&& r == Err::<ParsedFile, FileParserError<E>>(FileParserError::WrongFileNameEntries)
                <==> !enough
            &&& enough && r is Err ==> r == Err::<ParsedFile, FileParserError<E>>(
                FileParserError::InvalidFileName,
            )
            &&& enough ==> (r is Ok <==> exists|parts: Seq<Seq<char>>| #[trigger]
                spell_parts(names, stream.name_length as int, parts))
            &&& enough ==> forall|parts: Seq<Seq<char>>| #[trigger]
                spell_parts(names, stream.name_length as int, parts) ==> r is Ok && r->Ok_0.name
                    == parts.flatten()
        }),
{
    let len = stream.name_length as nat;
    if 15 * (names.len() - 1) < len <= 15 * names.len() {
        assert forall|parts: Seq<Seq<char>>| #[trigger]
            spell_parts(names, len as int, parts) implies name_of(names, len) == Some(
            parts.flatten(),
        ) by {
            lemma_parts_spell_name(names, len, parts);
        }
        if name_of(names, len) is Some {
            let parts = lemma_name_has_parts(names, len);
            assert(spell_parts(names, len as int, parts));
        }
    }
}

/// The times of a file or directory are those of its entry. The offset from UTC is
/// the value of a byte above 127, less 128, and no offset otherwise.
pub proof fn law_times_are_those_of_the_entry<E>(
    file_entry: FileEntry,
    stream: StreamExtensionEntry,
    names: Seq<FileNameEntry>,
    parsed: ParsedFile,
)
    requires
        assembled::<E>(file_entry, stream, names) == Ok::<ParsedFile, FileParserError<E>>(parsed),
    ensures
        parsed.timestamps.created.timestamp == file_entry.create_timestamp,
        parsed.timestamps.created.increment_10ms == file_entry.create_10ms_increment,
        parsed.timestamps.modified.timestamp == file_entry.last_modified_timestamp,
        parsed.timestamps.modified.increment_10ms == file_entry.last_modified_10ms_increment,
        parsed.timestamps.accessed.timestamp == file_entry.last_accessed_timestamp,
        parsed.timestamps.accessed.increment_10ms == 0,
        is_offset(parsed.timestamps.created.utc_offset, file_entry.create_utc_offset),
        is_offset(parsed.timestamps.modified.utc_offset, file_entry.last_modified_utc_offset),
        is_offset(parsed.timestamps.accessed.utc_offset, file_entry.last_accessed_utc_offset),
{
}

/// `offset` is what `b` says of the offset from UTC.
pub open spec fn is_offset(offset: i8, b: u8) -> bool {
    if b / 128 == 1 {
        offset + 128 == b
    } else {
        offset == 0
    }
}

/// `slots` begin with a stream extension and entries of a name.
pub open spec fn begin_with<E>(
    slots: Seq<Slot<E>>,
    stream: StreamExtensionEntry,
    names: Seq<FileNameEntry>,
) -> bool {
    &&& slots.len() >= 1 + names.len()
    &&& slots[0] == Ok::<DirEntry, EntryReaderError<E>>(DirEntry::StreamExtension(stream))
    &&& forall|i: int|
        0 <= i < names.len() ==> #[trigger] slots[i + 1] == Ok::<DirEntry, EntryReaderError<E>>(
            DirEntry::FileName(names[i]),
        )
}

/// A stream extension can stand behind an entry: it is none of those that are
/// refused, and all the data of a directory is valid.
pub open spec fn fits(file_entry: FileEntry, stream: StreamExtensionEntry) -> bool {
    &&& stream.is_valid()
    &&& (file_entry.file_attributes.0 / 16) % 2 == 1 ==> stream.valid_data_length
        == stream.data_len
}

proof fn lemma_names_so_far<E>(
    slots: Seq<Slot<E>>,
    stream: StreamExtensionEntry,
    names: Seq<FileNameEntry>,
    count: nat,
)
    requires
        begin_with(slots, stream, names),
        names.len() <= count,
    ensures
        names_in(slots.skip(1), count) == match names_in(
            slots.skip(1 + names.len() as int),
            (count - names.len()) as nat,
        ) {
            Some(Ok(rest)) => Some(Ok::<_, FileParserError<E>>(names + rest)),
            other => other,
        },
{
    let tail = slots.skip(1);
    assert forall|i: int| 0 <= i < names.len() implies #[trigger] tail[i] == Ok::<
        DirEntry,
        EntryReaderError<E>,
    >(DirEntry::FileName(names[i])) by {
        assert(tail[i] == slots[i + 1]);
    }
    lemma_names_stop(names, tail, count);
    assert(tail.skip(names.len() as int) =~= slots.skip(1 + names.len() as int));
}

/// A file or directory is put together from the stream extension and the entries
/// of its name behind its entry, as many as the entry says, and from nothing else.
pub proof fn law_entry_set<E>(
    file_entry: FileEntry,
    stream: StreamExtensionEntry,
    names: Seq<FileNameEntry>,
    slots: Seq<Slot<E>>,
)
    requires
        names.len() > 0,
        file_entry.secondary_count == 1 + names.len(),
        begin_with(slots, stream, names),
        fits(file_entry, stream),
    ensures
        parse_file(file_entry, slots) == Some(assembled::<E>(file_entry, stream, names)),
{
    law_attributes(file_entry.file_attributes);
    lemma_names_so_far(slots, stream, names, names.len());
    assert(names + Seq::<FileNameEntry>::empty() =~= names);
}

/// Entries that make up a file or directory are a stream extension and entries of a
/// name.
pub proof fn law_entry_set_is_whole<E>(
    file_entry: FileEntry,
    slots: Seq<Slot<E>>,
    parsed: ParsedFile,
) -> (names: Seq<FileNameEntry>)
    requires
        parse_file(file_entry, slots) == Some(Ok::<ParsedFile, FileParserError<E>>(parsed)),
    ensures
        names.len() > 0,
        file_entry.secondary_count == 1 + names.len(),
        begin_with(slots, parsed.stream, names),
        fits(file_entry, parsed.stream),
        assembled::<E>(file_entry, parsed.stream, names) == Ok::<ParsedFile, FileParserError<E>>(
            parsed,
        ),
{
    law_attributes(file_entry.file_attributes);
    let count = (file_entry.secondary_count - 1) as nat;
    let names = names_in(slots.skip(1), count)->Some_0->Ok_0;
    lemma_names_found(slots.skip(1), count);
    assert forall|i: int| 0 <= i < names.len() implies #[trigger] slots[i + 1] == Ok::<
        DirEntry,
        EntryReaderError<E>,
    >(DirEntry::FileName(names[i])) by {
        assert(slots.skip(1)[i] == slots[i + 1]);
    }
    names
}

proof fn lemma_names_found<E>(slots: Seq<Slot<E>>, count: nat)
    requires
        names_in(slots, count) matches Some(Ok(_)),
    ensures
        ({
            let names = names_in(slots, count)->Some_0->Ok_0;
            &&& names.len() == count <= slots.len()
            &&& forall|i: int|
                0 <= i < count ==> #[trigger] slots[i] == Ok::<DirEntry, EntryReaderError<E>>(
                    DirEntry::FileName(names[i]),
                )
        }),
    decreases count,
{
    if count > 0 {
        lemma_names_found(slots.skip(1), (count - 1) as nat);
        let names = names_in(slots, count)->Some_0->Ok_0;
        let rest = names_in(slots.skip(1), (count - 1) as nat)->Some_0->Ok_0;
        assert forall|i: int| 0 <= i < count implies #[trigger] slots[i] == Ok::<
            DirEntry,
            EntryReaderError<E>,
        >(DirEntry::FileName(names[i])) by {
            if i > 0 {
                assert(slots.skip(1)[i - 1] == slots[i]);
                assert(names[i] == rest[i - 1]);
            }
        }
    }
}

/// What is wrong with the entries of a file or directory: the first of them that is
/// not what it should be decides, and where none is wrong and some are missing,
/// nothing is decided.
pub proof fn law_entry_set_faults<E>(
    file_entry: FileEntry,
    stream: StreamExtensionEntry,
    names: Seq<FileNameEntry>,
    slots: Seq<Slot<E>>,
)
    ensures
        ({
            let r = parse_file(file_entry, slots);
            let count = file_entry.secondary_count;
            let next = 1 + names.len() as int;
            &&& count == 0 ==> r == Some(
                Err::<ParsedFile, FileParserError<E>>(FileParserError::NoStreamExtension),
            )
            &&& count == 1 ==> r == Some(
                Err::<ParsedFile, FileParserError<E>>(FileParserError::NoFileName),
            )
            &&& count >= 2 && slots.len() == 0 ==> r is None
            &&& count >= 2 && slots.len() > 0 ==> match slots[0] {
                Err(e) => r == Some(
                    Err::<ParsedFile, FileParserError<E>>(FileParserError::Reader(e)),
                ),
                Ok(DirEntry::StreamExtension(s)) => !fits(file_entry, s) ==> r == Some(
                    Err::<ParsedFile, FileParserError<E>>(FileParserError::InvalidStreamExtension),
                ),
                Ok(_) => r == Some(
                    Err::<ParsedFile, FileParserError<E>>(FileParserError::NoStreamExtension),
                ),
            }
            &&& count >= 2 && next < count && begin_with(slots, stream, names) && fits(
                file_entry,
                stream,
            ) ==> if slots.len() == next {
                r is None
            } else {
                match slots[next] {
                    Err(e) => r == Some(
                        Err::<ParsedFile, FileParserError<E>>(FileParserError::Reader(e)),
                    ),
                    Ok(DirEntry::FileName(_)) => true,
                    Ok(_) => r == Some(
                        Err::<ParsedFile, FileParserError<E>>(FileParserError::NoFileName),
                    ),
                }
            }
        }),
{
    law_attributes(file_entry.file_attributes);
    let next = 1 + names.len() as int;
    if next < file_entry.secondary_count && begin_with(slots, stream, names) {
        lemma_names_so_far(slots, stream, names, (file_entry.secondary_count - 1) as nat);
        if slots.len() > next {
            assert(slots.skip(next)[0] == slots[next]);
        }
    }
}

} // verus!
