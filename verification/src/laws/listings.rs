//! Lists of directories: every file and directory in them, in order.
use vstd::prelude::*;

use crate::boot_sector::BootSector;
use crate::entry::parsed::{parse_file, ParsedFile};
use crate::entry::reader::Slot;
use crate::entry::{DirEntry, FileEntry};
use crate::error::{ClusterChainError, DirectoryError, FileParserError};
use crate::fs::directory::{directory_step, list_directory, DirectoryStep};
use crate::fs::{element_of, lemma_element_extends, node_of, Node};
use crate::laws::entries::law_uses;

verus! {

/// What a directory holds whose entries are `slots`, if they decide it.
pub open spec fn held<E>(boot: BootSector, fat: Seq<u32>, slots: Seq<Slot<E>>) -> Option<
    Result<Seq<Node>, DirectoryError<E>>,
> {
    list_directory(boot, fat, slots, Seq::empty())
}

/// A list with `first` put before it. What is wrong with a list stays.
pub open spec fn put_before<E>(
    first: Seq<Node>,
    r: Option<Result<Seq<Node>, DirectoryError<E>>>,
) -> Option<Result<Seq<Node>, DirectoryError<E>>> {
    match r {
        Some(Ok(items)) => Some(Ok(first + items)),
        other => other,
    }
}

proof fn lemma_list_behind<E>(
    boot: BootSector,
    fat: Seq<u32>,
    slots: Seq<Slot<E>>,
    first: Seq<Node>,
    items: Seq<Node>,
)
    ensures
        list_directory(boot, fat, slots, first + items) == put_before(
            first,
            list_directory(boot, fat, slots, items),
        ),
    decreases slots.len(),
{
    if slots.len() > 0 && slots[0] is Ok {
        match directory_step::<E>(slots[0]->Ok_0) {
            Ok(DirectoryStep::Skip) => {
                lemma_list_behind(boot, fat, slots.skip(1), first, items);
            },
            Ok(DirectoryStep::File(file_entry)) => {
                let used = 1 + file_entry.secondary_count;
                if let Some(Ok(node)) = element_of(boot, fat, file_entry, slots.skip(1)) {
                    if used <= slots.len() {
                        assert((first + items).push(node) =~= first + items.push(node));
                        lemma_list_behind(boot, fat, slots.skip(used), first, items.push(node));
                    }
                }
            },
            _ => {},
        }
    }
}

/// The entries of a file or directory: its own, and those behind it that it
/// announces.
pub open spec fn entry_set<E>(file_entry: FileEntry, set: Seq<Slot<E>>) -> Seq<Slot<E>> {
    seq![Ok(DirEntry::File(file_entry))] + set
}

/// A directory that begins with the entries of a file or directory holds that, and
/// behind it what the rest of the entries hold. Where these entries make up none,
/// or none that can be read, the directory cannot be listed for that reason.
pub proof fn law_set_then_rest<E>(
    boot: BootSector,
    fat: Seq<u32>,
    file_entry: FileEntry,
    set: Seq<Slot<E>>,
    rest: Seq<Slot<E>>,
)
    requires
        parse_file(file_entry, set) is Some,
        parse_file(file_entry, set) matches Some(Ok(_)) ==> set.len() == file_entry.secondary_count,
    ensures
        held(boot, fat, entry_set(file_entry, set) + rest) == match parse_file(file_entry, set) {
            Some(Ok(parsed)) => match node_of(boot, fat, parsed) {
                Ok(node) => put_before(seq![node], held(boot, fat, rest)),
                Err(e) => Some(Err(DirectoryError::ClusterChain(e))),
            },
            Some(Err(e)) => Some(Err(DirectoryError::FileParser(e))),
            None => None,
        },
{
    let entry = DirEntry::File(file_entry);
    law_uses(entry);
    let slots = entry_set(file_entry, set) + rest;
    assert(slots[0]->Ok_0 == entry);
    assert(slots.skip(1) =~= set + rest);
    lemma_element_extends(boot, fat, file_entry, set, rest);
    if let Some(Ok(parsed)) = parse_file(file_entry, set) {
        if let Ok(node) = node_of(boot, fat, parsed) {
            assert(slots.skip(1 + file_entry.secondary_count) =~= rest);
            let none = Seq::<Node>::empty();
            assert(none.push(node) =~= seq![node] + none);
            lemma_list_behind(boot, fat, rest, seq![node], none);
        }
    }
}

/// Entries out of use add nothing; the end of the directory, or an invalid entry,
/// ends it; an entry of another kind cannot stand where a file or directory could
/// begin, and neither can one that cannot be read.
pub proof fn law_other_then_rest<E>(
    boot: BootSector,
    fat: Seq<u32>,
    slot: Slot<E>,
    rest: Seq<Slot<E>>,
)
    ensures
        ({
            let r = held(boot, fat, seq![slot] + rest);
            match slot {
                Err(e) => r == Some(
                    Err::<Seq<Node>, DirectoryError<E>>(DirectoryError::Reader(e)),
                ),
                Ok(DirEntry::File(_)) => true,
                Ok(entry) => {
                    let t = entry.encode()[0];
                    if 1 <= t <= 127 {
                        r == held(boot, fat, rest)
                    } else if t <= 128 {
                        r == Some(Ok::<Seq<Node>, DirectoryError<E>>(Seq::empty()))
                    } else if (t / 64) % 2 == 1 {
                        r == Some(
                            Err::<Seq<Node>, DirectoryError<E>>(DirectoryError::NotPrimaryEntry(t)),
                        )
                    } else {
                        r == Some(
                            Err::<Seq<Node>, DirectoryError<E>>(DirectoryError::NotFileEntry(t)),
                        )
                    }
                },
            }
        }),
        held::<E>(boot, fat, Seq::empty()) is None,
{
    assert((seq![slot] + rest).skip(1) =~= rest);
    if let Ok(entry) = slot {
        law_uses(entry);
    }
}

/// The entries of some files and directories, one behind the other.
pub open spec fn laid_out<E>(sets: Seq<(FileEntry, Seq<Slot<E>>)>) -> Seq<Slot<E>>
    decreases sets.len(),
{
    if sets.len() == 0 {
        Seq::empty()
    } else {
        entry_set(sets[0].0, sets[0].1) + laid_out(sets.skip(1))
    }
}

/// A whole set of entries describes a file or directory.
pub open spec fn describes<E>(
    boot: BootSector,
    fat: Seq<u32>,
    set: (FileEntry, Seq<Slot<E>>),
    node: Node,
) -> bool {
    &&& set.1.len() == set.0.secondary_count
    &&& exists|parsed: ParsedFile|
        {
            &&& parse_file(set.0, set.1) == Some(Ok::<ParsedFile, FileParserError<E>>(parsed))
            &&& #[trigger] node_of(boot, fat, parsed) == Ok::<Node, ClusterChainError>(node)
        }
}

/// A directory whose entries are those of `n` files and directories and its end
/// holds exactly these, each in its place, whatever comes behind the end.
pub proof fn law_directory_holds_all<E>(
    boot: BootSector,
    fat: Seq<u32>,
    sets: Seq<(FileEntry, Seq<Slot<E>>)>,
    nodes: Seq<Node>,
    end: DirEntry,
    rest: Seq<Slot<E>>,
)
    requires
        nodes.len() == sets.len(),
        forall|i: int|
            0 <= i < sets.len() ==> describes(boot, fat, #[trigger] sets[i], nodes[i]),
        end is EndOfDirectory,
    ensures
        held(boot, fat, laid_out(sets) + (seq![Ok(end)] + rest)) == Some(
            Ok::<Seq<Node>, DirectoryError<E>>(nodes),
        ),
    decreases sets.len(),
{
    let tail = seq![Ok(end)] + rest;
    law_uses(end);
    law_other_then_rest(boot, fat, Ok(end), rest);
    if sets.len() == 0 {
        assert(laid_out(sets) + tail =~= tail);
        assert(nodes =~= Seq::empty());
    } else {
        assert(describes(boot, fat, sets[0], nodes[0]));
        assert forall|i: int| 0 <= i < sets.skip(1).len() implies describes(
            boot,
            fat,
            #[trigger] sets.skip(1)[i],
            nodes.skip(1)[i],
        ) by {
            assert(describes(boot, fat, sets[i + 1], nodes[i + 1]));
        }
        law_directory_holds_all(boot, fat, sets.skip(1), nodes.skip(1), end, rest);
        law_set_then_rest(boot, fat, sets[0].0, sets[0].1, laid_out(sets.skip(1)) + tail);
        assert(laid_out(sets) + tail =~= entry_set(sets[0].0, sets[0].1) + (laid_out(sets.skip(1))
            + tail));
        assert(seq![nodes[0]] + nodes.skip(1) =~= nodes);
    }
}

} // verus!
