//! Reading the entries of a directory one after the other.
use vstd::prelude::*;

use crate::cluster::{ClusterChainReader, Extent};
use crate::disk::{outcome, PartitionError, ReadOffset, Replies};
use crate::entry::{decoded, DirEntry, ENTRY_LEN};
use crate::error::EntryReaderError;

verus! {

/// What reading an entry gives.
pub type Slot<E> = Result<DirEntry, EntryReaderError<E>>;

/// What 32 bytes, or the error in their place, are as an entry.
pub open spec fn slot_of<E>(raw: Result<Seq<u8>, E>) -> Slot<E> {
    match raw {
        Err(e) => Err(EntryReaderError::Io(e)),
        Ok(b) => match decoded(b) {
            Ok(entry) => Ok(entry),
            Err(e) => Err(EntryReaderError::Entry(e)),
        },
    }
}

/// Reading the entry at `position` in a directory may give `slot`. Where the bytes
/// of the directory end before it does, the partition has ended early.
pub open spec fn may_read<E: PartitionError>(
    extent: Extent,
    replies: Replies<E>,
    position: int,
    slot: Slot<E>,
) -> bool {
    if position + ENTRY_LEN > extent.data_length {
        slot matches Err(EntryReaderError::Io(e)) && e.is_unexpected_eop()
    } else {
        exists|raw: Result<Seq<u8>, E>| #[trigger]
            extent.reads(replies, position, ENTRY_LEN as nat, raw) && slot == slot_of(raw)
    }
}

/// How far reading an entry moves on: past its bytes, whether they are an entry or
/// not, and nowhere where the bytes cannot be had.
pub open spec fn step_over<E>(slot: Slot<E>) -> int {
    match slot {
        Err(EntryReaderError::Io(_)) => 0,
        _ => ENTRY_LEN as int,
    }
}

/// Where the next entry is read after `slots`, from the first entry on.
pub open spec fn position_after<E>(slots: Seq<Slot<E>>) -> int
    decreases slots.len(),
{
    if slots.len() == 0 {
        0
    } else {
        position_after(slots.drop_last()) + step_over(slots.last())
    }
}

/// The entries of a directory may be read as `slots`, from the first on: each of
/// them is what may be read where those before it have led.
pub open spec fn may_read_all<E: PartitionError>(
    extent: Extent,
    replies: Replies<E>,
    slots: Seq<Slot<E>>,
) -> bool {
    forall|i: int|
        0 <= i < slots.len() ==> may_read(
            extent,
            replies,
            position_after(slots.take(i)),
            #[trigger] slots[i],
        )
}

pub open spec fn all_ok<E>(slots: Seq<Slot<E>>) -> bool {
    forall|i: int| 0 <= i < slots.len() ==> (#[trigger] slots[i]) is Ok
}

/// Reads the entries of a directory.
pub struct DirEntryReader<O: ReadOffset> {
    reader: ClusterChainReader<O>,
    log: Ghost<Seq<Slot<O::Err>>>,
}

impl<O: ReadOffset> DirEntryReader<O> {
    /// What has been read so far.
    pub closed spec fn log(self) -> Seq<Slot<O::Err>> {
        self.log@
    }

    pub closed spec fn extent(self) -> Extent {
        self.reader.extent()
    }

    pub closed spec fn device(self) -> O {
        self.reader.device()
    }

    /// Where the next entry is read.
    pub closed spec fn position(self) -> int {
        self.reader.pos() as int
    }

    /// The reader stands where what was read has led.
    pub closed spec fn wf(self) -> bool {
        &&& self.extent().wf()
        &&& self.position() == position_after(self.log())
        &&& may_read_all(self.extent(), self.device().replies(), self.log())
    }

    /// What has been read is what may be read, and has led to the position.
    pub proof fn lemma_log(self)
        requires
            self.wf(),
        ensures
            may_read_all(self.extent(), self.device().replies(), self.log()),
            self.position() == position_after(self.log()),
    {
    }

    /// No more entries are read than the directory has.
    pub proof fn lemma_log_bounded(self)
        requires
            self.wf(),
            all_ok(self.log()),
        ensures
            ENTRY_LEN * self.log().len() <= self.extent().data_length,
    {
        let n = self.log().len();
        if n > 0 {
            assert(all_ok(self.log().take(n - 1)));
            assert(self.log()[n - 1] is Ok);
            lemma_reads_in_place(
                self.extent(),
                self.device().replies(),
                self.log(),
                n - 1,
            );
        }
    }

    /// A reader of the entries that `reader` holds, from the first on.
    pub fn from(reader: ClusterChainReader<O>) -> (r: Self)
        requires
            reader.pos() == 0,
        ensures
            r.wf(),
            r.log() == Seq::<Slot<O::Err>>::empty(),
            r.position() == 0,
            r.extent() == reader.extent(),
            r.device() == reader.device(),
    {
        let len: u64 = reader.data_length();
        DirEntryReader { reader, log: Ghost(Seq::empty()) }
    }

    /// Reads the next entry. The reader then stands behind its bytes, or where it
    /// stood if they could not be had.
    pub fn read(&mut self) -> (r: Slot<O::Err>)
        requires
            old(self).wf(),
        ensures
            final(self).wf(),
            final(self).log() == old(self).log().push(r),
            may_read(old(self).extent(), old(self).device().replies(), old(self).position(), r),
            final(self).position() == old(self).position() + step_over(r),
            final(self).extent() == old(self).extent(),
            final(self).device() == old(self).device(),
    {
        let ghost before = self.log@;
        proof {
            lemma_position(before);
        }
        let left: u64 = self.reader.data_length() - self.reader.stream_position();
        if left < ENTRY_LEN as u64 {
            let e = <O::Err as PartitionError>::unexpected_eop();
            let r: Slot<O::Err> = Err(EntryReaderError::Io(e));
            proof {
                self.log@ = before.push(r);
                lemma_extended(self.extent(), self.device().replies(), before, r);
            }
            return r;
        }
        let r = read_slot(&mut self.reader);
        proof {
            self.log@ = before.push(r);
            lemma_extended(self.extent(), self.device().replies(), before, r);
        }
        r
    }
}

/// Reads the entry at the position of `reader`.
fn read_slot<O: ReadOffset>(reader: &mut ClusterChainReader<O>) -> (r: Slot<O::Err>)
    requires
        old(reader).extent().wf(),
        old(reader).pos() % 32 == 0,
        old(reader).pos() + ENTRY_LEN <= old(reader).extent().data_length,
    ensures
        exists|raw: Result<Seq<u8>, O::Err>| #[trigger]
            old(reader).extent().reads(
                old(reader).device().replies(),
                old(reader).pos() as int,
                ENTRY_LEN as nat,
                raw,
            ) && r == slot_of(raw),
        final(reader).pos() == old(reader).pos() + step_over(r),
        final(reader).extent() == old(reader).extent(),
        final(reader).device() == old(reader).device(),
{
    let mut raw = [0u8; ENTRY_LEN];
    proof {
        lemma_whole_entry(reader.extent(), reader.pos() as int);
    }
    let got = reader.read(&mut raw);
    let ghost bytes = outcome(got, raw@);
    assert(old(reader).extent().reads(
        old(reader).device().replies(),
        old(reader).pos() as int,
        ENTRY_LEN as nat,
        bytes,
    ));
    let r: Slot<O::Err> = match got {
        Err(e) => Err(EntryReaderError::Io(e)),
        Ok(_) => {
            assert(raw@.take(32) =~= raw@);
            match DirEntry::try_from(raw) {
                Ok(entry) => Ok(entry),
                Err(e) => Err(EntryReaderError::Entry(e)),
            }
        },
    };
    assert(r == slot_of(bytes));
    r
}

/// A cluster has room for whole entries only, so none is read in parts.
pub proof fn lemma_whole_entry(extent: Extent, position: int)
    requires
        extent.wf(),
        0 <= position,
        position % 32 == 0,
        position + 32 <= extent.data_length,
    ensures
        extent.readable(position, 32) == 32,
{
    extent.boot.lemma_sizes();
    let size = extent.boot.cluster_size() as int;
    let k = size / 32;
    let p = position / 32;
    assert(size == 32 * k);
    assert(position == 32 * p);
    assert(position % size == 32 * (p % k)) by (nonlinear_arith)
        requires
            size == 32 * k,
            position == 32 * p,
            k > 0,
            p >= 0,
    {
        vstd::arithmetic::div_mod::lemma_truncate_middle(p, 32, k);
    }
    assert(p % k < k) by (nonlinear_arith)
        requires
            k > 0,
    ;
}

/// Readers stand where entries begin.
proof fn lemma_position<E>(slots: Seq<Slot<E>>)
    ensures
        0 <= position_after(slots),
        position_after(slots) % 32 == 0,
        all_ok(slots) ==> position_after(slots) == ENTRY_LEN * slots.len(),
    decreases slots.len(),
{
    if slots.len() > 0 {
        let front = slots.drop_last();
        lemma_position(front);
        if all_ok(slots) {
            assert(slots.last() is Ok);
            assert forall|i: int| 0 <= i < front.len() implies (#[trigger] front[i]) is Ok by {
                assert(slots[i] is Ok);
            }
        }
    }
}

/// As long as entries can be read, each is read behind those before it.
pub proof fn lemma_reads_in_place<E: PartitionError>(
    extent: Extent,
    replies: Replies<E>,
    slots: Seq<Slot<E>>,
    i: int,
)
    requires
        may_read_all(extent, replies, slots),
        0 <= i < slots.len(),
        all_ok(slots.take(i)),
    ensures
        may_read(extent, replies, ENTRY_LEN * i, slots[i]),
{
    lemma_position(slots.take(i));
}

proof fn lemma_extended<E: PartitionError>(
    extent: Extent,
    replies: Replies<E>,
    before: Seq<Slot<E>>,
    slot: Slot<E>,
)
    requires
        may_read_all(extent, replies, before),
        may_read(extent, replies, position_after(before), slot),
    ensures
        may_read_all(extent, replies, before.push(slot)),
        position_after(before.push(slot)) == position_after(before) + step_over(slot),
{
    let after = before.push(slot);
    assert(after.drop_last() =~= before);
    assert forall|i: int| 0 <= i < after.len() implies may_read(
        extent,
        replies,
        position_after(after.take(i)),
        #[trigger] after[i],
    ) by {
        if i < before.len() {
            assert(after.take(i) =~= before.take(i));
            assert(after[i] == before[i]);
        } else {
            assert(after.take(i) =~= before);
        }
    }
}

} // verus!
