//! Going through the entries of a directory until they decide what it holds.
use vstd::prelude::*;

use crate::boot_sector::BootSector;
use crate::entry::reader::{all_ok, Slot};
use crate::entry::{DirEntry, FileEntry};
use crate::error::ElementError;
use crate::fs::{decide_element, element_of, lemma_element_extends, Node};

verus! {

/// What entries decide, `None` where there are too few of them.
pub type Decide<E, R> = spec_fn(Seq<Slot<E>>) -> Option<R>;

/// The entries `slots` decide on `r`, and no fewer do.
pub open spec fn settles<E, R>(decide: Decide<E, R>, slots: Seq<Slot<E>>, r: R) -> bool {
    &&& decide(slots) == Some(r)
    &&& forall|k: int| 0 <= k < slots.len() ==> decide(#[trigger] slots.take(k)) is None
}

/// Behind the entries `slots`, which decide nothing, `from` decides as `to` does.
pub open spec fn leads_to<E, R>(
    from: Decide<E, R>,
    slots: Seq<Slot<E>>,
    to: Decide<E, R>,
) -> bool {
    &&& forall|rest: Seq<Slot<E>>| #[trigger] from(slots + rest) == to(rest)
    &&& forall|k: int| 0 <= k < slots.len() ==> from(#[trigger] slots.take(k)) is None
}

pub proof fn lemma_leads_nowhere<E, R>(decide: Decide<E, R>)
    ensures
        leads_to(decide, Seq::empty(), decide),
{
    assert forall|rest: Seq<Slot<E>>| #[trigger]
        decide(Seq::<Slot<E>>::empty() + rest) == decide(rest) by {
        assert(Seq::<Slot<E>>::empty() + rest =~= rest);
    }
}

pub proof fn lemma_settles<E, R>(
    from: Decide<E, R>,
    slots: Seq<Slot<E>>,
    to: Decide<E, R>,
    more: Seq<Slot<E>>,
    r: R,
)
    requires
        leads_to(from, slots, to),
        settles(to, more, r),
    ensures
        settles(from, slots + more, r),
{
    lemma_undecided(from, slots, to, more);
}

pub proof fn lemma_leads_on<E, R>(
    from: Decide<E, R>,
    slots: Seq<Slot<E>>,
    mid: Decide<E, R>,
    more: Seq<Slot<E>>,
    to: Decide<E, R>,
)
    requires
        leads_to(from, slots, mid),
        leads_to(mid, more, to),
    ensures
        leads_to(from, slots + more, to),
{
    lemma_undecided(from, slots, mid, more);
    assert forall|rest: Seq<Slot<E>>| #[trigger] from((slots + more) + rest) == to(rest) by {
        assert((slots + more) + rest =~= slots + (more + rest));
    }
}

proof fn lemma_undecided<E, R>(
    from: Decide<E, R>,
    slots: Seq<Slot<E>>,
    to: Decide<E, R>,
    more: Seq<Slot<E>>,
)
    requires
        leads_to(from, slots, to),
        forall|k: int| 0 <= k < more.len() ==> to(#[trigger] more.take(k)) is None,
    ensures
        forall|k: int|
            0 <= k < (slots + more).len() ==> from(#[trigger] (slots + more).take(k)) is None,
{
    let all = slots + more;
    assert forall|k: int| 0 <= k < all.len() implies from(#[trigger] all.take(k)) is None by {
        if k < slots.len() {
            assert(all.take(k) =~= slots.take(k));
        } else {
            assert(all.take(k) =~= slots + more.take(k - slots.len()));
        }
    }
}

/// Where `entry` comes first, `decide` takes it as the beginning of a file or
/// directory: it fails as `fail` says, or goes on as `next` does behind its
/// entries.
pub open spec fn takes_file<E, R>(
    decide: Decide<E, R>,
    boot: BootSector,
    fat: Seq<u32>,
    entry: DirEntry,
    file_entry: FileEntry,
    fail: spec_fn(ElementError<E>) -> R,
    next: spec_fn(Node) -> Decide<E, R>,
) -> bool {
    &&& decide(Seq::empty()) is None
    &&& forall|slots: Seq<Slot<E>>|
        slots.len() > 0 && (slots[0] matches Ok(first) && first == entry) ==> #[trigger] decide(
            slots,
        ) == match element_of(boot, fat, file_entry, slots.skip(1)) {
            None => None,
            Some(Err(e)) => Some(fail(e)),
            Some(Ok(node)) => if slots.len() < 1 + file_entry.secondary_count {
                None
            } else {
                next(node)(slots.skip(1 + file_entry.secondary_count))
            },
        }
}

/// An entry that begins a file or directory, and the entries behind it that
/// decide what it is.
pub proof fn lemma_file<E, R>(
    decide: Decide<E, R>,
    boot: BootSector,
    fat: Seq<u32>,
    entry: DirEntry,
    file_entry: FileEntry,
    fail: spec_fn(ElementError<E>) -> R,
    next: spec_fn(Node) -> Decide<E, R>,
    used: Seq<Slot<E>>,
    r: Result<Node, ElementError<E>>,
)
    requires
        takes_file(decide, boot, fat, entry, file_entry, fail, next),
        settles(decide_element(boot, fat, file_entry), used, r),
        r is Ok ==> used.len() == file_entry.secondary_count,
    ensures
        match r {
            Err(e) => settles(decide, seq![Ok(entry)] + used, fail(e)),
            Ok(node) => leads_to(decide, seq![Ok(entry)] + used, next(node)),
        },
{
    let part = decide_element::<E>(boot, fat, file_entry);
    let more = seq![Ok(entry)] + used;
    assert(more.skip(1) =~= used);
    assert(part(used) == Some(r));
    assert forall|k: int| 0 <= k < more.len() implies decide(#[trigger] more.take(k)) is None by {
        if k > 0 {
            assert(more.take(k).skip(1) =~= used.take(k - 1));
            assert(part(used.take(k - 1)) is None);
        } else {
            assert(more.take(k) =~= Seq::empty());
        }
    }
    match r {
        Err(e) => {
            assert(decide(more) == Some(fail(e)));
        },
        Ok(node) => {
            assert forall|rest: Seq<Slot<E>>| #[trigger]
                decide(more + rest) == next(node)(rest) by {
                let all = more + rest;
                assert(all.skip(1) =~= used + rest);
                lemma_element_extends(boot, fat, file_entry, used, rest);
                assert(all.skip(1 + file_entry.secondary_count) =~= rest);
            }
        },
    }
}

/// `decide` goes through entries in order: what it has decided stands whatever
/// follows, it decides nothing on no entries, and it goes no further than the
/// first entry that cannot be read.
pub open spec fn goes_in_order<E, R>(decide: Decide<E, R>) -> bool {
    &&& decide(Seq::empty()) is None
    &&& forall|a: Seq<Slot<E>>, b: Seq<Slot<E>>|
        decide(a) is Some ==> #[trigger] decide(a + b) == decide(a)
    &&& forall|a: Seq<Slot<E>>|
        a.len() > 0 && all_ok(a.drop_last()) && a.last() is Err ==> #[trigger] decide(a) is Some
}

} // verus!
