//! The storage that a volume lives on.
//!
//! What a device does when it is read or written is up to its implementor. The
//! specification functions of the traits below name that behaviour as a
//! relation, and contracts throughout the crate are stated over it: they hold of
//! every device, one that fails or gives short reads included. An implementor
//! that leaves them out says nothing of what its device does.
use std::sync::Arc;
use vstd::prelude::*;

verus! {

/// Where to move to in a stream of bytes.
#[derive(Clone, Copy, Debug)]
pub enum SeekFrom {
    Start(u64),
    End(i64),
    Current(i64),
}

/// A medium that can be written at a position.
pub trait WriteSeek: Sized {
    type Err;

    /// Writing `buf` may return `r` and leave the medium as `after`.
    open spec fn wrote(&self, buf: Seq<u8>, r: Result<usize, Self::Err>, after: Self) -> bool {
        true
    }

    /// Moving to `pos` may return `r` and leave the medium as `after`.
    open spec fn sought(&self, pos: SeekFrom, r: Result<u64, Self::Err>, after: Self) -> bool {
        true
    }

    /// `e` may report that a write fell short.
    open spec fn fell_short(&self, e: Self::Err) -> bool {
        true
    }

    fn write(&mut self, buf: &[u8]) -> (r: Result<usize, Self::Err>)
        ensures
            old(self).wrote(buf@, r, *final(self)),
    ;

    fn failed_to_write(&self) -> (e: Self::Err)
        ensures
            self.fell_short(e),
    ;

    fn write_all(&mut self, buf: &[u8]) -> Result<(), Self::Err>;

    fn seek(&mut self, pos: SeekFrom) -> (r: Result<u64, Self::Err>)
        ensures
            old(self).sought(pos, r, *final(self)),
    ;

    fn stream_position(&mut self) -> Result<u64, Self::Err>;
}

/// How many bytes are written at a time.
pub const ZERO_CHUNK: usize = 4096;

/// `n` zero bytes.
pub open spec fn zeroes(n: nat) -> Seq<u8> {
    Seq::new(n, |i: int| 0u8)
}

/// The length of the next write while `remaining` bytes are to be zeroed.
pub open spec fn next_chunk(remaining: nat) -> nat {
    if remaining < ZERO_CHUNK as nat {
        remaining
    } else {
        ZERO_CHUNK as nat
    }
}

/// Zeroing `remaining` bytes from the current position of `before` on may
/// return `r` and leave the medium as `after`: chunks of zeroes are written one
/// after the other, up to the first that fails or is not taken whole.
pub open spec fn zero_fills<T: WriteSeek>(
    before: T,
    remaining: nat,
    r: Result<(), T::Err>,
    after: T,
) -> bool
    decreases remaining,
{
    if remaining == 0 {
        r is Ok && after == before
    } else {
        let n = next_chunk(remaining);
        exists|w: Result<usize, T::Err>, mid: T|
            {
                &&& #[trigger] before.wrote(zeroes(n), w, mid)
                &&& match w {
                    Err(e) => r == Err::<(), T::Err>(e) && after == mid,
                    Ok(k) => if k == n {
                        zero_fills(mid, (remaining - n) as nat, r, after)
                    } else {
                        after == mid && (r matches Err(e) && mid.fell_short(e))
                    },
                }
            }
    }
}

/// `write_zeroes` may return `r` and turn `before` into `after`.
pub open spec fn zeroes_written<T: WriteSeek>(
    before: T,
    size: u64,
    offset: u64,
    r: Result<(), T::Err>,
    after: T,
) -> bool {
    exists|s: Result<u64, T::Err>, mid: T|
        {
            &&& #[trigger] before.sought(SeekFrom::Start(offset), s, mid)
            &&& match s {
                Err(e) => r == Err::<(), T::Err>(e) && after == mid,
                Ok(_) => zero_fills(mid, size as nat, r, after),
            }
        }
}

/// Writes zeroes to a file from the given absolute offset (in bytes), up to the given size.
pub fn write_zeroes<T: WriteSeek>(f: &mut T, size: u64, offset: u64) -> (r: Result<(), T::Err>)
    ensures
        zeroes_written(*old(f), size, offset, r, *final(f)),
{
    let buffer = [0u8; ZERO_CHUNK];

    match f.seek(SeekFrom::Start(offset)) {
        Err(e) => return Err(e),
        Ok(s) => {
            assert(old(f).sought(SeekFrom::Start(offset), Ok(s), *f));
        },
    }
    let ghost start = *f;

    let mut remaining: u64 = size;
    while remaining > 0
        invariant
            remaining <= size,
            forall|i: int| 0 <= i < ZERO_CHUNK ==> buffer@[i] == 0u8,
            exists|s: u64| old(f).sought(SeekFrom::Start(offset), Ok::<u64, T::Err>(s), start),
            forall|r: Result<(), T::Err>, after: T|
                zero_fills(*f, remaining as nat, r, after) ==> #[trigger] zero_fills(
                    start,
                    size as nat,
                    r,
                    after,
                ),
        decreases remaining,
    {
        let iter_size: u64 = if remaining < ZERO_CHUNK as u64 {
            remaining
        } else {
            ZERO_CHUNK as u64
        };
        let chunk = &buffer[0..iter_size as usize];
        assert(chunk@ =~= zeroes(next_chunk(remaining as nat)));
        let ghost before = *f;
        match f.write(chunk) {
            Err(e) => {
                assert(before.wrote(zeroes(next_chunk(remaining as nat)), Err(e), *f));
                return Err(e);
            },
            Ok(k) => {
                assert(before.wrote(zeroes(next_chunk(remaining as nat)), Ok(k), *f));
                if k != iter_size as usize {
                    let e = f.failed_to_write();
                    return Err(e);
                }
            },
        }
        remaining = remaining - iter_size;
    }
    assert(zero_fills(*f, 0, Ok::<(), T::Err>(()), *f));
    Ok(())
}

/// The bytes of a file after `data` was put at `at`: bytes between the old end
/// and `at` read as zero.
pub open spec fn overlay(s: Seq<u8>, at: nat, data: Seq<u8>) -> Seq<u8> {
    if data.len() == 0 {
        s
    } else {
        Seq::new(
            if s.len() < at + data.len() {
                at + data.len()
            } else {
                s.len()
            },
            |i: int|
                if at <= i < at + data.len() {
                    data[i - at]
                } else if i < s.len() {
                    s[i]
                } else {
                    0u8
                },
        )
    }
}

/// `store` shows what `T` holds and where it stands, and `T` behaves as a file:
/// a write that takes `k` bytes puts them at the position and moves past them,
/// and a seek from the start moves to the offset.
pub open spec fn is_file<T: WriteSeek>(store: spec_fn(T) -> (Seq<u8>, nat)) -> bool {
    &&& forall|before: T, buf: Seq<u8>, k: usize, after: T| #[trigger]
        before.wrote(buf, Ok(k), after) ==> k <= buf.len() && store(after) == (
            overlay(store(before).0, store(before).1, buf.take(k as int)),
            (store(before).1 + k) as nat,
        )
    &&& forall|before: T, offset: u64, p: u64, after: T| #[trigger]
        before.sought(SeekFrom::Start(offset), Ok(p), after) ==> store(after) == (
            store(before).0,
            offset as nat,
        )
}

proof fn lemma_zero_fills_file<T: WriteSeek>(
    store: spec_fn(T) -> (Seq<u8>, nat),
    before: T,
    remaining: nat,
    after: T,
)
    requires
        is_file(store),
        zero_fills(before, remaining, Ok(()), after),
    ensures
        store(after).0 == overlay(store(before).0, store(before).1, zeroes(remaining)),
        store(after).1 == store(before).1 + remaining,
    decreases remaining,
{
    if remaining > 0 {
        let n = next_chunk(remaining);
        let (w, mid) = choose|w: Result<usize, T::Err>, mid: T|
            {
                &&& #[trigger] before.wrote(zeroes(n), w, mid)
                &&& match w {
                    Err(e) => Ok::<(), T::Err>(()) == Err::<(), T::Err>(e) && after == mid,
                    Ok(k) => if k == n {
                        zero_fills(mid, (remaining - n) as nat, Ok::<(), T::Err>(()), after)
                    } else {
                        after == mid && (Ok::<(), T::Err>(()) matches Err(e) && mid.fell_short(e))
                    },
                }
            };
        assert(w is Ok);
        let rest = (remaining - n) as nat;
        lemma_zero_fills_file(store, mid, rest, after);
        assert(zeroes(n).take(n as int) =~= zeroes(n));
        assert(overlay(
            overlay(store(before).0, store(before).1, zeroes(n)),
            store(before).1 + n,
            zeroes(rest),
        ) =~= overlay(store(before).0, store(before).1, zeroes(remaining)));
    }
}

/// Where the medium behaves as a file and `write_zeroes` succeeds, the `size`
/// bytes from `offset` on are zero and no other byte has changed.
pub proof fn law_zeroes_land_in_file<T: WriteSeek>(
    store: spec_fn(T) -> (Seq<u8>, nat),
    before: T,
    size: u64,
    offset: u64,
    after: T,
)
    requires
        is_file(store),
        zeroes_written(before, size, offset, Ok(()), after),
    ensures
        store(after).0 == overlay(store(before).0, offset as nat, zeroes(size as nat)),
        store(after).1 == offset + size,
{
    let (s, mid) = choose|s: Result<u64, T::Err>, mid: T|
        {
            &&& #[trigger] before.sought(SeekFrom::Start(offset), s, mid)
            &&& match s {
                Err(e) => Ok::<(), T::Err>(()) == Err::<(), T::Err>(e) && after == mid,
                Ok(_) => zero_fills(mid, size as nat, Ok::<(), T::Err>(()), after),
            }
        };
    assert(before.sought(SeekFrom::Start(offset), Ok(s->Ok_0), mid));
    lemma_zero_fills_file(store, mid, size as nat, after);
}

/// An error that a device reports.
pub trait PartitionError: core::fmt::Debug + Sized {
    /// Whether the error says that the partition ended early.
    open spec fn is_unexpected_eop(&self) -> bool {
        true
    }

    /// Whether the error says that `cluster` does not exist.
    open spec fn is_cluster_not_found(&self, cluster: u32) -> bool {
        true
    }

    fn unexpected_eop() -> (e: Self)
        ensures
            e.is_unexpected_eop(),
    ;

    fn cluster_not_found(cluster: u32) -> (e: Self)
        ensures
            e.is_cluster_not_found(cluster),
    ;
}

/// What a device may answer: the offset and the number of bytes asked for, and
/// the bytes handed over or the error.
pub type Replies<E> = spec_fn(u64, nat, Result<Seq<u8>, E>) -> bool;

/// What a read into `buffer` that returned `r` handed over.
pub open spec fn outcome<E>(r: Result<usize, E>, buffer: Seq<u8>) -> Result<Seq<u8>, E> {
    match r {
        Ok(n) => Ok(buffer.take(n as int)),
        Err(e) => Err(e),
    }
}

/// Reading all of `data` at `offset` may succeed: answers at successive offsets,
/// none of them empty, make up `data`.
pub open spec fn delivers<E>(replies: Replies<E>, offset: int, data: Seq<u8>) -> bool
    decreases data.len(),
{
    if data.len() == 0 {
        true
    } else {
        exists|n: int|
            {
                &&& 0 < n <= data.len()
                &&& offset + n <= u64::MAX
                &&& #[trigger] replies(offset as u64, data.len(), Ok(data.take(n)))
                &&& delivers(replies, offset + n, data.skip(n))
            }
    }
}

/// Reading `len` bytes at `offset` may fail with `e`: after some answers the
/// device reports `e`, hands over nothing, or has run out of offsets.
pub open spec fn fails<E: PartitionError>(replies: Replies<E>, offset: int, len: nat, e: E) -> bool
    decreases len,
{
    &&& len > 0
    &&& {
        ||| replies(offset as u64, len, Err(e))
        ||| e.is_unexpected_eop() && replies(offset as u64, len, Ok(Seq::empty()))
        ||| exists|part: Seq<u8>|
            {
                &&& 0 < part.len() <= len
                &&& #[trigger] replies(offset as u64, len, Ok(part))
                &&& if offset + part.len() > u64::MAX {
                    e.is_unexpected_eop()
                } else {
                    fails(replies, offset + part.len(), (len - part.len()) as nat, e)
                }
            }
    }
}

/// A device that can be read at any offset.
pub trait ReadOffset {
    type Err: PartitionError + 'static;

    /// What the device may answer.
    open spec fn replies(&self) -> Replies<Self::Err> {
        |offset: u64, len: nat, reply: Result<Seq<u8>, Self::Err>| true
    }

    /// Reads up to `buffer.len()` bytes at `offset` to the front of `buffer` and
    /// says how many they are.
    fn read_at(&self, offset: u64, buffer: &mut [u8]) -> (r: Result<usize, Self::Err>)
        ensures
            final(buffer)@.len() == old(buffer)@.len(),
            r matches Ok(n) ==> n <= old(buffer)@.len(),
            (self.replies())(offset, old(buffer)@.len(), outcome(r, final(buffer)@)),
    ;

    /// Reads `buffer.len()` bytes at `offset`.
    fn read_exact(&self, offset: u64, buffer: &mut [u8]) -> (r: Result<(), Self::Err>)
        ensures
            final(buffer)@.len() == old(buffer)@.len(),
            match r {
                Ok(()) => delivers(self.replies(), offset as int, final(buffer)@),
                Err(e) => fails(self.replies(), offset as int, old(buffer)@.len(), e),
            },
    {
        let ghost replies = self.replies();
        let total: usize = buffer.len();
        let mut at: u64 = offset;
        let mut done: usize = 0;
        while done < total
            invariant
                replies == self.replies(),
                done <= total == old(buffer)@.len(),
                buffer@.len() == total,
                forall|rest: Seq<u8>|
                    rest.len() == total - done && delivers(replies, at as int, rest)
                        ==> #[trigger] delivers(
                        replies,
                        offset as int,
                        buffer@.take(done as int) + rest,
                    ),
                forall|e: Self::Err|
                    fails(replies, at as int, (total - done) as nat, e) ==> #[trigger] fails(
                        replies,
                        offset as int,
                        total as nat,
                        e,
                    ),
            decreases total - done,
        {
            let ghost before = buffer@;
            let (head, tail) = buffer.split_at_mut(done);
            match self.read_at(at, tail) {
                Ok(n) => {
                    let ghost part = tail@.take(n as int);
                    if n == 0 {
                        assert(part =~= Seq::empty());
                        let e = <Self::Err as PartitionError>::unexpected_eop();
                        assert(fails(replies, at as int, (total - done) as nat, e));
                        return Err(e);
                    }
                    match at.checked_add(n as u64) {
                        None => {
                            let e = <Self::Err as PartitionError>::unexpected_eop();
                            assert(replies(at, (total - done) as nat, Ok(part)));
                            assert(fails(replies, at as int, (total - done) as nat, e));
                            return Err(e);
                        },
                        Some(next) => {
                            proof {
                                lemma_step(replies, at as int, (total - done) as nat, part);
                                assert(buffer@.take(done + n) =~= before.take(done as int) + part);
                                assert forall|rest: Seq<u8>|
                                    rest.len() == total - done - n && delivers(
                                        replies,
                                        next as int,
                                        rest,
                                    ) implies #[trigger] delivers(
                                    replies,
                                    offset as int,
                                    buffer@.take(done + n) + rest,
                                ) by {
                                    assert(delivers(replies, at as int, part + rest));
                                    assert(before.take(done as int) + (part + rest)
                                        =~= buffer@.take(done + n) + rest);
                                }
                            }
                            at = next;
                            done = done + n;
                        },
                    }
                },
                Err(e) => {
                    assert(fails(replies, at as int, (total - done) as nat, e));
                    return Err(e);
                },
            }
        }
        proof {
            let rest = Seq::<u8>::empty();
            assert(delivers(replies, at as int, rest));
            assert(buffer@.take(done as int) + rest =~= buffer@);
        }
        Ok(())
    }
}

proof fn lemma_step<E: PartitionError>(replies: Replies<E>, at: int, len: nat, part: Seq<u8>)
    requires
        0 < part.len() <= len,
        at + part.len() <= u64::MAX,
        replies(at as u64, len, Ok(part)),
    ensures
        forall|rest: Seq<u8>|
            rest.len() == len - part.len() && delivers(replies, at + part.len(), rest)
                ==> #[trigger] delivers(replies, at, part + rest),
        forall|e: E|
            fails(replies, at + part.len(), (len - part.len()) as nat, e) ==> #[trigger] fails(
                replies,
                at,
                len,
                e,
            ),
{
    assert forall|rest: Seq<u8>|
        rest.len() == len - part.len() && delivers(
            replies,
            at + part.len(),
            rest,
        ) implies #[trigger] delivers(replies, at, part + rest) by {
        let all = part + rest;
        let n = part.len() as int;
        assert(all.take(n) =~= part);
        assert(all.skip(n) =~= rest);
        assert(replies(at as u64, all.len(), Ok(all.take(n))));
    }
}

impl<T: ReadOffset> ReadOffset for &T {
    type Err = T::Err;

    open spec fn replies(&self) -> Replies<T::Err> {
        (**self).replies()
    }

    fn read_at(&self, offset: u64, buf: &mut [u8]) -> (r: Result<usize, Self::Err>) {
        (**self).read_at(offset, buf)
    }
}

impl<T: ReadOffset> ReadOffset for Arc<T> {
    type Err = T::Err;

    open spec fn replies(&self) -> Replies<T::Err> {
        (**self).replies()
    }

    fn read_at(&self, offset: u64, buf: &mut [u8]) -> (r: Result<usize, Self::Err>) {
        (**self).read_at(offset, buf)
    }
}

/// The device always hands over bytes of `content`, at least one of them unless
/// there is none left, and reports no errors of its own.
pub open spec fn is_image<E>(replies: Replies<E>, content: Seq<u8>) -> bool {
    forall|offset: u64, len: nat, reply: Result<Seq<u8>, E>| #[trigger]
        replies(offset, len, reply) ==> match reply {
            Err(_) => false,
            Ok(data) => {
                &&& data.len() <= len
                &&& data.len() > 0 ==> offset + data.len() <= content.len() && data
                    == content.subrange(offset as int, offset + data.len())
                &&& len > 0 && data.len() == 0 ==> offset >= content.len()
            },
        }
}

/// What is read of an image is what the image holds there.
pub proof fn law_image_delivers<E>(
    replies: Replies<E>,
    content: Seq<u8>,
    offset: int,
    data: Seq<u8>,
)
    requires
        is_image(replies, content),
        0 <= offset <= u64::MAX,
        data.len() > 0,
        delivers(replies, offset, data),
    ensures
        offset + data.len() <= content.len(),
        data == content.subrange(offset, offset + data.len()),
    decreases data.len(),
{
    let n = choose|n: int|
        {
            &&& 0 < n <= data.len()
            &&& offset + n <= u64::MAX
            &&& #[trigger] replies(offset as u64, data.len(), Ok(data.take(n)))
            &&& delivers(replies, offset + n, data.skip(n))
        };
    let rest = data.skip(n);
    if rest.len() > 0 {
        law_image_delivers(replies, content, offset + n, rest);
    }
    assert(data =~= data.take(n) + rest);
    assert(data =~= content.subrange(offset, offset + data.len()));
}

/// Reading an image fails only where it ends, or where offsets do.
pub proof fn law_image_fails<E: PartitionError>(
    replies: Replies<E>,
    content: Seq<u8>,
    offset: int,
    len: nat,
    e: E,
)
    requires
        is_image(replies, content),
        0 <= offset <= u64::MAX,
        fails(replies, offset, len, e),
    ensures
        e.is_unexpected_eop(),
        len > 0,
        offset + len > content.len() || offset + len > u64::MAX,
    decreases len,
{
    if !(e.is_unexpected_eop() && replies(offset as u64, len, Ok(Seq::empty()))) {
        let part = choose|part: Seq<u8>|
            {
                &&& 0 < part.len() <= len
                &&& #[trigger] replies(offset as u64, len, Ok(part))
                &&& if offset + part.len() > u64::MAX {
                    e.is_unexpected_eop()
                } else {
                    fails(replies, offset + part.len(), (len - part.len()) as nat, e)
                }
            };
        if offset + part.len() <= u64::MAX {
            law_image_fails(
                replies,
                content,
                offset + part.len(),
                (len - part.len()) as nat,
                e,
            );
        }
    }
}

} // verus!
