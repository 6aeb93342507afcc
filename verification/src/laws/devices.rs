//! Reading from devices and writing zeroes to media.
use std::sync::Arc;
use vstd::prelude::*;

use crate::disk::{
    delivers, fails, next_chunk, zero_fills, zeroes, zeroes_written, PartitionError, ReadOffset,
    Replies, SeekFrom, WriteSeek,
};

verus! {

/// The device answered at `at`, asked for `want` bytes, with `part`.
pub open spec fn answered<E>(
    replies: Replies<E>,
    at: int,
    want: nat,
    part: Result<Seq<u8>, E>,
) -> bool {
    0 <= at <= u64::MAX && replies(at as u64, want, part)
}

/// Every byte of what is read is one that the device handed over for its place, when
/// asked for all that was left to read.
pub proof fn law_bytes_are_answered<E>(
    replies: Replies<E>,
    offset: int,
    data: Seq<u8>,
    i: int,
) -> (answer: (int, Seq<u8>))
    requires
        0 <= offset <= u64::MAX,
        delivers(replies, offset, data),
        0 <= i < data.len(),
    ensures
        offset <= answer.0 <= offset + i < answer.0 + answer.1.len() <= offset + data.len(),
        answered(replies, answer.0, (offset + data.len() - answer.0) as nat, Ok(answer.1)),
        data[i] == answer.1[offset + i - answer.0],
    decreases data.len(),
{
    let n = choose|n: int|
        {
            &&& 0 < n <= data.len()
            &&& offset + n <= u64::MAX
            &&& #[trigger] replies(offset as u64, data.len(), Ok(data.take(n)))
            &&& delivers(replies, offset + n, data.skip(n))
        };
    if i < n {
        (offset, data.take(n))
    } else {
        let answer = law_bytes_are_answered(replies, offset + n, data.skip(n), i - n);
        answer
    }
}

/// A read that fails reports what the device reported when it was asked for one of
/// the bytes, or that the partition ended early: where the device had nothing more,
/// or where offsets end. Reading nothing does not fail.
pub proof fn law_failures_are_reported<E: PartitionError>(
    replies: Replies<E>,
    offset: int,
    len: nat,
    e: E,
) -> (at: int)
    requires
        0 <= offset <= u64::MAX,
        fails(replies, offset, len, e),
    ensures
        len > 0,
        offset <= at < offset + len,
        ({
            let want = (offset + len - at) as nat;
            ||| answered(replies, at, want, Err(e))
            ||| e.is_unexpected_eop() && answered(replies, at, want, Ok(Seq::empty()))
            ||| e.is_unexpected_eop() && at <= u64::MAX < offset + len
        }),
    decreases len,
{
    if replies(offset as u64, len, Err(e)) || e.is_unexpected_eop() && replies(
        offset as u64,
        len,
        Ok(Seq::empty()),
    ) {
        offset
    } else {
        let part = choose|part: Seq<u8>|
            {
                &&& 0 < part.len() <= len
                &&& #[trigger] replies(offset as u64, len, Ok(part))
                &&& if offset + part.len() > u64::MAX {
                    e.is_unexpected_eop()
                } else {
                    fails(replies, offset + part.len(), (len - part.len()) as nat, e)
                }
            };
        if offset + part.len() > u64::MAX {
            offset
        } else {
            let at = law_failures_are_reported(
                replies,
                offset + part.len(),
                (len - part.len()) as nat,
                e,
            );
            at
        }
    }
}

/// Through a reference or a shared pointer, a device answers as it does itself.
pub proof fn law_references_answer_alike<T: ReadOffset>(device: &T, shared: Arc<T>)
    ensures
        ReadOffset::replies(&device) == (*device).replies(),
        shared.replies() == (*shared).replies(),
{
}

/// `before` and `after` differ by `data` that was put at `at`: the bytes there are
/// those of `data`, what lies beyond an old end is zero, and the rest is the same.
pub open spec fn put_at(before: Seq<u8>, at: int, data: Seq<u8>, after: Seq<u8>) -> bool {
    if data.len() == 0 {
        after == before
    } else {
        &&& after.len() >= before.len() && after.len() >= at + data.len()
        &&& after.len() == before.len() || after.len() == at + data.len()
        &&& forall|i: int|
            0 <= i < after.len() ==> #[trigger] after[i] == (if at <= i < at + data.len() {
                data[i - at]
            } else if i < before.len() {
                before[i]
            } else {
                0u8
            })
    }
}

/// `store` shows what the medium holds and where it stands, and the medium behaves
/// as a file: a write puts what it takes where the medium stands and moves behind
/// it, a seek moves, and where either fails nothing is changed.
pub open spec fn behaves_as_file<T: WriteSeek>(store: spec_fn(T) -> (Seq<u8>, nat)) -> bool {
    &&& forall|before: T, buf: Seq<u8>, w: Result<usize, T::Err>, after: T| #[trigger]
        before.wrote(buf, w, after) ==> match w {
            Ok(k) => {
                &&& k <= buf.len()
                &&& put_at(
                    store(before).0,
                    store(before).1 as int,
                    buf.take(k as int),
                    store(after).0,
                )
                &&& store(after).1 == store(before).1 + k
            },
            Err(_) => store(after).0 == store(before).0,
        }
    &&& forall|before: T, pos: SeekFrom, s: Result<u64, T::Err>, after: T| #[trigger]
        before.sought(pos, s, after) ==> {
            &&& store(after).0 == store(before).0
            &&& s is Ok && pos is Start ==> store(after).1 == pos->Start_0
        }
}

/// The bytes of `after` are those of `before` but for `n` zeroes from `at` on.
pub open spec fn zeroed(before: Seq<u8>, at: int, n: int, after: Seq<u8>) -> bool {
    if n == 0 {
        after == before
    } else {
        &&& after.len() >= before.len() && after.len() >= at + n
        &&& after.len() == before.len() || after.len() == at + n
        &&& forall|i: int|
            0 <= i < after.len() ==> #[trigger] after[i] == (if i < before.len() && !(at <= i < at
                + n) {
                before[i]
            } else {
                0u8
            })
    }
}

proof fn lemma_zeroed_adds(a: Seq<u8>, at: int, n: int, b: Seq<u8>, m: int, c: Seq<u8>)
    requires
        0 <= at,
        0 <= n,
        0 <= m,
        zeroed(a, at, n, b),
        zeroed(b, at + n, m, c),
    ensures
        zeroed(a, at, n + m, c),
{
    if n > 0 && m > 0 {
        assert forall|i: int| 0 <= i < c.len() implies #[trigger] c[i] == (if i < a.len() && !(at
            <= i < at + (n + m)) {
            a[i]
        } else {
            0u8
        }) by {
            if i < b.len() {
                assert(b[i] == (if i < a.len() && !(at <= i < at + n) {
                    a[i]
                } else {
                    0u8
                }));
            }
        }
    }
}

proof fn lemma_fills<T: WriteSeek>(
    store: spec_fn(T) -> (Seq<u8>, nat),
    before: T,
    remaining: nat,
    r: Result<(), T::Err>,
    after: T,
) -> (done: nat)
    requires
        behaves_as_file(store),
        zero_fills(before, remaining, r, after),
    ensures
        done <= remaining,
        zeroed(store(before).0, store(before).1 as int, done as int, store(after).0),
        r is Ok ==> done == remaining && store(after).1 == store(before).1 + remaining,
    decreases remaining,
{
    if remaining == 0 {
        0
    } else {
        let n = next_chunk(remaining);
        let (w, mid) = choose|w: Result<usize, T::Err>, mid: T|
            {
                &&& #[trigger] before.wrote(zeroes(n), w, mid)
                &&& match w {
                    Err(e) => r == Err::<(), T::Err>(e) && after == mid,
                    Ok(k) => if k == n {
                        zero_fills(mid, (remaining - n) as nat, r, after)
                    } else {
                        after == mid && (r matches Err(e) && mid.fell_short(e))
                    },
                }
            };
        match w {
            Err(_) => 0,
            Ok(k) => {
                let at = store(before).1 as int;
                assert(zeroed(store(before).0, at, k as int, store(mid).0)) by {
                    let part = zeroes(n).take(k as int);
                    assert(put_at(store(before).0, at, part, store(mid).0));
                    if k > 0 {
                        assert forall|i: int| 0 <= i < store(mid).0.len() implies #[trigger] store(
                            mid,
                        ).0[i] == (if i < store(before).0.len() && !(at <= i < at + k) {
                            store(before).0[i]
                        } else {
                            0u8
                        }) by {
                            if at <= i < at + k {
                                assert(part[i - at] == 0);
                            }
                        }
                    }
                }
                if k == n {
                    let more = lemma_fills(store, mid, (remaining - n) as nat, r, after);
                    lemma_zeroed_adds(
                        store(before).0,
                        at,
                        n as int,
                        store(mid).0,
                        more as int,
                        store(after).0,
                    );
                    n + more
                } else {
                    k as nat
                }
            },
        }
    }
}

/// On a medium that behaves as a file, writing zeroes makes bytes zero from the
/// offset on and changes no others: all that were asked for where it succeeds, and
/// the first of them where it fails.
pub proof fn law_zeroes_are_written<T: WriteSeek>(
    store: spec_fn(T) -> (Seq<u8>, nat),
    before: T,
    size: u64,
    offset: u64,
    r: Result<(), T::Err>,
    after: T,
) -> (done: nat)
    requires
        behaves_as_file(store),
        zeroes_written(before, size, offset, r, after),
    ensures
        done <= size,
        zeroed(store(before).0, offset as int, done as int, store(after).0),
        r is Ok ==> done == size && store(after).1 == offset + size,
{
    let (s, mid) = choose|s: Result<u64, T::Err>, mid: T|
        {
            &&& #[trigger] before.sought(SeekFrom::Start(offset), s, mid)
            &&& match s {
                Err(e) => r == Err::<(), T::Err>(e) && after == mid,
                Ok(_) => zero_fills(mid, size as nat, r, after),
            }
        };
    match s {
        Err(_) => 0,
        Ok(_) => {
            let done = lemma_fills(store, mid, size as nat, r, after);
            done
        },
    }
}

/// Something that a medium did went wrong in the way that `e` tells.
pub open spec fn went_wrong<T: WriteSeek>(offset: u64, e: T::Err) -> bool {
    ||| exists|a: T, b: T| #[trigger] a.sought(SeekFrom::Start(offset), Err(e), b)
    ||| exists|a: T, buf: Seq<u8>, b: T| #[trigger] a.wrote(buf, Err(e), b)
    ||| exists|a: T, buf: Seq<u8>, k: usize, b: T| #[trigger]
        a.wrote(buf, Ok(k), b) && k != buf.len() && b.fell_short(e)
}

proof fn lemma_fill_fault<T: WriteSeek>(
    before: T,
    offset: u64,
    remaining: nat,
    e: T::Err,
    after: T,
)
    requires
        zero_fills(before, remaining, Err(e), after),
    ensures
        went_wrong::<T>(offset, e),
    decreases remaining,
{
    if remaining > 0 {
        let r = Err::<(), T::Err>(e);
        let n = next_chunk(remaining);
        let (w, mid) = choose|w: Result<usize, T::Err>, mid: T|
            {
                &&& #[trigger] before.wrote(zeroes(n), w, mid)
                &&& match w {
                    Err(e) => r == Err::<(), T::Err>(e) && after == mid,
                    Ok(k) => if k == n {
                        zero_fills(mid, (remaining - n) as nat, r, after)
                    } else {
                        after == mid && (r matches Err(e) && mid.fell_short(e))
                    },
                }
            };
        match w {
            Err(_) => {
                assert(before.wrote(zeroes(n), Err(e), mid));
            },
            Ok(k) => {
                assert(before.wrote(zeroes(n), Ok(k), mid));
                if k == n {
                    lemma_fill_fault(mid, offset, (remaining - n) as nat, e, after);
                }
            },
        }
    }
}

/// Writing zeroes fails only where the medium does: it cannot be moved to the
/// offset, a write fails, or a write takes less than it was given.
pub proof fn law_zeroes_fail_with_the_medium<T: WriteSeek>(
    before: T,
    size: u64,
    offset: u64,
    e: T::Err,
    after: T,
)
    requires
        zeroes_written(before, size, offset, Err(e), after),
    ensures
        went_wrong::<T>(offset, e),
{
    let r = Err::<(), T::Err>(e);
    let (s, mid) = choose|s: Result<u64, T::Err>, mid: T|
        {
            &&& #[trigger] before.sought(SeekFrom::Start(offset), s, mid)
            &&& match s {
                Err(e) => r == Err::<(), T::Err>(e) && after == mid,
                Ok(_) => zero_fills(mid, size as nat, r, after),
            }
        };
    match s {
        Err(_) => {
            assert(before.sought(SeekFrom::Start(offset), Err(e), mid));
        },
        Ok(_) => {
            lemma_fill_fault(mid, offset, size as nat, e, after);
        },
    }
}

} // verus!
