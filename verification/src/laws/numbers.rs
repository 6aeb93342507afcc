//! Numbers in bytes.
use vstd::arithmetic::power::{lemma_pow0, pow};
use vstd::prelude::*;

use crate::le::{law_value_of_bytes, le_bytes, le_value, lemma_le_bytes_len, lemma_radix, radix};

verus! {

/// The number in the two bytes of `b` from `i` on.
pub open spec fn two(b: Seq<u8>, i: int) -> int {
    b[i] + 0x100 * b[i + 1]
}

/// The number in the four bytes of `b` from `i` on.
pub open spec fn four(b: Seq<u8>, i: int) -> int {
    two(b, i) + 0x1_0000 * two(b, i + 2)
}

/// The number in the eight bytes of `b` from `i` on.
pub open spec fn eight(b: Seq<u8>, i: int) -> int {
    four(b, i) + 0x1_0000_0000 * four(b, i + 4)
}

/// The number in the sixteen bytes of `b` from `i` on.
pub open spec fn sixteen(b: Seq<u8>, i: int) -> int {
    eight(b, i) + 0x1_0000_0000_0000_0000 * eight(b, i + 8)
}

/// Bytes behind others count for as much more as the others could spell numbers,
/// and a single byte spells itself.
pub proof fn law_value_of_parts(a: Seq<u8>, b: Seq<u8>, c: u8)
    ensures
        le_value(a + b) == le_value(a) + pow(256, a.len()) * le_value(b),
        le_value(seq![c]) == c,
        le_value(Seq::empty()) == 0,
    decreases a.len(),
{
    reveal_with_fuel(le_value, 2);
    if a.len() == 0 {
        assert(a + b =~= b);
        lemma_pow0(256);
    } else {
        let rest = a.skip(1);
        law_value_of_parts(rest, b, c);
        assert((a + b).skip(1) =~= rest + b);
        reveal(pow);
        let p = pow(256, rest.len());
        let v = le_value(b) as int;
        assert(256 * (p * v) == (256 * p) * v) by (nonlinear_arith);
    }
}

/// The numbers in two, four, eight and sixteen bytes.
pub proof fn lemma_values(b: Seq<u8>, i: int)
    requires
        0 <= i,
    ensures
        i + 2 <= b.len() ==> le_value(b.subrange(i, i + 2)) == two(b, i),
        i + 4 <= b.len() ==> le_value(b.subrange(i, i + 4)) == four(b, i),
        i + 8 <= b.len() ==> le_value(b.subrange(i, i + 8)) == eight(b, i),
        i + 16 <= b.len() ==> le_value(b.subrange(i, i + 16)) == sixteen(b, i),
{
    if i + 2 <= b.len() {
        lemma_value_two(b, i);
    }
    if i + 4 <= b.len() {
        lemma_value_four(b, i);
    }
    if i + 8 <= b.len() {
        lemma_value_eight(b, i);
    }
    if i + 16 <= b.len() {
        lemma_value_eight(b, i);
        lemma_value_eight(b, i + 8);
        let low = b.subrange(i, i + 8);
        let high = b.subrange(i + 8, i + 16);
        assert(b.subrange(i, i + 16) =~= low + high);
        law_value_of_parts(low, high, 0);
        lemma_powers();
    }
}

proof fn lemma_powers()
    ensures
        pow(256, 1) == 0x100,
        pow(256, 2) == 0x1_0000,
        pow(256, 4) == 0x1_0000_0000,
        pow(256, 8) == 0x1_0000_0000_0000_0000,
{
    reveal(pow);
    reveal_with_fuel(pow, 9);
}

proof fn lemma_value_two(b: Seq<u8>, i: int)
    requires
        0 <= i,
        i + 2 <= b.len(),
    ensures
        le_value(b.subrange(i, i + 2)) == two(b, i),
{
    assert(b.subrange(i, i + 2) =~= seq![b[i]] + seq![b[i + 1]]);
    law_value_of_parts(seq![b[i]], seq![b[i + 1]], b[i]);
    law_value_of_parts(seq![b[i]], seq![b[i + 1]], b[i + 1]);
    lemma_powers();
}

proof fn lemma_value_four(b: Seq<u8>, i: int)
    requires
        0 <= i,
        i + 4 <= b.len(),
    ensures
        le_value(b.subrange(i, i + 4)) == four(b, i),
{
    lemma_value_two(b, i);
    lemma_value_two(b, i + 2);
    let low = b.subrange(i, i + 2);
    let high = b.subrange(i + 2, i + 4);
    assert(b.subrange(i, i + 4) =~= low + high);
    law_value_of_parts(low, high, 0);
    lemma_powers();
}

proof fn lemma_value_eight(b: Seq<u8>, i: int)
    requires
        0 <= i,
        i + 8 <= b.len(),
    ensures
        le_value(b.subrange(i, i + 8)) == eight(b, i),
{
    lemma_value_four(b, i);
    lemma_value_four(b, i + 4);
    let low = b.subrange(i, i + 4);
    let high = b.subrange(i + 4, i + 8);
    assert(b.subrange(i, i + 8) =~= low + high);
    law_value_of_parts(low, high, 0);
    lemma_powers();
}

/// Writing a number in `n` bytes gives bytes that spell it.
pub proof fn law_number_written(v: nat, b: Seq<u8>)
    ensures
        v < 0x1_0000 && b == le_bytes(v, 2) ==> b.len() == 2 && two(b, 0) == v,
        v < 0x1_0000_0000 && b == le_bytes(v, 4) ==> b.len() == 4 && four(b, 0) == v,
        v < 0x1_0000_0000_0000_0000 && b == le_bytes(v, 8) ==> b.len() == 8 && eight(b, 0) == v,
        v < 0x1_0000_0000_0000_0000_0000_0000_0000_0000 && b == le_bytes(v, 16) ==> b.len() == 16
            && sixteen(b, 0) == v,
{
    lemma_radix();
    lemma_values(b, 0);
    lemma_le_bytes_len(v, 2);
    lemma_le_bytes_len(v, 4);
    lemma_le_bytes_len(v, 8);
    lemma_le_bytes_len(v, 16);
    if v < radix(2) && b == le_bytes(v, 2) {
        law_value_of_bytes(v, 2);
        assert(b.subrange(0, 2) =~= b);
    }
    if v < radix(4) && b == le_bytes(v, 4) {
        law_value_of_bytes(v, 4);
        assert(b.subrange(0, 4) =~= b);
    }
    if v < radix(8) && b == le_bytes(v, 8) {
        law_value_of_bytes(v, 8);
        assert(b.subrange(0, 8) =~= b);
    }
    if v < radix(16) && b == le_bytes(v, 16) {
        law_value_of_bytes(v, 16);
        assert(b.subrange(0, 16) =~= b);
    }
}

/// The number in bytes that stand at `at` in `b`.
pub proof fn lemma_number_at(b: Seq<u8>, at: int, v: nat, n: nat)
    requires
        0 <= at,
        at + n <= b.len(),
        v < radix(n),
        b.subrange(at, at + n) == le_bytes(v, n),
    ensures
        n == 2 ==> two(b, at) == v,
        n == 4 ==> four(b, at) == v,
        n == 8 ==> eight(b, at) == v,
        n == 16 ==> sixteen(b, at) == v,
{
    lemma_values(b, at);
    law_value_of_bytes(v, n);
}

} // verus!
