//! Fixed-width integers as bytes: what the two byte orders mean, and the
//! facts about them that the codec rests on.

use crate::config::Endianess;
use vstd::prelude::*;

verus! {

/// The number of values that `width` bytes can tell apart: 256 to the power
/// of `width`.
pub open spec fn limit(width: nat) -> nat
    decreases width,
{
    if width == 0 {
        1
    } else {
        256 * limit((width - 1) as nat)
    }
}

/// The `width` low bytes of `value`, least significant byte first.
pub open spec fn le_bytes(value: nat, width: nat) -> Seq<u8>
    decreases width,
{
    if width == 0 {
        Seq::empty()
    } else {
        seq![(value % 256) as u8] + le_bytes(value / 256, (width - 1) as nat)
    }
}

/// The `width` low bytes of `value`, most significant byte first.
pub open spec fn be_bytes(value: nat, width: nat) -> Seq<u8>
    decreases width,
{
    if width == 0 {
        Seq::empty()
    } else {
        be_bytes(value / 256, (width - 1) as nat).push((value % 256) as u8)
    }
}

/// The number that `bytes` spell, least significant byte first.
pub open spec fn le_value(bytes: Seq<u8>) -> nat
    decreases bytes.len(),
{
    if bytes.len() == 0 {
        0
    } else {
        bytes[0] as nat + 256 * le_value(bytes.drop_first())
    }
}

/// The number that `bytes` spell, most significant byte first.
pub open spec fn be_value(bytes: Seq<u8>) -> nat
    decreases bytes.len(),
{
    if bytes.len() == 0 {
        0
    } else {
        256 * be_value(bytes.drop_last()) + bytes.last() as nat
    }
}

/// The `width` low bytes of `value` in the given byte order.
pub open spec fn uint_bytes(endianess: Endianess, value: nat, width: nat) -> Seq<u8> {
    match endianess {
        Endianess::Little => le_bytes(value, width),
        Endianess::Big => be_bytes(value, width),
    }
}

/// The number that `bytes` spell in the given byte order.
pub open spec fn uint_value(endianess: Endianess, bytes: Seq<u8>) -> nat {
    match endianess {
        Endianess::Little => le_value(bytes),
        Endianess::Big => be_value(bytes),
    }
}

/// The unsigned number with the same `width`-byte two's complement pattern
/// as `value`.
pub open spec fn twos(value: int, width: nat) -> nat {
    if value >= 0 {
        value as nat
    } else {
        (value + limit(width)) as nat
    }
}

/// The signed number whose `width`-byte two's complement pattern spells
/// `pattern` as an unsigned number.
pub open spec fn untwos(pattern: nat, width: nat) -> int {
    if 2 * pattern < limit(width) {
        pattern as int
    } else {
        pattern - limit(width)
    }
}

/// The limits of the widths that the codec uses.
pub proof fn lemma_limit_values()
    ensures
        limit(0) == 1,
        limit(1) == 0x100,
        limit(2) == 0x1_0000,
        limit(4) == 0x1_0000_0000,
        limit(8) == 0x1_0000_0000_0000_0000,
        limit(16) == u128::MAX + 1,
{
    reveal_with_fuel(limit, 9);
    assert(limit(8) == 0x1_0000_0000_0000_0000);
    assert(limit(16) == limit(8) * limit(8)) by {
        lemma_limit_sum(8, 8);
    }
    assert(0x1_0000_0000_0000_0000int * 0x1_0000_0000_0000_0000int == u128::MAX + 1)
        by (nonlinear_arith);
}

/// Limits multiply as widths add.
pub proof fn lemma_limit_sum(a: nat, b: nat)
    ensures
        limit(a + b) == limit(a) * limit(b),
    decreases a,
{
    if a == 0 {
        assert(limit(0) == 1);
    } else {
        lemma_limit_sum((a - 1) as nat, b);
        assert(limit(a + b) == 256 * limit((a - 1 + b) as nat));
        assert(limit(a) == 256 * limit((a - 1) as nat));
        assert(256 * (limit((a - 1) as nat) * limit(b)) == (256 * limit((a - 1) as nat)) * limit(b))
            by (nonlinear_arith);
    }
}

/// A wider field has a larger limit.
pub proof fn lemma_limit_monotonic(a: nat, b: nat)
    requires
        a <= b,
    ensures
        1 <= limit(a) <= limit(b),
    decreases b,
{
    if b == 0 {
    } else if a == b {
        lemma_limit_monotonic((a - 1) as nat, (b - 1) as nat);
    } else {
        lemma_limit_monotonic(a, (b - 1) as nat);
    }
}

/// Either byte order yields exactly `width` bytes.
pub proof fn lemma_uint_bytes_len(endianess: Endianess, value: nat, width: nat)
    ensures
        uint_bytes(endianess, value, width).len() == width,
        le_bytes(value, width).len() == width,
        be_bytes(value, width).len() == width,
    decreases width,
{
    if width > 0 {
        lemma_uint_bytes_len(endianess, value / 256, (width - 1) as nat);
    }
}

/// The two byte orders are reverses of each other.
pub proof fn lemma_endian_reverse(value: nat, width: nat)
    ensures
        be_bytes(value, width) == le_bytes(value, width).reverse(),
        uint_bytes(Endianess::Big, value, width) == uint_bytes(
            Endianess::Little,
            value,
            width,
        ).reverse(),
    decreases width,
{
    if width == 0 {
        assert(be_bytes(value, width) =~= le_bytes(value, width).reverse());
    } else {
        let rest = (width - 1) as nat;
        lemma_endian_reverse(value / 256, rest);
        lemma_uint_bytes_len(Endianess::Little, value / 256, rest);
        assert(be_bytes(value, width) =~= le_bytes(value, width).reverse());
    }
}

/// Reading bytes in one order is reading their reverse in the other.
pub proof fn lemma_value_reverse(bytes: Seq<u8>)
    ensures
        be_value(bytes) == le_value(bytes.reverse()),
    decreases bytes.len(),
{
    if bytes.len() > 0 {
        lemma_value_reverse(bytes.drop_last());
        assert(bytes.reverse().drop_first() =~= bytes.drop_last().reverse());
    }
}

/// A number spelt by `n` bytes is below the limit of `n`.
pub proof fn lemma_value_bound(endianess: Endianess, bytes: Seq<u8>)
    ensures
        uint_value(endianess, bytes) < limit(bytes.len()),
        le_value(bytes) < limit(bytes.len()),
        be_value(bytes) < limit(bytes.len()),
    decreases bytes.len(),
{
    if bytes.len() > 0 {
        lemma_value_bound(endianess, bytes.drop_first());
        lemma_value_bound(endianess, bytes.drop_last());
    }
}

/// Writing a number that fits and reading it back gives the number.
pub proof fn lemma_value_of_bytes(endianess: Endianess, value: nat, width: nat)
    requires
        value < limit(width),
    ensures
        uint_value(endianess, uint_bytes(endianess, value, width)) == value,
    decreases width,
{
    if width > 0 {
        let rest = (width - 1) as nat;
        lemma_value_of_bytes(endianess, value / 256, rest);
        assert(le_bytes(value, width).drop_first() =~= le_bytes(value / 256, rest));
        assert(be_bytes(value, width).drop_last() =~= be_bytes(value / 256, rest));
    }
}

/// Reading bytes and writing the number back gives the bytes.
pub proof fn lemma_bytes_of_value(endianess: Endianess, bytes: Seq<u8>)
    ensures
        uint_bytes(endianess, uint_value(endianess, bytes), bytes.len()) == bytes,
    decreases bytes.len(),
{
    if bytes.len() == 0 {
        assert(uint_bytes(endianess, uint_value(endianess, bytes), bytes.len()) =~= bytes);
    } else {
        lemma_bytes_of_value(endianess, bytes.drop_first());
        lemma_bytes_of_value(endianess, bytes.drop_last());
        assert(uint_bytes(endianess, uint_value(endianess, bytes), bytes.len()) =~= bytes);
    }
}

/// A two's complement pattern read back as a signed number is the number.
pub proof fn lemma_untwos_of_twos(value: int, width: nat)
    requires
        -(limit(width) as int) <= 2 * value < limit(width),
    ensures
        twos(value, width) < limit(width),
        untwos(twos(value, width), width) == value,
{
}

} // verus!
