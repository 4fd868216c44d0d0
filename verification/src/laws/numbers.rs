//! Numbers: how they stand in bytes, and how they compare.

use crate::binary64::{law_value_follows_rank, Binary64};
use crate::bytes::{
    i32_at, i32_bytes, law_i32_reads_back, law_u16_reads_back, law_u32_reads_back,
    law_u64_reads_back, lemma_number_sizes, stands_at, u16_at, u16_bytes, u32_at, u32_bytes, u64_at,
    u64_bytes,
};
use crate::gps_time::GpsTime;
use core::cmp::Ordering;
use vstd::prelude::*;

verus! {

/// The bit of a number that is its sign.
pub const TOP_BIT: u64 = 0x8000_0000_0000_0000;

/// Numbers stand in bytes with the lowest byte first; an `i32` in two's complement.
pub proof fn law_numbers_are_little_endian(data: Seq<u8>, at: int)
    requires
        0 <= at,
        at + 8 <= data.len(),
    ensures
        u16_at(data, at) == data[at] + 0x100 * data[at + 1],
        u32_at(data, at) == data[at] + 0x100 * data[at + 1] + 0x1_0000 * data[at + 2] + 0x100_0000
            * data[at + 3],
        i32_at(data, at) as int == u32_at(data, at) || i32_at(data, at) == u32_at(data, at)
            - 0x1_0000_0000,
        u64_at(data, at) == data[at] + 0x100 * data[at + 1] + 0x1_0000 * data[at + 2] + 0x100_0000
            * data[at + 3] + 0x1_0000_0000 * data[at + 4] + 0x100_0000_0000 * data[at + 5]
            + 0x1_0000_0000_0000 * data[at + 6] + 0x100_0000_0000_0000 * data[at + 7],
{
}

/// Bytes stand at an offset of a buffer if and only if each of them is there in its place.
pub proof fn law_bytes_stand_byte_by_byte(data: Seq<u8>, at: int, part: Seq<u8>)
    ensures
        stands_at(data, at, part) <==> {
            &&& 0 <= at
            &&& at + part.len() <= data.len()
            &&& forall|i: int| 0 <= i < part.len() ==> #[trigger] part[i] == data[at + i]
        },
{
    if 0 <= at && at + part.len() <= data.len() {
        let there = data.subrange(at, at + part.len());
        if stands_at(data, at, part) {
            assert forall|i: int| 0 <= i < part.len() implies #[trigger] part[i] == data[at
                + i] by {
                assert(there[i] == data[at + i]);
            }
        }
        if forall|i: int| 0 <= i < part.len() ==> #[trigger] part[i] == data[at + i] {
            assert(there =~= part);
        }
    }
}

/// The bytes of numbers are two, four or eight, and the numbers are read back from them.
pub proof fn law_bytes_are_read_back(a: u16, b: u32, c: i32, d: u64)
    ensures
        u16_bytes(a).len() == 2,
        u32_bytes(b).len() == 4,
        i32_bytes(c).len() == 4,
        u64_bytes(d).len() == 8,
        u16_at(u16_bytes(a), 0) == a,
        u32_at(u32_bytes(b), 0) == b,
        i32_at(i32_bytes(c), 0) == c,
        u64_at(u64_bytes(d), 0) == d,
{
    lemma_number_sizes();
    assert(u16_bytes(a).subrange(0, 2) =~= u16_bytes(a));
    assert(u32_bytes(b).subrange(0, 4) =~= u32_bytes(b));
    assert(i32_bytes(c).subrange(0, 4) =~= i32_bytes(c));
    assert(u64_bytes(d).subrange(0, 8) =~= u64_bytes(d));
    law_u16_reads_back(u16_bytes(a), 0, a);
    law_u32_reads_back(u32_bytes(b), 0, b);
    law_i32_reads_back(i32_bytes(c), 0, c);
    law_u64_reads_back(u64_bytes(d), 0, d);
}

/// A number is no number if and only if its exponent is all ones and its fraction is not zero.
pub proof fn law_nan_by_bits(a: Binary64, r: bool)
    requires
        call_ensures(Binary64::is_nan, (&a,), r),
    ensures
        r <==> (a.bits & 0x7ff0_0000_0000_0000 == 0x7ff0_0000_0000_0000 && a.bits
            & 0x000f_ffff_ffff_ffff != 0),
        r == a.nan(),
{
    let bits = a.bits;
    assert((bits & 0x7ff0_0000_0000_0000 == 0x7ff0_0000_0000_0000 && bits & 0x000f_ffff_ffff_ffff
        != 0) <==> if bits >= 0x8000_0000_0000_0000 {
        bits - 0x8000_0000_0000_0000 > 0x7ff0_0000_0000_0000
    } else {
        bits > 0x7ff0_0000_0000_0000
    }) by (bit_vector);
}

/// `<=` and `<` of numbers go by their bits: of two with the same sign by the bits without it, the
/// other way round below zero; one with the sign bit is not greater than one without; the two zeros
/// are equal. What is no number compares to nothing.
pub proof fn law_order_by_bits(a: Binary64, b: Binary64, le: bool, lt: bool)
    requires
        call_ensures(Binary64::le, (&a, &b), le),
        call_ensures(Binary64::lt, (&a, &b), lt),
    ensures
        a.nan() || b.nan() ==> !le && !lt,
        !a.nan() && !b.nan() && a.bits < TOP_BIT && b.bits < TOP_BIT ==> le == (a.bits <= b.bits) && lt
            == (a.bits < b.bits),
        !a.nan() && !b.nan() && a.bits >= TOP_BIT && b.bits >= TOP_BIT ==> le == (a.bits >= b.bits)
            && lt == (a.bits > b.bits),
        !a.nan() && !b.nan() && a.bits >= TOP_BIT && b.bits < TOP_BIT ==> le && lt == (a.bits != TOP_BIT
            || b.bits != 0),
        !a.nan() && !b.nan() && a.bits < TOP_BIT && b.bits >= TOP_BIT ==> !lt && le == (a.bits == 0
            && b.bits == TOP_BIT),
        le == a.at_most(b),
        lt == a.below(b),
{
    law_value_follows_rank(a, b);
    law_value_follows_rank(b, a);
}

/// The order of numbers: of two of them the one or the other is not greater, both only if they are
/// equal in value; what is not greater than a third by way of a second is not; and `<` is `<=` that
/// does not hold the other way round.
pub proof fn law_order_is_total(a: Binary64, b: Binary64, c: Binary64)
    requires
        !a.nan(),
        !b.nan(),
        !c.nan(),
    ensures
        a.at_most(a),
        a.at_most(b) || b.at_most(a),
        a.at_most(b) && b.at_most(c) ==> a.at_most(c),
        a.below(b) <==> a.at_most(b) && !b.at_most(a),
        a.at_most(b) && b.at_most(a) ==> a.bits == b.bits || (a.bits % TOP_BIT == 0 && b.bits % TOP_BIT
            == 0),
{
    law_value_follows_rank(a, b);
    law_value_follows_rank(b, a);
}

/// The values of numbers grow evenly from one to the next: by one unit each among those with the
/// smallest exponents, by twice as many units with each greater exponent. Zero is worth nothing,
/// and the sign bit turns a value round.
pub proof fn law_values_grow_evenly(a: Binary64)
    requires
        a.bits < 0x7ff0_0000_0000_0000,
    ensures
        (Binary64 { bits: 0 }).value() == 0,
        (Binary64 { bits: (a.bits + 1) as u64 }).value() - a.value() == if a.bits
            < 0x20_0000_0000_0000 {
            1
        } else {
            vstd::arithmetic::power2::pow2((a.bits / 0x10_0000_0000_0000 - 1) as nat)
        },
        (Binary64 { bits: (a.bits + TOP_BIT) as u64 }).value() == -a.value(),
{
    let k: int = 0x10_0000_0000_0000;
    let m = a.bits as int;
    let (e, f) = (m / k, m % k);
    let (g, h) = ((m + 1) / k, (m + 1) % k);
    vstd::arithmetic::power2::lemma2_to64();
    assert(crate::binary64::magnitude_value(0) == 0);
    if h == 0 {
        assert(g == e + 1 && f == k - 1);
        if e >= 1 {
            let p = vstd::arithmetic::power2::pow2((e - 1) as nat);
            vstd::arithmetic::power2::lemma_pow2_adds(1, (e - 1) as nat);
            assert((k + 0) * (2 * p) - (k + f) * p == p) by (nonlinear_arith)
                requires
                    f == k - 1,
            ;
        }
    } else {
        assert(g == e && h == f + 1);
        if e >= 1 {
            let p = vstd::arithmetic::power2::pow2((e - 1) as nat);
            assert((k + h) * p - (k + f) * p == p) by (nonlinear_arith)
                requires
                    h == f + 1,
            ;
        }
    }
}

/// A time is within a window if and only if the window does not begin after it nor end before it.
pub proof fn law_window_has_both_ends(t: GpsTime, start: GpsTime, end: GpsTime, r: bool)
    requires
        call_ensures(GpsTime::is_within, (&t, start, end), r),
    ensures
        r <==> start.0.at_most(t.0) && t.0.at_most(end.0),
{
}

/// Times compare as the numbers they are.
pub proof fn law_times_compare_as_numbers(a: GpsTime, b: GpsTime, r: Option<Ordering>, eq: bool)
    requires
        call_ensures(GpsTime::partial_cmp, (&a, &b), r),
        call_ensures(GpsTime::eq, (&a, &b), eq),
    ensures
        r matches Some(Ordering::Less) <==> a.0.below(b.0),
        r matches Some(Ordering::Greater) <==> b.0.below(a.0),
        r is None <==> a.0.nan() || b.0.nan(),
        eq <==> a.0.at_most(b.0) && b.0.at_most(a.0),
{
}

/// Numbers are made of their bits, and are equal where neither is greater than the other. They are
/// the same where they have the same bits, or both are no numbers.
pub proof fn law_numbers_are_their_bits(
    bits: u64,
    a: Binary64,
    t: GpsTime,
    b: Binary64,
    eq: bool,
)
    requires
        call_ensures(Binary64::from_bits, (bits,), a),
        call_ensures(GpsTime::from_bits, (bits,), t),
        call_ensures(Binary64::eq, (&a, &b), eq),
    ensures
        a.bits == bits,
        t.0.bits == bits,
        eq <==> a.at_most(b) && b.at_most(a),
        a.same(b) <==> a.bits == b.bits || (a.nan() && b.nan()),
{
}

} // verus!
