//! Facts about single bits of a 32-bit mask, proved by bit-blasting once and
//! used by name everywhere else.

use vstd::prelude::*;

verus! {

/// Whether bit `s` of `bits` is set.
pub open spec fn bit_at(bits: u32, s: u32) -> bool {
    (bits >> s) & 1 == 1
}

/// The mask with only bit `s` set.
pub open spec fn single_bit(s: u32) -> u32 {
    1u32 << s
}

pub proof fn lemma_zero_has_no_bit(s: u32)
    by (bit_vector)
    requires
        s < 32,
    ensures
        !bit_at(0, s),
{
}

/// Setting bit `b` adds exactly that bit.
pub proof fn lemma_or_single_bit(bits: u32, b: u32, s: u32)
    by (bit_vector)
    requires
        b < 32,
        s < 32,
    ensures
        bit_at(bits | single_bit(b), s) == (bit_at(bits, s) || s == b),
{
}

pub proof fn lemma_or_bit(a: u32, b: u32, s: u32)
    by (bit_vector)
    requires
        s < 32,
    ensures
        bit_at(a | b, s) == (bit_at(a, s) || bit_at(b, s)),
{
}

pub proof fn lemma_and_bit(a: u32, b: u32, s: u32)
    by (bit_vector)
    requires
        s < 32,
    ensures
        bit_at(a & b, s) == (bit_at(a, s) && bit_at(b, s)),
{
}

/// A mask with a bit set is not zero.
pub proof fn lemma_bit_set_nonzero(a: u32, s: u32)
    by (bit_vector)
    requires
        s < 32,
        bit_at(a, s),
    ensures
        a != 0,
{
}

pub proof fn lemma_and_commutes(a: u32, b: u32)
    by (bit_vector)
    ensures
        a & b == b & a,
{
}

pub proof fn lemma_and_self(a: u32)
    by (bit_vector)
    ensures
        a & a == a,
{
}

/// What shares no bit with a union shares none with its parts.
pub proof fn lemma_disjoint_from_or(d: u32, a: u32, b: u32)
    by (bit_vector)
    requires
        d & (a | b) == 0,
    ensures
        d & a == 0,
        d & b == 0,
        a & d == 0,
        b & d == 0,
{
}

/// What shares no bit with either of two masks shares none with their union.
pub proof fn lemma_disjoint_or(d: u32, a: u32, b: u32)
    by (bit_vector)
    requires
        d & a == 0,
        d & b == 0,
    ensures
        d & (a | b) == 0,
{
}

pub proof fn lemma_and_zero(d: u32)
    by (bit_vector)
    ensures
        d & 0 == 0,
{
}

/// A mask that is not zero has a bit set; the lowest one is a witness.
pub proof fn lemma_nonzero_has_bit(a: u32) -> (s: u32)
    requires
        a != 0,
    ensures
        s < 32,
        bit_at(a, s),
{
    vstd::std_specs::bits::axiom_u32_trailing_zeros(a);
    vstd::std_specs::bits::u32_trailing_zeros(a)
}

/// Whether bit `s` of a 64-bit mask is set.
pub open spec fn bit64_at(bits: u64, s: u64) -> bool {
    (bits >> s) & 1 == 1
}

pub proof fn lemma64_zero_has_no_bit(s: u64)
    by (bit_vector)
    requires
        s < 64,
    ensures
        !bit64_at(0, s),
{
}

pub proof fn lemma64_or_single_bit(bits: u64, b: u64, s: u64)
    by (bit_vector)
    requires
        b < 64,
        s < 64,
    ensures
        bit64_at(bits | (1u64 << b), s) == (bit64_at(bits, s) || s == b),
{
}

pub proof fn lemma64_and_single_bit(bits: u64, b: u64)
    by (bit_vector)
    requires
        b < 64,
    ensures
        ((1u64 << b) & bits != 0) == bit64_at(bits, b),
{
}

} // verus!
