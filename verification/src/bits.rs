//! Facts about 2-bit fields packed in 64- and 128-bit words.
use vstd::prelude::*;

verus! {

/// The 2-bit field number `j` of a 64-bit word (field 0 is the lowest).
pub open spec fn field64(b: u64, j: int) -> u64 {
    (b >> ((2 * j) as u64)) & 3u64
}

/// The 2-bit field number `j` of a 128-bit word (field 0 is the lowest).
pub open spec fn field128(b: u128, j: int) -> u128 {
    (b >> ((2 * j) as u128)) & 3u128
}

pub proof fn lemma64_or_other(b: u64, m: u64, j: u64, k: u64)
    requires
        j < 32,
        k < 32,
        j != k,
        m < 4,
    ensures
        ((b | (m << (2 * k))) >> (2 * j)) & 3 == (b >> (2 * j)) & 3,
{
    assert(((b | (m << (2 * k))) >> (2 * j)) & 3 == (b >> (2 * j)) & 3) by (bit_vector)
        requires j < 32, k < 32, j != k, m < 4;
}

pub proof fn lemma64_or_same(b: u64, m: u64, k: u64)
    requires
        k < 32,
        m < 4,
        b >> (2 * k) == 0,
    ensures
        ((b | (m << (2 * k))) >> (2 * k)) & 3 == m,
        k < 31 ==> (b | (m << (2 * k))) >> (2 * (k + 1)) == 0,
{
    assert(((b | (m << (2 * k))) >> (2 * k)) & 3 == m) by (bit_vector)
        requires k < 32, m < 4, b >> (2 * k) == 0;
    assert(k < 31 ==> (b | (m << (2 * k))) >> (2 * (k + 1)) == 0) by (bit_vector)
        requires k < 32, m < 4, b >> (2 * k) == 0;
}

pub proof fn lemma64_fresh(m: u64)
    requires
        m < 4,
    ensures
        (m >> 0u64) & 3 == m,
        m >> 2u64 == 0,
{
    assert((m >> 0u64) & 3 == m) by (bit_vector) requires m < 4;
    assert(m >> 2u64 == 0) by (bit_vector) requires m < 4;
}

pub proof fn lemma64_set(b: u64, v: u64, j: u64, k: u64)
    requires
        j < 32,
        k < 32,
        v < 4,
    ensures
        j == k ==> (((b & !(3u64 << (2 * k))) | (v << (2 * k))) >> (2 * j)) & 3 == v,
        j != k ==> (((b & !(3u64 << (2 * k))) | (v << (2 * k))) >> (2 * j)) & 3 == (b >> (2 * j)) & 3,
        j > k ==> ((b >> (2 * j)) == 0 ==> (((b & !(3u64 << (2 * k))) | (v << (2 * k))) >> (2 * j)) == 0),
{
    assert(j == k ==> (((b & !(3u64 << (2 * k))) | (v << (2 * k))) >> (2 * j)) & 3 == v) by (bit_vector)
        requires j < 32, k < 32, v < 4;
    assert(j != k ==> (((b & !(3u64 << (2 * k))) | (v << (2 * k))) >> (2 * j)) & 3 == (b >> (2 * j)) & 3) by (bit_vector)
        requires j < 32, k < 32, v < 4;
    assert(j > k ==> ((b >> (2 * j)) == 0 ==> (((b & !(3u64 << (2 * k))) | (v << (2 * k))) >> (2 * j)) == 0)) by (bit_vector)
        requires j < 32, k < 32, v < 4;
}

pub proof fn lemma64_field_small(b: u64, k: u64)
    requires
        k < 32,
    ensures
        (b >> (2 * k)) & 3 < 4,
{
    assert((b >> (2 * k)) & 3 < 4) by (bit_vector) requires k < 32;
}

pub proof fn lemma128_or_other(b: u128, m: u128, j: u128, k: u128)
    requires
        j < 64,
        k < 64,
        j != k,
        m < 4,
    ensures
        ((b | (m << (2 * k))) >> (2 * j)) & 3 == (b >> (2 * j)) & 3,
{
    assert(((b | (m << (2 * k))) >> (2 * j)) & 3 == (b >> (2 * j)) & 3) by (bit_vector)
        requires j < 64, k < 64, j != k, m < 4;
}

pub proof fn lemma128_or_same(b: u128, m: u128, k: u128)
    requires
        k < 64,
        m < 4,
        b >> (2 * k) == 0,
    ensures
        ((b | (m << (2 * k))) >> (2 * k)) & 3 == m,
        k < 63 ==> (b | (m << (2 * k))) >> (2 * (k + 1)) == 0,
{
    assert(((b | (m << (2 * k))) >> (2 * k)) & 3 == m) by (bit_vector)
        requires k < 64, m < 4, b >> (2 * k) == 0;
    assert(k < 63 ==> (b | (m << (2 * k))) >> (2 * (k + 1)) == 0) by (bit_vector)
        requires k < 64, m < 4, b >> (2 * k) == 0;
}

pub proof fn lemma128_fresh(m: u128)
    requires
        m < 4,
    ensures
        (m >> 0u128) & 3 == m,
        m >> 2u128 == 0,
{
    assert((m >> 0u128) & 3 == m) by (bit_vector) requires m < 4;
    assert(m >> 2u128 == 0) by (bit_vector) requires m < 4;
}

/// Clearing the 2-bit field `k` keeps the fields below it.
pub proof fn lemma64_clear_field(b: u64, j: u64, k: u64)
    requires
        j < k,
        k < 32,
    ensures
        ((b & !(3u64 << (2 * k))) >> (2 * j)) & 3 == (b >> (2 * j)) & 3,
{
    assert(((b & !(3u64 << (2 * k))) >> (2 * j)) & 3 == (b >> (2 * j)) & 3) by (bit_vector)
        requires j < k, k < 32;
}

/// Clearing the 2-bit field `k` of a word with nothing above that field leaves nothing from
/// field `k` up.
pub proof fn lemma64_clear_top(b: u64, k: u64, full: bool)
    requires
        0 < k < 32,
        full ==> k == 31,
        !full ==> b >> (2 * (k + 1)) == 0,
    ensures
        (b & !(3u64 << (2 * k))) >> (2 * k) == 0,
{
    assert((b & !(3u64 << (2 * k))) >> (2 * k) == 0) by (bit_vector)
        requires 0 < k < 32, full ==> k == 31, !full ==> b >> (2 * (k + 1)) == 0;
}

} // verus!
