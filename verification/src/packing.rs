//! Fields of bits inside 64-bit words, as the `bit_field` crate reads and writes them, and the
//! packed arrays of palette indices that 1.20.1 sections store in such words.

use vstd::prelude::*;
use bit_field::BitField;

verus! {

/// Bits `start .. end` of `x`, shifted down to bit 0; 0 for an empty range. This is what
/// `BitField::get_bits` computes: shift the bits above the range out to the left, back, and
/// then the bits below the range out to the right.
pub open spec fn field_of(x: u64, start: u64, end: u64) -> u64 {
    if start == end {
        0
    } else {
        ((x << (64 - end) as u64) >> (64 - end) as u64) >> start
    }
}

/// `x` with bits `start .. end` replaced by `v`, as `BitField::set_bits` computes it: clear
/// the range with a mask, then or in `v` shifted into place; an empty range leaves `x`.
pub open spec fn set_field(x: u64, start: u64, end: u64, v: u64) -> u64 {
    if start == end {
        x
    } else {
        (x & !((((!0u64) << (64 - end) as u64) >> (64 - end) as u64) >> start << start)) | (v << start)
    }
}

/// `v` fits in a range of `end - start` bits, as `BitField::set_bits` demands.
pub open spec fn fits_field(v: u64, start: u64, end: u64) -> bool {
    (start == end && v == 0) || (v << (64 - (end - start)) as u64) >> (64 - (end - start)) as u64 == v
}

/// `BitField::get_bits` of `bit_field` on a `u64`, with the range `start .. end`. Claimed: it
/// returns `field_of(x, start, end)`, and it does not panic when `start < 64`, `end <= 64` and
/// `start <= end` (the three assertions of its source).
#[verifier::external_body]
pub(crate) fn get_bits(x: u64, start: usize, end: usize) -> (r: u64)
    requires
        start < 64,
        end <= 64,
        start <= end,
    ensures
        r == field_of(x, start as u64, end as u64),
{
    x.get_bits(start..end)
}

/// `BitField::set_bits` of `bit_field` on a `u64`, with the range `start .. end`. Claimed: it
/// leaves `set_field(x, start, end, value)` in `x`, and it does not panic when the range is
/// within the word and `value` fits in it (the four assertions of its source).
#[verifier::external_body]
pub(crate) fn set_bits(x: &mut u64, start: usize, end: usize, value: u64)
    requires
        start < 64,
        end <= 64,
        start <= end,
        fits_field(value, start as u64, end as u64),
    ensures
        *final(x) == set_field(*old(x), start as u64, end as u64, value),
{
    x.set_bits(start..end, value);
}

/// The `n` lowest bits set (`1 <= n <= 64`).
spec fn low_mask(n: u64) -> u64 {
    (!0u64) >> ((64 - n) as u64)
}

proof fn lemma_field_of_mask(y: u64, start: u64, end: u64)
    requires
        start < end <= 64,
    ensures
        field_of(y, start, end) == (y >> start) & low_mask((end - start) as u64),
{
    let k = (64 - end) as u64;
    assert((y << k) >> k == y & ((!0u64) >> k)) by (bit_vector)
        requires
            k < 64,
    ;
    assert((y & ((!0u64) >> k)) >> start == (y >> start) & (((!0u64) >> k) >> start))
        by (bit_vector);
    assert(((!0u64) >> k) >> start == (!0u64) >> (64 - (end - start) as u64) as u64)
        by (bit_vector)
        requires
            k == 64 - end,
            start < end <= 64,
    ;
}

proof fn lemma_set_field_mask(x: u64, start: u64, end: u64, v: u64)
    requires
        start < end <= 64,
    ensures
        set_field(x, start, end, v) == (x & !(low_mask((end - start) as u64) << start)) | (v
            << start),
{
    assert((((!0u64) << (64 - end) as u64) >> (64 - end) as u64) >> start << start == ((!0u64) >> (
    64 - (end - start) as u64) as u64) << start) by (bit_vector)
        requires
            start < end <= 64,
    ;
}

proof fn lemma_fits_mask(v: u64, start: u64, end: u64)
    requires
        start < end <= 64,
        fits_field(v, start, end),
    ensures
        v & low_mask((end - start) as u64) == v,
{
    let n = (end - start) as u64;
    assert((v << (64 - n) as u64) >> (64 - n) as u64 == v & ((!0u64) >> (64 - n) as u64))
        by (bit_vector)
        requires
            1 <= n <= 64,
    ;
}

/// Reading back a field just written gives the value written.
pub proof fn lemma_field_roundtrip(x: u64, start: u64, end: u64, v: u64)
    requires
        start < end <= 64,
        fits_field(v, start, end),
    ensures
        field_of(set_field(x, start, end, v), start, end) == v,
{
    let n = (end - start) as u64;
    let m = low_mask(n);
    lemma_set_field_mask(x, start, end, v);
    lemma_field_of_mask(set_field(x, start, end, v), start, end);
    lemma_fits_mask(v, start, end);
    assert(((((x & !(m << start)) | (v << start)) >> start) & m) == v) by (bit_vector)
        requires
            v & m == v,
            m == (!0u64) >> (64 - n) as u64,
            1 <= n <= 64,
            start + n <= 64,
    ;
}

/// Writing a field leaves every field that does not overlap it as it was.
pub proof fn lemma_field_frame(x: u64, start: u64, end: u64, v: u64, s2: u64, e2: u64)
    requires
        start < end <= 64,
        s2 < e2 <= 64,
        end <= s2 || e2 <= start,
        fits_field(v, start, end),
    ensures
        field_of(set_field(x, start, end, v), s2, e2) == field_of(x, s2, e2),
{
    let n = (end - start) as u64;
    let n2 = (e2 - s2) as u64;
    let m = low_mask(n);
    let m2 = low_mask(n2);
    lemma_set_field_mask(x, start, end, v);
    lemma_field_of_mask(set_field(x, start, end, v), s2, e2);
    lemma_field_of_mask(x, s2, e2);
    lemma_fits_mask(v, start, end);
    assert(((((x & !(m << start)) | (v << start)) >> s2) & m2) == (x >> s2) & m2) by (bit_vector)
        requires
            v & m == v,
            m == (!0u64) >> (64 - n) as u64,
            m2 == (!0u64) >> (64 - n2) as u64,
            1 <= n <= 64,
            1 <= n2 <= 64,
            start + n <= 64,
            s2 + n2 <= 64,
            start + n <= s2 || s2 + n2 <= start,
    ;
}

/// A value with no bit at or above `end - start` fits in the range.
pub proof fn lemma_fits_below(v: u64, start: u64, end: u64)
    requires
        start < end <= 64,
        end - start < 64 ==> v >> ((end - start) as u64) == 0,
    ensures
        fits_field(v, start, end),
{
    let n = (end - start) as u64;
    assert((v << (64 - n) as u64) >> (64 - n) as u64 == v) by (bit_vector)
        requires
            1 <= n <= 64,
            n < 64 ==> v >> n == 0,
    ;
}

/// The number of bits needed to write `n` in binary (0 for 0).
pub open spec fn bit_len(n: nat) -> nat
    decreases n,
{
    if n == 0 {
        0
    } else {
        1 + bit_len(n / 2)
    }
}

/// The width of one palette index in the packed array of a palette of `len` entries: the bit
/// length of the largest index, and at least 4.
pub open spec fn bits_for(len: int) -> int {
    let b = bit_len((len - 1) as nat) as int;
    if b < 4 {
        4
    } else {
        b
    }
}

/// Which word of the packed array holds position `pos`, with `bits` bits per index: indices
/// do not straddle words, so each word holds `64 / bits` of them.
pub open spec fn long_of(pos: int, bits: int) -> int {
    pos / (64int / bits)
}

/// The first bit, in its word, of the index at position `pos`.
pub open spec fn start_of(pos: int, bits: int) -> int {
    (pos % (64int / bits)) * bits
}

/// The palette index stored at position `pos`.
pub open spec fn entry(data: Seq<i64>, pos: int, bits: int) -> u64 {
    let s = start_of(pos, bits);
    field_of(data[long_of(pos, bits)] as u64, s as u64, (s + bits) as u64)
}

/// The packed array with `v` stored at position `pos`.
pub open spec fn with_entry(data: Seq<i64>, pos: int, bits: int, v: u64) -> Seq<i64> {
    let li = long_of(pos, bits);
    let s = start_of(pos, bits);
    data.update(li, set_field(data[li] as u64, s as u64, (s + bits) as u64, v) as i64)
}

/// The packed array extended with zero words to at least `n` words.
pub open spec fn padded(data: Seq<i64>, n: int) -> Seq<i64> {
    if n <= data.len() {
        data
    } else {
        data + Seq::new((n - data.len()) as nat, |i: int| 0i64)
    }
}

/// The index at a position lies within its word.
pub proof fn lemma_layout(pos: int, bits: int)
    requires
        pos >= 0,
        1 <= bits <= 64,
    ensures
        64int / bits >= 1,
        0 <= start_of(pos, bits),
        start_of(pos, bits) + bits <= 64,
        0 <= long_of(pos, bits) <= pos,
{
    let per = 64int / bits;
    assert(per >= 1 && per * bits <= 64) by (nonlinear_arith)
        requires
            1 <= bits <= 64,
            per == 64int / bits,
    ;
    let r = pos % per;
    assert(0 <= r < per);
    assert(r * bits + bits <= 64) by (nonlinear_arith)
        requires
            0 <= r < per,
            per * bits <= 64,
            bits >= 1,
    ;
    assert(0 <= r * bits) by (nonlinear_arith)
        requires
            0 <= r,
            bits >= 1,
    ;
    assert(0 <= pos / per <= pos) by (nonlinear_arith)
        requires
            pos >= 0,
            per >= 1,
    ;
}

/// Distinct positions either sit in distinct words or in disjoint ranges of one word.
pub proof fn lemma_layout_disjoint(p: int, q: int, bits: int)
    requires
        p >= 0,
        q >= 0,
        p != q,
        1 <= bits <= 64,
    ensures
        long_of(p, bits) != long_of(q, bits) || start_of(p, bits) + bits <= start_of(q, bits)
            || start_of(q, bits) + bits <= start_of(p, bits),
{
    let per = 64int / bits;
    lemma_layout(p, bits);
    if long_of(p, bits) == long_of(q, bits) {
        let rp = p % per;
        let rq = q % per;
        vstd::arithmetic::div_mod::lemma_fundamental_div_mod(p, per);
        vstd::arithmetic::div_mod::lemma_fundamental_div_mod(q, per);
        assert(p == per * long_of(p, bits) + rp);
        assert(q == per * long_of(q, bits) + rq);
        assert(rp != rq);
        if rp < rq {
            assert(rp * bits + bits <= rq * bits) by (nonlinear_arith)
                requires
                    rp < rq,
                    bits >= 1,
            ;
        } else {
            assert(rq * bits + bits <= rp * bits) by (nonlinear_arith)
                requires
                    rq < rp,
                    bits >= 1,
            ;
        }
    }
}

proof fn lemma_u64_i64_roundtrip(x: u64)
    ensures
        ((x as i64) as u64) == x,
{
    assert(((x as i64) as u64) == x) by (bit_vector);
}

/// Reading back the position just written gives the value written.
pub proof fn lemma_entry_roundtrip(data: Seq<i64>, pos: int, bits: int, v: u64)
    requires
        pos >= 0,
        1 <= bits <= 64,
        long_of(pos, bits) < data.len(),
        fits_field(v, start_of(pos, bits) as u64, (start_of(pos, bits) + bits) as u64),
    ensures
        with_entry(data, pos, bits, v).len() == data.len(),
        entry(with_entry(data, pos, bits, v), pos, bits) == v,
{
    lemma_layout(pos, bits);
    let li = long_of(pos, bits);
    let s = start_of(pos, bits);
    let x = set_field(data[li] as u64, s as u64, (s + bits) as u64, v);
    lemma_u64_i64_roundtrip(x);
    lemma_field_roundtrip(data[li] as u64, s as u64, (s + bits) as u64, v);
}

/// Writing one position leaves every other position as it was.
pub proof fn lemma_entry_frame(data: Seq<i64>, pos: int, bits: int, v: u64, q: int)
    requires
        pos >= 0,
        q >= 0,
        q != pos,
        1 <= bits <= 64,
        long_of(pos, bits) < data.len(),
        long_of(q, bits) < data.len(),
        fits_field(v, start_of(pos, bits) as u64, (start_of(pos, bits) + bits) as u64),
    ensures
        entry(with_entry(data, pos, bits, v), q, bits) == entry(data, q, bits),
{
    lemma_layout(pos, bits);
    lemma_layout(q, bits);
    lemma_layout_disjoint(pos, q, bits);
    let li = long_of(pos, bits);
    let s = start_of(pos, bits);
    let x = set_field(data[li] as u64, s as u64, (s + bits) as u64, v);
    lemma_u64_i64_roundtrip(x);
    if long_of(q, bits) == li {
        let sq = start_of(q, bits);
        lemma_field_frame(data[li] as u64, s as u64, (s + bits) as u64, v, sq as u64, (sq + bits) as u64);
    }
}

/// The bit length is what `u64::leading_zeros` leaves of 64 bits.
pub proof fn lemma_bit_len_leading_zeros(n: u64)
    ensures
        64 - vstd::std_specs::bits::u64_leading_zeros(n) == bit_len(n as nat),
        bit_len(n as nat) <= 64,
    decreases n,
{
    reveal(vstd::std_specs::bits::u64_leading_zeros);
    if n != 0 {
        lemma_bit_len_leading_zeros(n / 2);
    }
}

/// A number has no bit at or above its bit length.
pub proof fn lemma_bit_len_bound(n: u64)
    ensures
        bit_len(n as nat) < 64 ==> n >> (bit_len(n as nat) as u64) == 0,
    decreases n,
{
    if n != 0 {
        let m = n / 2;
        lemma_bit_len_bound(m);
        lemma_bit_len_leading_zeros(n);
        if bit_len(n as nat) < 64 {
            assert(bit_len(n as nat) == 1 + bit_len(m as nat));
            let k = bit_len(m as nat) as u64;
            assert(m >> k == 0);
            assert(n >> ((k + 1) as u64) == 0) by (bit_vector)
                requires
                    m == n / 2,
                    m >> k == 0,
                    k + 1 < 64,
            ;
            assert((bit_len(n as nat) as u64) == (k + 1) as u64);
        }
    } else {
        assert(0u64 >> 0u64 == 0) by (bit_vector);
    }
}

/// An index below `len` fits in the width `bits_for(len)`.
pub proof fn lemma_index_fits(v: u64, len: u64, start: u64)
    requires
        v < len,
        start + bits_for(len as int) <= 64,
    ensures
        fits_field(v, start, (start + bits_for(len as int)) as u64),
{
    let n = (len - 1) as u64;
    lemma_bit_len_bound(n);
    lemma_bit_len_leading_zeros(n);
    let b = bits_for(len as int) as u64;
    let k = bit_len(n as nat) as u64;
    assert(k <= b);
    if b < 64 {
        assert(v >> b == 0) by (bit_vector)
            requires
                v <= n,
                k <= b,
                b < 64,
                k < 64,
                n >> k == 0,
        ;
    }
    lemma_fits_below(v, start, (start + b) as u64);
}

} // verus!
