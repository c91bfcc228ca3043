//! Variable-width bit packing of cell values into 64-bit words.
//!
//! Cell `i` of width `bits` occupies the bits `i * bits .. i * bits + bits`
//! of the word array, least significant bit first; bit `k` of the array is
//! bit `k % 64` of word `k / 64`. A field may straddle two words.
use vstd::arithmetic::power2::*;
use vstd::prelude::*;

verus! {

/// Bit `k` of the packed array (0 or 1).
pub open spec fn word_bit(words: Seq<u64>, k: nat) -> u64 {
    (words[(k / 64) as int] >> ((k % 64) as u64)) & 1u64
}

/// The number formed by `len` bits of the array from bit `start` on,
/// least significant first.
pub open spec fn bits_value(words: Seq<u64>, start: nat, len: nat) -> nat
    decreases len,
{
    if len == 0 {
        0
    } else {
        word_bit(words, start) as nat + 2 * bits_value(words, start + 1, (len - 1) as nat)
    }
}

/// The value of cell `index` in an array packed at `bits` bits per cell.
pub open spec fn cell_value(words: Seq<u64>, index: nat, bits: nat) -> nat {
    bits_value(words, index * bits, bits)
}

/// The mask of the `bits` lowest bits.
pub open spec fn low_mask(bits: u64) -> u64 {
    0xffff_ffff_ffff_ffffu64 >> ((64 - bits) as u64)
}

proof fn lemma_split_low_bit(r: u64, n: u64)
    by (bit_vector)
    requires
        1 <= n <= 63,
        r >> n == 0,
    ensures
        r == (r & 1) + 2 * (r >> 1),
        (r >> 1) >> ((n - 1) as u64) == 0,
        (r >> 0) & 1 == r & 1,
{
}

proof fn lemma_shift_compose(r: u64, j: u64)
    by (bit_vector)
    requires
        j < 63,
    ensures
        (r >> 1) >> j == r >> ((j + 1) as u64),
{
}

proof fn lemma_zero_shift(r: u64)
    by (bit_vector)
    requires
        r >> 0 == 0,
    ensures
        r == 0,
{
}

/// A run of bits that spells out `r` has the value `r`.
proof fn lemma_bits_value_from_bits(words: Seq<u64>, start: nat, n: nat, r: u64)
    requires
        n <= 63,
        r >> (n as u64) == 0,
        forall|j: nat| j < n ==> #[trigger] word_bit(words, start + j) == (r >> (j as u64)) & 1,
    ensures
        bits_value(words, start, n) == r,
    decreases n,
{
    if n == 0 {
        lemma_zero_shift(r);
    } else {
        lemma_split_low_bit(r, n as u64);
        let r1 = r >> 1;
        assert forall|j: nat| j < (n - 1) as nat implies #[trigger] word_bit(words, (start + 1) + j)
            == (r1 >> (j as u64)) & 1 by {
            lemma_shift_compose(r, j as u64);
            assert(word_bit(words, start + (j + 1) as nat) == (r >> ((j + 1) as u64)) & 1);
            assert((start + 1) + j == start + (j + 1) as nat);
        }
        lemma_bits_value_from_bits(words, start + 1, (n - 1) as nat, r1);
        assert(word_bit(words, start + 0) == (r >> 0u64) & 1);
        assert(start + 0 == start);
    }
}

/// Runs of bits that agree bit by bit have the same value.
proof fn lemma_bits_value_frame(a: Seq<u64>, b: Seq<u64>, start: nat, n: nat)
    requires
        forall|k: nat| start <= k < start + n ==> #[trigger] word_bit(a, k) == word_bit(b, k),
    ensures
        bits_value(a, start, n) == bits_value(b, start, n),
    decreases n,
{
    if n > 0 {
        lemma_bits_value_frame(a, b, start + 1, (n - 1) as nat);
    }
}


proof fn lemma_read_within(w: u64, sh: u64, b: u64, j: u64)
    by (bit_vector)
    requires
        2 <= b <= 32,
        sh + b <= 64,
        j < b,
    ensures
        (((w >> sh) & (0xffff_ffff_ffff_ffffu64 >> ((64 - b) as u64))) >> j) & 1 == (w >> ((sh
            + j) as u64)) & 1,
        ((w >> sh) & (0xffff_ffff_ffff_ffffu64 >> ((64 - b) as u64))) >> b == 0,
{
}

proof fn lemma_read_across(lo: u64, hi: u64, sh: u64, b: u64, j: u64)
    by (bit_vector)
    requires
        2 <= b <= 32,
        sh < 64,
        sh + b > 64,
        j < b,
    ensures
        ((((lo >> sh) | (hi << ((64 - sh) as u64))) & (0xffff_ffff_ffff_ffffu64 >> ((64
            - b) as u64))) >> j) & 1 == if sh + j < 64 {
            (lo >> ((sh + j) as u64)) & 1
        } else {
            (hi >> ((sh + j - 64) as u64)) & 1
        },
        (((lo >> sh) | (hi << ((64 - sh) as u64))) & (0xffff_ffff_ffff_ffffu64 >> ((64
            - b) as u64))) >> b == 0,
{
}

/// The field of cell `index` ends where that of cell `index + 1` starts.
pub proof fn lemma_field_end(index: nat, bits: nat)
    ensures
        index * bits + bits == (index + 1) * bits,
{
    assert(index * bits + bits == (index + 1) * bits) by (nonlinear_arith);
}

/// Bit `64 * q + t` of the array is bit `t` of word `q`.
proof fn lemma_word_bit_at(words: Seq<u64>, k: nat, q: nat, t: nat)
    requires
        k == 64 * q + t,
        t < 64,
    ensures
        word_bit(words, k) == (words[q as int] >> (t as u64)) & 1,
{
    assert(k / 64 == q && k % 64 == t);
}

proof fn lemma_read_one_word(words: Seq<u64>, start: nat, bits: u64, q: nat, sh: u64, r: u64)
    requires
        2 <= bits <= 32,
        start == 64 * q + sh,
        sh + bits <= 64,
        q < words.len(),
        r == (words[q as int] >> sh) & low_mask(bits),
    ensures
        bits_value(words, start, bits as nat) == r,
        r >> bits == 0,
{
    let w = words[q as int];
    assert forall|j: nat| j < bits implies #[trigger] word_bit(words, start + j) == (r >> (
    j as u64)) & 1 by {
        lemma_read_within(w, sh, bits, j as u64);
        lemma_word_bit_at(words, start + j, q, (sh + j) as nat);
    }
    lemma_read_within(w, sh, bits, 0);
    lemma_bits_value_from_bits(words, start, bits as nat, r);
}

proof fn lemma_read_two_words(
    words: Seq<u64>,
    start: nat,
    bits: u64,
    q: nat,
    sh: u64,
    r: u64,
)
    requires
        2 <= bits <= 32,
        start == 64 * q + sh,
        sh < 64,
        sh + bits > 64,
        q + 1 < words.len(),
        r == ((words[q as int] >> sh) | (words[q + 1int] << ((64 - sh) as u64))) & low_mask(bits),
    ensures
        bits_value(words, start, bits as nat) == r,
        r >> bits == 0,
{
    let lo = words[q as int];
    let hi = words[q + 1int];
    assert forall|j: nat| j < bits implies #[trigger] word_bit(words, start + j) == (r >> (
    j as u64)) & 1 by {
        lemma_read_across(lo, hi, sh, bits, j as u64);
        if sh + j < 64 {
            lemma_word_bit_at(words, start + j, q, (sh + j) as nat);
        } else {
            lemma_word_bit_at(words, start + j, q + 1, (sh + j - 64) as nat);
        }
    }
    lemma_read_across(lo, hi, sh, bits, 0);
    lemma_bits_value_from_bits(words, start, bits as nat, r);
}

/// Reads the value of cell `index` from words packed at `bits` bits per cell.
pub fn read_cell(words: &Vec<u64>, index: u64, bits: u64) -> (r: u64)
    requires
        2 <= bits <= 32,
        (index + 1) * bits <= 64 * words@.len(),
        (index + 1) * bits <= u64::MAX,
    ensures
        r as nat == cell_value(words@, index as nat, bits as nat),
        r >> bits == 0,
{
    let mask: u64 = u64::MAX >> (64 - bits);
    proof {
        lemma_field_end(index as nat, bits as nat);
    }
    let bit_pos: u64 = index * bits;
    let word_lo: u64 = bit_pos / 64;
    let word_hi: u64 = (bit_pos + bits - 1) / 64;
    let shift: u64 = bit_pos % 64;
    assert(mask == low_mask(bits));
    assert(word_hi < words@.len());
    assert(word_lo <= word_hi <= word_lo + 1);
    let n_words = words.len();
    assert(word_lo as usize == word_lo && word_hi as usize == word_hi);
    if word_lo == word_hi {
        let r = (words[word_lo as usize] >> shift) & mask;
        proof {
            lemma_read_one_word(words@, bit_pos as nat, bits, word_lo as nat, shift, r);
        }
        r
    } else {
        let r = ((words[word_lo as usize] >> shift) | (words[word_hi as usize] << (64 - shift)))
            & mask;
        proof {
            lemma_read_two_words(words@, bit_pos as nat, bits, word_lo as nat, shift, r);
        }
        r
    }
}


proof fn lemma_write_low(w: u64, v: u64, sh: u64, b: u64, t: u64)
    by (bit_vector)
    requires
        2 <= b <= 32,
        sh < 64,
        t < 64,
    ensures
        (((w & !((0xffff_ffff_ffff_ffffu64 >> ((64 - b) as u64)) << sh)) | ((v & (
        0xffff_ffff_ffff_ffffu64 >> ((64 - b) as u64))) << sh)) >> t) & 1 == if sh <= t && t
            < sh + b {
            (v >> ((t - sh) as u64)) & 1
        } else {
            (w >> t) & 1
        },
{
}

proof fn lemma_write_high(w: u64, v: u64, sh: u64, b: u64, t: u64)
    by (bit_vector)
    requires
        2 <= b <= 32,
        sh < 64,
        sh + b > 64,
        t < 64,
    ensures
        (((w & !(0xffff_ffff_ffff_ffffu64 >> ((64 - (sh + b - 64)) as u64))) | ((v & (
        0xffff_ffff_ffff_ffffu64 >> ((64 - b) as u64))) >> ((64 - sh) as u64))) >> t) & 1
            == if t < sh + b - 64 {
            (v >> ((64 - sh + t) as u64)) & 1
        } else {
            (w >> t) & 1
        },
{
}

/// The bits of the array after cell `start / bits` was set to `value`:
/// the field holds the low bits of `value`, every other bit is kept.
pub open spec fn field_written(
    before: Seq<u64>,
    after: Seq<u64>,
    start: nat,
    bits: nat,
    value: u64,
) -> bool {
    &&& after.len() == before.len()
    &&& forall|k: nat|
        k < 64 * before.len() ==> #[trigger] word_bit(after, k) == if start <= k < start + bits {
            (value >> ((k - start) as u64)) & 1
        } else {
            word_bit(before, k)
        }
}

proof fn lemma_write_one_word(
    before: Seq<u64>,
    after: Seq<u64>,
    start: nat,
    bits: u64,
    q: nat,
    sh: u64,
    value: u64,
)
    requires
        2 <= bits <= 32,
        start == 64 * q + sh,
        sh + bits <= 64,
        q < before.len(),
        after == before.update(
            q as int,
            (before[q as int] & !(low_mask(bits) << sh)) | ((value & low_mask(bits)) << sh),
        ),
    ensures
        field_written(before, after, start, bits as nat, value),
{
    assert forall|k: nat| k < 64 * before.len() implies #[trigger] word_bit(after, k) == if start
        <= k < start + bits {
        (value >> ((k - start) as u64)) & 1
    } else {
        word_bit(before, k)
    } by {
        let kq = k / 64;
        let t = k % 64;
        lemma_word_bit_at(after, k, kq, t);
        lemma_word_bit_at(before, k, kq, t);
        if kq == q {
            lemma_write_low(before[q as int], value, sh, bits, t as u64);
        }
    }
}

proof fn lemma_write_two_words(
    before: Seq<u64>,
    after: Seq<u64>,
    start: nat,
    bits: u64,
    q: nat,
    sh: u64,
    value: u64,
)
    requires
        2 <= bits <= 32,
        start == 64 * q + sh,
        sh < 64,
        sh + bits > 64,
        q + 1 < before.len(),
        after == before.update(
            q as int,
            (before[q as int] & !(low_mask(bits) << sh)) | ((value & low_mask(bits)) << sh),
        ).update(
            q + 1int,
            (before[q + 1int] & !low_mask((sh + bits - 64) as u64)) | ((value & low_mask(bits)) >> (
            (64 - sh) as u64)),
        ),
    ensures
        field_written(before, after, start, bits as nat, value),
{
    assert forall|k: nat| k < 64 * before.len() implies #[trigger] word_bit(after, k) == if start
        <= k < start + bits {
        (value >> ((k - start) as u64)) & 1
    } else {
        word_bit(before, k)
    } by {
        let kq = k / 64;
        let t = k % 64;
        lemma_word_bit_at(after, k, kq, t);
        lemma_word_bit_at(before, k, kq, t);
        if kq == q {
            lemma_write_low(before[q as int], value, sh, bits, t as u64);
        } else if kq == q + 1 {
            lemma_write_high(before[q + 1int], value, sh, bits, t as u64);
        }
    }
}

/// Sets cell `index` of words packed at `bits` bits per cell to the low
/// `bits` bits of `value`, keeping every other bit, also in a word that the
/// field shares with its neighbours.
pub fn write_cell(words: &mut Vec<u64>, index: u64, value: u64, bits: u64)
    requires
        2 <= bits <= 32,
        (index + 1) * bits <= 64 * old(words)@.len(),
        (index + 1) * bits <= u64::MAX,
    ensures
        field_written(old(words)@, final(words)@, (index * bits) as nat, bits as nat, value),
{
    let mask: u64 = u64::MAX >> (64 - bits);
    proof {
        lemma_field_end(index as nat, bits as nat);
    }
    let bit_pos: u64 = index * bits;
    let word_lo: u64 = bit_pos / 64;
    let word_hi: u64 = (bit_pos + bits - 1) / 64;
    let shift: u64 = bit_pos % 64;
    let n_words = words.len();
    assert(mask == low_mask(bits));
    assert(word_hi < words@.len());
    assert(word_lo <= word_hi <= word_lo + 1);
    assert(word_lo as usize == word_lo && word_hi as usize == word_hi);
    let ghost before = words@;
    let low = (words[word_lo as usize] & !(mask << shift)) | ((value & mask) << shift);
    words.set(word_lo as usize, low);
    if word_lo == word_hi {
        proof {
            lemma_write_one_word(before, words@, bit_pos as nat, bits, word_lo as nat, shift, value);
        }
    } else {
        let carry: u64 = 64 - shift;
        let remaining: u64 = bits - carry;
        let high_mask: u64 = u64::MAX >> (64 - remaining);
        assert(high_mask == low_mask((shift + bits - 64) as u64));
        let high = (words[word_hi as usize] & !high_mask) | ((value & mask) >> carry);
        words.set(word_hi as usize, high);
        proof {
            lemma_write_two_words(before, words@, bit_pos as nat, bits, word_lo as nat, shift, value);
        }
    }
}


/// After a write, the written cell holds the value.
pub proof fn lemma_written_cell(
    before: Seq<u64>,
    after: Seq<u64>,
    index: nat,
    bits: nat,
    value: u64,
)
    requires
        2 <= bits <= 32,
        (index + 1) * bits <= 64 * before.len(),
        value >> (bits as u64) == 0,
        field_written(before, after, index * bits, bits, value),
    ensures
        cell_value(after, index, bits) == value,
{
    lemma_field_end(index, bits);
    let start = index * bits;
    assert forall|j: nat| j < bits implies #[trigger] word_bit(after, start + j) == (value >> (
    j as u64)) & 1 by {
        assert(word_bit(after, start + j) == if start <= start + j < start + bits {
            (value >> ((start + j - start) as u64)) & 1
        } else {
            word_bit(before, start + j)
        });
    }
    lemma_bits_value_from_bits(after, start, bits, value);
}

/// After a write, every other cell keeps its value.
pub proof fn lemma_other_cell(
    before: Seq<u64>,
    after: Seq<u64>,
    index: nat,
    other: nat,
    bits: nat,
    value: u64,
)
    requires
        index != other,
        (other + 1) * bits <= 64 * before.len(),
        field_written(before, after, index * bits, bits, value),
    ensures
        cell_value(after, other, bits) == cell_value(before, other, bits),
{
    lemma_field_end(index, bits);
    lemma_field_end(other, bits);
    if other < index {
        assert(other * bits + bits <= index * bits) by (nonlinear_arith)
            requires
                other < index,
        ;
    } else {
        assert(index * bits + bits <= other * bits) by (nonlinear_arith)
            requires
                other > index,
        ;
    }
    let start = other * bits;
    assert forall|k: nat| start <= k < start + bits implies #[trigger] word_bit(after, k)
        == word_bit(before, k) by {
        assert(k < 64 * before.len());
    }
    lemma_bits_value_frame(after, before, start, bits);
}

/// The number of bits per cell for a palette of `len` entries: the least
/// `b >= 2` with `len <= 2^b`.
pub open spec fn required_bits(len: nat) -> nat
    decreases len,
{
    if len <= 4 {
        2
    } else {
        1 + required_bits(((len + 1) / 2) as nat)
    }
}

/// `required_bits(len)` is the least `b >= 2` with `len <= 2^b`.
pub proof fn lemma_required_bits_spec(len: nat)
    ensures
        required_bits(len) >= 2,
        len <= pow2(required_bits(len)),
        len > 4 ==> pow2((required_bits(len) - 1) as nat) < len,
    decreases len,
{
    if len <= 4 {
        lemma2_to64();
    } else {
        let h = ((len + 1) / 2) as nat;
        lemma_required_bits_spec(h);
        lemma_pow2_unfold(required_bits(len));
        if h <= 4 {
            lemma2_to64();
        } else {
            lemma_pow2_unfold(required_bits(h));
        }
    }
}

/// A palette that fits in `2^k` entries, `k >= 2`, needs at most `k` bits.
pub proof fn lemma_required_bits_bound(len: nat, k: nat)
    requires
        k >= 2,
        len <= pow2(k),
    ensures
        required_bits(len) <= k,
    decreases len,
{
    if len > 4 {
        lemma2_to64();
        if k == 2 {
            assert(false);
        }
        lemma_pow2_unfold(k);
        lemma_required_bits_bound(((len + 1) / 2) as nat, (k - 1) as nat);
    }
}

/// A palette that grows by one entry needs the same number of bits or more.
pub proof fn lemma_required_bits_monotone(len: nat)
    ensures
        required_bits(len) <= required_bits(len + 1),
{
    lemma_required_bits_spec(len + 1);
    lemma_required_bits_bound(len, required_bits(len + 1));
}

/// Adding one entry to a palette of `len` entries widens the cells by one
/// bit exactly where `len` is a power of two and at least 4, so the width
/// stays 2 through 4 entries and grows on the 5th, the 9th, the 17th, ...
pub proof fn lemma_required_bits_growth(len: nat)
    requires
        len >= 1,
    ensures
        required_bits(len + 1) == if len >= 4 && len == pow2(required_bits(len)) {
            required_bits(len) + 1
        } else {
            required_bits(len)
        },
    decreases len,
{
    lemma2_to64();
    if len == 4 {
        assert(required_bits(5) == 1 + required_bits(3));
    } else if len > 4 {
        let h = ((len + 1) / 2) as nat;
        lemma_required_bits_spec(h);
        lemma_pow2_unfold(required_bits(len));
        if len % 2 == 1 {
            assert((len + 2) / 2 == h);
        } else {
            assert((len + 2) / 2 == h + 1);
            lemma_required_bits_growth(h);
            lemma_pow2_unfold(required_bits(h));
        }
    }
}

/// A value below `2^bits` has no bits at or above `bits`.
pub proof fn lemma_fits_bits(v: u64, bits: u64)
    requires
        bits < 64,
        v < pow2(bits as nat),
    ensures
        v >> bits == 0,
{
    vstd::bits::lemma_u64_shr_is_div(v, bits);
    vstd::arithmetic::div_mod::lemma_basic_div(v as int, pow2(bits as nat) as int);
}

/// The largest palette a region holds: palette indices are 32-bit.
pub const MAX_PALETTE: u64 = 0xffff_ffff;

/// Returns `required_bits(len)`.
pub fn bits_for_len(len: usize) -> (b: u64)
    requires
        len <= MAX_PALETTE,
    ensures
        b == required_bits(len as nat),
        2 <= b <= 32,
{
    proof {
        lemma2_to64();
        lemma_required_bits_bound(len as nat, 32);
    }
    let mut rest: usize = len;
    let mut b: u64 = 2;
    while rest > 4
        invariant
            rest <= len,
            2 <= b,
            b + required_bits(rest as nat) == 2 + required_bits(len as nat),
            required_bits(len as nat) <= 32,
        decreases rest,
    {
        proof {
            lemma_required_bits_spec(((rest + 1) / 2) as nat);
            assert(rest / 2 + rest % 2 == (rest + 1) / 2);
        }
        rest = rest / 2 + rest % 2;
        b = b + 1;
    }
    b
}


/// The number of words that hold `cells` cells of `bits` bits.
pub open spec fn words_for(cells: nat, bits: nat) -> nat {
    (cells * bits + 63) / 64
}

/// The largest number of cells a region holds, so that word counts fit in a
/// `usize` on every target.
pub const MAX_CELLS: u64 = 0x1_0000_0000;

proof fn lemma_cells_fit(i: nat, cells: nat, bits: nat)
    requires
        i < cells,
    ensures
        (i + 1) * bits <= cells * bits,
{
    assert((i + 1) * bits <= cells * bits) by (nonlinear_arith)
        requires
            i < cells,
    ;
}

proof fn lemma_zero_word_bits(t: u64)
    by (bit_vector)
    ensures
        (0u64 >> t) & 1 == 0,
{
}

proof fn lemma_fits_wider(v: u64, b: u64, c: u64)
    by (bit_vector)
    requires
        b <= c < 64,
        v >> b == 0,
    ensures
        v >> c == 0,
{
}

/// A cell below `cells` lies within `words_for(cells, bits)` words.
pub proof fn lemma_cell_in_words(i: nat, cells: nat, bits: nat)
    requires
        i < cells,
        cells <= MAX_CELLS,
        bits <= 32,
    ensures
        (i + 1) * bits <= 64 * words_for(cells, bits),
        (i + 1) * bits <= u64::MAX,
{
    assert((i + 1) * bits <= cells * bits) by (nonlinear_arith)
        requires
            i < cells,
    ;
    assert(cells * bits <= MAX_CELLS * 32) by (nonlinear_arith)
        requires
            cells <= MAX_CELLS,
            bits <= 32,
    ;
}

/// Returns the number of words that hold `cells` cells of `bits` bits.
pub fn words_needed(cells: u64, bits: u64) -> (n: usize)
    requires
        cells <= MAX_CELLS,
        bits <= 32,
    ensures
        n == words_for(cells as nat, bits as nat),
{
    assert(cells * bits <= MAX_CELLS * 32) by (nonlinear_arith)
        requires
            cells <= MAX_CELLS,
            bits <= 32,
    ;
    ((cells * bits + 63) / 64) as usize
}

/// Re-packs `cells` cells from `old_bits` to `new_bits` bits per cell into a
/// new array, whose bits past the last cell are zero.
pub fn widen(words: &Vec<u64>, cells: u64, old_bits: u64, new_bits: u64) -> (r: Vec<u64>)
    requires
        2 <= old_bits <= new_bits <= 32,
        cells <= MAX_CELLS,
        cells * old_bits <= 64 * words@.len(),
    ensures
        r@.len() == words_for(cells as nat, new_bits as nat),
        forall|i: nat| i < cells ==> cell_value(r@, i, new_bits as nat) == cell_value(words@, i, old_bits as nat),
        forall|k: nat|
            cells * new_bits <= k < 64 * r@.len() ==> #[trigger] word_bit(r@, k) == 0,
{
    let n = words_needed(cells, new_bits);
    let mut r: Vec<u64> = Vec::new();
    while r.len() < n
        invariant
            r@.len() <= n,
            forall|j: int| 0 <= j < r@.len() ==> r@[j] == 0,
        decreases n - r@.len(),
    {
        r.push(0);
    }
    assert forall|k: nat| k < 64 * r@.len() implies #[trigger] word_bit(r@, k) == 0 by {
        lemma_zero_word_bits((k % 64) as u64);
    }
    let mut i: u64 = 0;
    while i < cells
        invariant
            i <= cells,
            2 <= old_bits <= new_bits <= 32,
            cells <= MAX_CELLS,
            cells * old_bits <= 64 * words@.len(),
            r@.len() == n,
            n == words_for(cells as nat, new_bits as nat),
            forall|j: nat| j < i ==> cell_value(r@, j, new_bits as nat) == cell_value(words@, j, old_bits as nat),
            forall|k: nat| i * new_bits <= k < 64 * r@.len() ==> #[trigger] word_bit(r@, k) == 0,
        decreases cells - i,
    {
        proof {
            lemma_cells_fit(i as nat, cells as nat, old_bits as nat);
            lemma_cells_fit(i as nat, cells as nat, new_bits as nat);
            assert(cells * new_bits <= MAX_CELLS * 32) by (nonlinear_arith)
                requires
                    cells <= MAX_CELLS,
                    new_bits <= 32,
            ;
            assert(cells * new_bits <= 64 * n);
            assert(cells * old_bits <= MAX_CELLS * 32) by (nonlinear_arith)
                requires
                    cells <= MAX_CELLS,
                    old_bits <= 32,
            ;
        }
        let v = read_cell(words, i, old_bits);
        let ghost before = r@;
        write_cell(&mut r, i, v, new_bits);
        proof {
            lemma_fits_wider(v, old_bits, new_bits);
            lemma_written_cell(before, r@, i as nat, new_bits as nat, v);
            assert forall|j: nat| j < i + 1 implies cell_value(r@, j, new_bits as nat) == cell_value(
                words@,
                j,
                old_bits as nat,
            ) by {
                if j < i {
                    lemma_cells_fit(j, cells as nat, new_bits as nat);
                    lemma_other_cell(before, r@, i as nat, j, new_bits as nat, v);
                }
            }
            lemma_field_end(i as nat, new_bits as nat);
        }
        i = i + 1;
    }
    r
}

} // verus!
