//! Per-offset byte histograms over a strided view of the ciphertext.
//!
//! Bytes at positions `offset, offset + step, offset + 2 * step, ...` were
//! all XOR-ed with the same key byte when `step` is the key length, so their
//! frequency tables carry the statistical signal the analysis rests on.

use std::collections::HashMap;

use vstd::arithmetic::div_mod::{
    lemma_fundamental_div_mod, lemma_fundamental_div_mod_converse, lemma_mod_multiples_vanish,
    lemma_small_mod,
};
use vstd::prelude::*;

verus! {

broadcast use vstd::std_specs::hash::group_hash_axioms;

/// Number of occurrences of byte `b` among `text[pos], text[pos + step], ...`.
pub open spec fn stride_count(text: Seq<u8>, pos: int, step: int, b: u8) -> int
    decreases text.len() + step - pos,
{
    if step < 1 || pos < 0 || pos >= text.len() {
        0
    } else {
        (if text[pos] == b {
            1int
        } else {
            0int
        }) + stride_count(text, pos + step, step, b)
    }
}

/// Number of positions `pos, pos + step, ...` strictly below `len`.
pub open spec fn stride_len(len: int, pos: int, step: int) -> int
    decreases len + step - pos,
{
    if step < 1 || pos < 0 || pos >= len {
        0
    } else {
        1 + stride_len(len, pos + step, step)
    }
}

/// Sum of the histogram counts of the byte values below `ub`.
pub open spec fn stride_count_total(text: Seq<u8>, pos: int, step: int, ub: int) -> int
    decreases ub,
{
    if ub <= 0 {
        0
    } else {
        stride_count_total(text, pos, step, ub - 1) + stride_count(text, pos, step, (ub - 1) as u8)
    }
}

/// Largest histogram count among the byte values below `ub`.
pub open spec fn max_stride_count(text: Seq<u8>, pos: int, step: int, ub: int) -> int
    decreases ub,
{
    if ub <= 0 {
        0
    } else {
        let m = max_stride_count(text, pos, step, ub - 1);
        let c = stride_count(text, pos, step, (ub - 1) as u8);
        if c > m {
            c
        } else {
            m
        }
    }
}

/// Sum over the offsets in `[off, step)` of the stride lengths at those offsets.
pub open spec fn stride_len_sum(len: int, step: int, off: int) -> int
    decreases step - off,
{
    if off < 0 || off >= step {
        0
    } else {
        stride_len(len, off, step) + stride_len_sum(len, step, off + 1)
    }
}

/// A histogram count is between zero and the stride length.
pub proof fn lemma_stride_count_bounds(text: Seq<u8>, pos: int, step: int, b: u8)
    ensures
        0 <= stride_count(text, pos, step, b) <= stride_len(text.len() as int, pos, step),
    decreases text.len() + step - pos,
{
    if step >= 1 && 0 <= pos && pos < text.len() {
        lemma_stride_count_bounds(text, pos + step, step, b);
    }
}

/// The stride length is between zero and `len - pos`.
pub proof fn lemma_stride_len_bounds(len: int, pos: int, step: int)
    ensures
        0 <= stride_len(len, pos, step),
        0 <= pos <= len ==> stride_len(len, pos, step) <= len - pos,
    decreases len + step - pos,
{
    if step >= 1 && 0 <= pos && pos < len {
        lemma_stride_len_bounds(len, pos + step, step);
    }
}

/// The stride length is `ceil((len - pos) / step)` for in-range positions.
pub proof fn lemma_stride_len_closed(len: int, pos: int, step: int)
    requires
        step >= 1,
        0 <= pos,
    ensures
        stride_len(len, pos, step) == if pos < len {
            (len - pos + step - 1) / step
        } else {
            0int
        },
    decreases len + step - pos,
{
    if pos < len {
        let n = len - pos;
        lemma_stride_len_closed(len, pos + step, step);
        if pos + step < len {
            lemma_fundamental_div_mod(n - 1, step);
            let q0 = (n - 1) / step;
            let r = (n - 1) % step;
            assert(n - 1 == step * q0 + r);
            assert((q0 + 1) * step == step * q0 + step) by (nonlinear_arith);
            lemma_fundamental_div_mod_converse(n + step - 1, step, q0 + 1, r);
        } else {
            assert(1 <= n <= step);
            assert(1 * step == step);
            lemma_fundamental_div_mod_converse(n + step - 1, step, 1, n - 1);
        }
    }
}

/// Peeling the last position off the text changes the stride length at
/// exactly the offset that position belongs to.
proof fn lemma_stride_len_peel(len: int, pos: int, step: int)
    requires
        step >= 1,
        0 <= pos,
        len >= 1,
    ensures
        stride_len(len, pos, step) == stride_len(len - 1, pos, step) + if pos <= len - 1 && (len - 1
            - pos) % step == 0 {
            1int
        } else {
            0int
        },
    decreases len + step - pos,
{
    if pos >= len {
    } else if pos == len - 1 {
        lemma_small_mod(0, step as nat);
        assert(stride_len(len, pos + step, step) == 0);
        assert(stride_len(len - 1, pos, step) == 0);
    } else {
        lemma_stride_len_peel(len, pos + step, step);
        assert((step * (-1) + (len - 1 - pos)) % step == (len - 1 - pos) % step) by {
            lemma_mod_multiples_vanish(-1, len - 1 - pos, step);
        }
        assert(len - 1 - pos - step == step * (-1) + (len - 1 - pos));
        if len - 1 - pos < step {
            lemma_small_mod((len - 1 - pos) as nat, step as nat);
        }
    }
}

/// Peeling the last position off the text lowers the sum of the stride
/// lengths over the offsets in `[off, step)` by one, exactly when the
/// offset class of that position lies in the range.
proof fn lemma_stride_len_sum_peel(len: int, step: int, off: int)
    requires
        step >= 1,
        0 <= off,
        len >= 1,
    ensures
        stride_len_sum(len, step, off) == stride_len_sum(len - 1, step, off) + if off <= (len - 1)
            % step {
            1int
        } else {
            0int
        },
    decreases step - off,
{
    let target = (len - 1) % step;
    lemma_fundamental_div_mod(len - 1, step);
    assert(0 <= target < step);
    if off >= step {
    } else {
        lemma_stride_len_sum_peel(len, step, off + 1);
        lemma_stride_len_peel(len, off, step);
        // The peel indicator at `off` is 1 exactly when `off == target`.
        if off <= len - 1 && (len - 1 - off) % step == 0 {
            lemma_fundamental_div_mod((len - 1 - off), step);
            lemma_small_mod(off as nat, step as nat);
            assert((len - 1 - off) == step * ((len - 1 - off) / step));
            lemma_fundamental_div_mod_converse(len - 1, step, (len - 1 - off) / step, off);
            assert(off == target);
        } else {
            assert(off != target) by {
                if off == target {
                    // Then `len - 1 - off` is a multiple of `step` and
                    // `off <= len - 1`, contradicting the branch.
                    assert(len - 1 == step * ((len - 1) / step) + target);
                    assert(len - 1 - off == step * ((len - 1) / step));
                    lemma_mod_multiples_vanish((len - 1) / step, 0, step);
                    lemma_small_mod(0, step as nat);
                    assert((len - 1 - off) % step == 0);
                    assert(off <= len - 1) by {
                        assert(step * ((len - 1) / step) >= 0) by {
                            lemma_fundamental_div_mod(len - 1, step);
                            vstd::arithmetic::div_mod::lemma_div_pos_is_pos(len - 1, step);
                            vstd::arithmetic::mul::lemma_mul_nonnegative(
                                step,
                                (len - 1) / step,
                            );
                        }
                    }
                }
            }
        }
    }
}

/// The stride lengths of the offsets in `[off, step)` of an empty text sum to zero.
proof fn lemma_stride_len_sum_zero(step: int, off: int)
    ensures
        stride_len_sum(0, step, off) == 0,
    decreases step - off,
{
    if 0 <= off < step {
        lemma_stride_len_sum_zero(step, off + 1);
    }
}

/// The strides at the offsets in `[0, step)` exactly partition the text:
/// their lengths sum to the length of the text.
pub proof fn lemma_stride_partition(len: int, step: int)
    requires
        step >= 1,
        len >= 0,
    ensures
        stride_len_sum(len, step, 0) == len,
    decreases len,
{
    if len == 0 {
        lemma_stride_len_sum_zero(step, 0);
    } else {
        lemma_stride_partition(len - 1, step);
        lemma_stride_len_sum_peel(len, step, 0);
        lemma_fundamental_div_mod(len - 1, step);
    }
}

/// Summing the histogram over the byte values below `ub` at a position in
/// range counts that position when its byte is below `ub`.
proof fn lemma_stride_count_total_step(text: Seq<u8>, pos: int, step: int, ub: int)
    requires
        step >= 1,
        0 <= pos < text.len(),
        0 <= ub <= 256,
    ensures
        stride_count_total(text, pos, step, ub) == (if (text[pos] as int) < ub {
            1int
        } else {
            0int
        }) + stride_count_total(text, pos + step, step, ub),
    decreases ub,
{
    if ub > 0 {
        lemma_stride_count_total_step(text, pos, step, ub - 1);
    }
}

/// Out of range, the histogram total is zero.
proof fn lemma_stride_count_total_zero(text: Seq<u8>, pos: int, step: int, ub: int)
    requires
        step < 1 || pos < 0 || pos >= text.len(),
    ensures
        stride_count_total(text, pos, step, ub) == 0,
    decreases ub,
{
    if ub > 0 {
        lemma_stride_count_total_zero(text, pos, step, ub - 1);
    }
}

/// The histogram values at one offset sum to the stride length there:
/// every position of the stride is tallied exactly once.
pub proof fn lemma_histogram_total(text: Seq<u8>, pos: int, step: int)
    requires
        step >= 1,
        0 <= pos,
    ensures
        stride_count_total(text, pos, step, 256) == stride_len(text.len() as int, pos, step),
    decreases text.len() + step - pos,
{
    if pos >= text.len() {
        lemma_stride_count_total_zero(text, pos, step, 256);
    } else {
        lemma_histogram_total(text, pos + step, step);
        lemma_stride_count_total_step(text, pos, step, 256);
    }
}

/// The histogram values at one offset sum to exactly
/// `ceil((len - offset) / step)`: the counts partition the stride.
pub proof fn lemma_histogram_counts_sum(text: Seq<u8>, step: int, off: int)
    requires
        step >= 1,
        0 <= off,
    ensures
        stride_count_total(text, off, step, 256) == if off < text.len() {
            (text.len() - off + step - 1) / step
        } else {
            0int
        },
{
    lemma_histogram_total(text, off, step);
    lemma_stride_len_closed(text.len() as int, off, step);
}

/// The largest histogram count is at least the count of any single byte.
pub proof fn lemma_max_stride_count_ge(text: Seq<u8>, pos: int, step: int, ub: int, b: u8)
    requires
        (b as int) < ub,
    ensures
        max_stride_count(text, pos, step, ub) >= stride_count(text, pos, step, b),
    decreases ub,
{
    if (b as int) < ub - 1 {
        lemma_max_stride_count_ge(text, pos, step, ub - 1, b);
    }
}

/// The largest histogram count never exceeds the stride length.
pub proof fn lemma_max_stride_count_le(text: Seq<u8>, pos: int, step: int, ub: int)
    ensures
        0 <= max_stride_count(text, pos, step, ub) <= stride_len(text.len() as int, pos, step),
    decreases ub,
{
    lemma_stride_len_bounds(text.len() as int, pos, step);
    if ub > 0 {
        lemma_max_stride_count_le(text, pos, step, ub - 1);
        lemma_stride_count_bounds(text, pos, step, (ub - 1) as u8);
    }
}

/// At a position inside the text, the largest histogram count is at least one.
pub proof fn lemma_max_stride_count_pos(text: Seq<u8>, pos: int, step: int)
    requires
        step >= 1,
        0 <= pos < text.len(),
    ensures
        max_stride_count(text, pos, step, 256) >= 1,
{
    let b = text[pos];
    lemma_stride_count_bounds(text, pos + step, step, b);
    assert(stride_count(text, pos, step, b) >= 1);
    lemma_max_stride_count_ge(text, pos, step, 256, b);
}

/// Tally how many times each byte value occurs at the positions
/// `offset, offset + key_length, offset + 2 * key_length, ...` of `text`.
///
/// Returns an empty map when the stride has no position in range.
pub fn chars_count_at_offset(text: &[u8], key_length: usize, offset: usize) -> (r: HashMap<
    u8,
    u64,
>)
    requires
        key_length >= 1,
    ensures
        forall|b: u8|
            #[trigger] r@.contains_key(b) <==> stride_count(
                text@,
                offset as int,
                key_length as int,
                b,
            ) > 0,
        forall|b: u8|
            r@.contains_key(b) ==> #[trigger] r@[b] == stride_count(
                text@,
                offset as int,
                key_length as int,
                b,
            ),
{
    let ghost l = key_length as int;
    let ghost off = offset as int;
    let mut chars_count: HashMap<u8, u64> = HashMap::new();
    let mut pos: usize = offset;
    proof {
        assert forall|b: u8| 0 <= #[trigger] stride_count(text@, pos as int, l, b) <= stride_count(
            text@,
            off,
            l,
            b,
        ) <= text@.len() by {
            lemma_stride_count_bounds(text@, off, l, b);
            lemma_stride_len_bounds(text@.len() as int, off, l);
        }
    }
    while pos < text.len()
        invariant
            key_length >= 1,
            l == key_length as int,
            off == offset as int,
            pos >= offset,
            forall|b: u8|
                #[trigger] chars_count@.contains_key(b) <==> stride_count(text@, off, l, b)
                    - stride_count(text@, pos as int, l, b) > 0,
            forall|b: u8|
                chars_count@.contains_key(b) ==> #[trigger] chars_count@[b] == stride_count(
                    text@,
                    off,
                    l,
                    b,
                ) - stride_count(text@, pos as int, l, b),
            forall|b: u8|
                0 <= #[trigger] stride_count(text@, pos as int, l, b) <= stride_count(
                    text@,
                    off,
                    l,
                    b,
                ) <= text@.len(),
        decreases text@.len() - pos,
    {
        let c = text[pos];
        let ghost next = pos + l;
        proof {
            assert(stride_count(text@, pos as int, l, c) == 1 + stride_count(text@, next, l, c));
            assert forall|b: u8| b != c implies stride_count(text@, pos as int, l, b)
                == stride_count(text@, next, l, b) by {}
            assert forall|b: u8| 0 <= #[trigger] stride_count(text@, next, l, b) <= stride_count(
                text@,
                off,
                l,
                b,
            ) by {
                lemma_stride_count_bounds(text@, next, l, b);
            }
        }
        let current: u64 = match chars_count.get(&c) {
            Some(v) => *v,
            None => 0,
        };
        chars_count.insert(c, current + 1);
        let remaining = text.len() - pos;
        if remaining > key_length {
            pos = pos + key_length;
        } else {
            pos = text.len();
            proof {
                assert(stride_count(text@, pos as int, l, c) == stride_count(text@, next, l, c));
                assert forall|b: u8| #[trigger] stride_count(text@, pos as int, l, b)
                    == stride_count(text@, next, l, b) by {}
            }
        }
    }
    chars_count
}

/// Coincidence terms summed over the offsets below `off`: for each offset,
/// the most frequent byte's count minus one.
pub open spec fn coincidence_upto(text: Seq<u8>, step: int, off: int) -> int
    decreases off,
{
    if off <= 0 {
        0
    } else {
        coincidence_upto(text, step, off - 1) + max_stride_count(text, off - 1, step, 256) - 1
    }
}

/// Sum of the excess coincidences of `text` for key length `l`: over each of
/// the `l` offsets, the most frequent byte's count minus one.  Defined as
/// zero when no full block fits (`l >= len`) and for the degenerate `l < 1`.
pub open spec fn coincidence(text: Seq<u8>, l: int) -> int {
    if l < 1 || l >= text.len() {
        0
    } else {
        coincidence_upto(text, l, l)
    }
}

/// The partial coincidence sums stay between zero and the text length:
/// the strides partition the text, and each offset contributes at most
/// its stride length minus one.
proof fn lemma_coincidence_upto_bounds(text: Seq<u8>, step: int, off: int)
    requires
        1 <= step < text.len(),
        0 <= off <= step,
    ensures
        0 <= coincidence_upto(text, step, off),
        coincidence_upto(text, step, off) + stride_len_sum(text.len() as int, step, off)
            <= text.len() - off,
    decreases off,
{
    let len = text.len() as int;
    if off == 0 {
        lemma_stride_partition(len, step);
    } else {
        lemma_coincidence_upto_bounds(text, step, off - 1);
        lemma_max_stride_count_pos(text, off - 1, step);
        lemma_max_stride_count_le(text, off - 1, step, 256);
        assert(stride_len_sum(len, step, off - 1) == stride_len(len, off - 1, step)
            + stride_len_sum(len, step, off));
    }
}

/// The coincidence count is nonnegative, and zero once the key length
/// reaches the text length.
pub proof fn lemma_coincidence_nonneg(text: Seq<u8>, l: int)
    ensures
        coincidence(text, l) >= 0,
        l >= text.len() ==> coincidence(text, l) == 0,
{
    if 1 <= l && l < text.len() {
        lemma_coincidence_upto_bounds(text, l, l);
    }
}

/// Count the repeated characters of `text`: for every offset below
/// `key_length`, the count of the most frequent byte at that offset minus
/// one, all summed.  Zero when the key length reaches the text length.
pub fn count_equals(text: &[u8], key_length: usize) -> (r: u64)
    ensures
        r == coincidence(text@, key_length as int),
        key_length >= text@.len() ==> r == 0,
{
    let ghost l = key_length as int;
    let len = text.len();
    if key_length >= len {
        return 0;
    }
    let mut equals_count: u64 = 0;
    let mut offset: usize = 0;
    while offset < key_length
        invariant
            key_length < text@.len(),
            l == key_length as int,
            len == text@.len(),
            offset <= key_length,
            equals_count == coincidence_upto(text@, l, offset as int),
        decreases key_length - offset,
    {
        let max_count = stride_max(text, key_length, offset);
        proof {
            lemma_max_stride_count_pos(text@, offset as int, l);
            lemma_coincidence_upto_bounds(text@, l, offset + 1);
            assert forall|o: int| 0 <= o implies stride_len_sum(text@.len() as int, l, o) >= 0 by {
                lemma_stride_len_sum_nonneg(text@.len() as int, l, o);
            }
        }
        equals_count = equals_count + (max_count - 1);
        offset = offset + 1;
    }
    equals_count
}

/// Every term of a stride-length sum is nonnegative.
proof fn lemma_stride_len_sum_nonneg(len: int, step: int, off: int)
    ensures
        stride_len_sum(len, step, off) >= 0,
    decreases step - off,
{
    if 0 <= off < step {
        lemma_stride_len_bounds(len, off, step);
        lemma_stride_len_sum_nonneg(len, step, off + 1);
    }
}

/// Tally, as a 256-entry table, how many times each byte value occurs at
/// positions `offset, offset + key_length, ...` of `text`.
pub fn stride_counts(text: &[u8], key_length: usize, offset: usize) -> (r: Vec<u64>)
    requires
        key_length >= 1,
    ensures
        r@.len() == 256,
        forall|b: u8|
            #[trigger] r@[b as int] == stride_count(text@, offset as int, key_length as int, b),
{
    let ghost l = key_length as int;
    let ghost off = offset as int;
    let mut counts: Vec<u64> = vec![0u64; 256];
    let mut pos: usize = offset;
    proof {
        assert forall|b: u8| 0 <= #[trigger] stride_count(text@, pos as int, l, b) <= stride_count(
            text@,
            off,
            l,
            b,
        ) <= text@.len() by {
            lemma_stride_count_bounds(text@, pos as int, l, b);
            lemma_stride_count_bounds(text@, off, l, b);
            lemma_stride_len_bounds(text@.len() as int, off, l);
        }
    }
    while pos < text.len()
        invariant
            key_length >= 1,
            l == key_length as int,
            off == offset as int,
            pos >= offset,
            counts@.len() == 256,
            forall|b: u8|
                #[trigger] counts@[b as int] == stride_count(text@, off, l, b) - stride_count(
                    text@,
                    pos as int,
                    l,
                    b,
                ),
            forall|b: u8|
                0 <= #[trigger] stride_count(text@, pos as int, l, b) <= stride_count(
                    text@,
                    off,
                    l,
                    b,
                ) <= text@.len(),
        decreases text@.len() - pos,
    {
        let c = text[pos];
        let ghost next = pos + l;
        proof {
            assert(stride_count(text@, pos as int, l, c) == 1 + stride_count(text@, next, l, c));
            assert forall|b: u8| b != c implies stride_count(text@, pos as int, l, b)
                == stride_count(text@, next, l, b) by {}
            assert forall|b: u8| 0 <= #[trigger] stride_count(text@, next, l, b) <= stride_count(
                text@,
                off,
                l,
                b,
            ) by {
                lemma_stride_count_bounds(text@, next, l, b);
            }
        }
        let current = counts[c as usize];
        counts.set(c as usize, current + 1);
        let remaining = text.len() - pos;
        if remaining > key_length {
            pos = pos + key_length;
        } else {
            pos = text.len();
            proof {
                assert forall|b: u8| #[trigger] stride_count(text@, pos as int, l, b)
                    == stride_count(text@, next, l, b) by {}
            }
        }
    }
    proof {
        assert forall|b: u8| #[trigger] counts@[b as int] == stride_count(text@, off, l, b) by {
            assert(stride_count(text@, pos as int, l, b) == 0);
        }
    }
    counts
}

/// The count of the most frequent byte at positions
/// `offset, offset + key_length, ...` of `text`; zero when the stride is empty.
pub fn stride_max(text: &[u8], key_length: usize, offset: usize) -> (r: u64)
    requires
        key_length >= 1,
    ensures
        r == max_stride_count(text@, offset as int, key_length as int, 256),
{
    let counts = stride_counts(text, key_length, offset);
    max_of_counts(&counts, text, key_length, offset)
}

/// The largest entry of a 256-entry stride-count table.
pub fn max_of_counts(counts: &Vec<u64>, text: &[u8], key_length: usize, offset: usize) -> (r: u64)
    requires
        counts@.len() == 256,
        forall|b: u8|
            #[trigger] counts@[b as int] == stride_count(
                text@,
                offset as int,
                key_length as int,
                b,
            ),
    ensures
        r == max_stride_count(text@, offset as int, key_length as int, 256),
{
    let ghost l = key_length as int;
    let ghost off = offset as int;
    let mut max_count: u64 = 0;
    let mut b: usize = 0;
    while b < 256
        invariant
            counts@.len() == 256,
            b <= 256,
            forall|v: u8| #[trigger] counts@[v as int] == stride_count(text@, off, l, v),
            l == key_length as int,
            off == offset as int,
            max_count == max_stride_count(text@, off, l, b as int),
        decreases 256 - b,
    {
        proof {
            assert(counts@[b as int] == stride_count(text@, off, l, b as u8));
        }
        if counts[b] > max_count {
            max_count = counts[b];
        }
        b = b + 1;
    }
    max_count
}

} // verus!
