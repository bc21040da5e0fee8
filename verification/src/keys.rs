//! Key recovery: derive the possible key bytes at every offset from
//! histogram ties and enumerate each combination.
//!
//! Ties are kept deliberately: on short or uniform input several bytes
//! often share the top count, and dropping any of them would silently lose
//! valid keys.  The price is a Cartesian product over the tied offsets,
//! which is exponential in the number of ties.

use vstd::prelude::*;

use crate::hist::{
    lemma_max_stride_count_pos, max_of_counts, max_stride_count, stride_count, stride_counts,
};

verus! {

/// The views of a vector of byte vectors.
pub open spec fn views_of(s: Seq<Vec<u8>>) -> Seq<Seq<u8>> {
    Seq::new(s.len(), |i: int| s[i]@)
}

/// The candidate key bytes at one offset drawn from the byte values below
/// `ub`: every byte whose histogram count ties the maximum yields the key
/// byte `byte XOR most_char`, in ascending byte order.
pub open spec fn possible_bytes_below(
    text: Seq<u8>,
    l: int,
    off: int,
    most_char: u8,
    ub: int,
) -> Seq<u8>
    decreases ub,
{
    if ub <= 0 {
        Seq::empty()
    } else {
        possible_bytes_below(text, l, off, most_char, ub - 1) + if stride_count(
            text,
            off,
            l,
            (ub - 1) as u8,
        ) == max_stride_count(text, off, l, 256) && max_stride_count(text, off, l, 256) >= 1 {
            seq![(((ub - 1) as u8) ^ most_char)]
        } else {
            Seq::empty()
        }
    }
}

/// The candidate key bytes at one offset.
pub open spec fn possible_bytes(text: Seq<u8>, l: int, off: int, most_char: u8) -> Seq<u8> {
    possible_bytes_below(text, l, off, most_char, 256)
}

/// The per-offset table of candidate key bytes for key length `l`.
pub open spec fn key_table(text: Seq<u8>, l: int, most_char: u8) -> Seq<Seq<u8>> {
    Seq::new(l as nat, |off: int| possible_bytes(text, l, off, most_char))
}

/// All keys that extend `prefix` by one candidate byte per offset from
/// `off` on: the Cartesian product of the table rows, in table order.
pub open spec fn all_keys_spec(kpb: Seq<Seq<u8>>, prefix: Seq<u8>, off: int) -> Seq<Seq<u8>>
    decreases kpb.len() - off, kpb[off].len() + 1,
{
    if off < 0 {
        Seq::empty()
    } else if off >= kpb.len() {
        seq![prefix]
    } else {
        combos_from(kpb, prefix, off, 0)
    }
}

/// The keys built by choosing candidate `j` or a later one at offset
/// `off`, then any candidates at the following offsets.
pub open spec fn combos_from(kpb: Seq<Seq<u8>>, prefix: Seq<u8>, off: int, j: int) -> Seq<Seq<u8>>
    decreases kpb.len() - off, kpb[off].len() - j,
{
    if !(0 <= off < kpb.len()) || !(0 <= j < kpb[off].len()) {
        Seq::empty()
    } else {
        all_keys_spec(kpb, prefix.push(kpb[off][j]), off + 1) + combos_from(kpb, prefix, off, j + 1)
    }
}

/// Produce all combinations of the possible key bytes: each returned key
/// extends `key_part` with one choice from each entry of
/// `key_possible_bytes` from `offset` on.
pub fn all_keys(key_possible_bytes: &Vec<Vec<u8>>, key_part: &[u8], offset: usize) -> (r: Vec<
    Vec<u8>,
>)
    ensures
        views_of(r@) == all_keys_spec(views_of(key_possible_bytes@), key_part@, offset as int),
    decreases key_possible_bytes@.len() - offset,
{
    let ghost kpbv = views_of(key_possible_bytes@);
    let mut keys: Vec<Vec<u8>> = Vec::new();
    if offset >= key_possible_bytes.len() {
        keys.push(vstd::slice::slice_to_vec(key_part));
        proof {
            assert(views_of(keys@) =~= seq![key_part@]);
        }
        return keys;
    }
    let row_len = key_possible_bytes[offset].len();
    let mut j: usize = 0;
    proof {
        assert(views_of(keys@) + combos_from(kpbv, key_part@, offset as int, 0) =~= combos_from(
            kpbv,
            key_part@,
            offset as int,
            0,
        ));
    }
    while j < row_len
        invariant
            offset < key_possible_bytes@.len(),
            key_possible_bytes@.len() <= usize::MAX,
            kpbv == views_of(key_possible_bytes@),
            row_len == kpbv[offset as int].len(),
            j <= row_len,
            views_of(keys@) + combos_from(kpbv, key_part@, offset as int, j as int)
                == all_keys_spec(kpbv, key_part@, offset as int),
        decreases row_len - j,
    {
        let c = key_possible_bytes[offset][j];
        let mut tmp = vstd::slice::slice_to_vec(key_part);
        tmp.push(c);
        let mut sub = all_keys(key_possible_bytes, tmp.as_slice(), offset + 1);
        let ghost oldkeys = keys@;
        let ghost subv = views_of(sub@);
        keys.append(&mut sub);
        proof {
            assert(tmp@ == key_part@.push(c));
            assert(c == kpbv[offset as int][j as int]);
            assert(views_of(keys@) =~= views_of(oldkeys) + subv);
            assert(combos_from(kpbv, key_part@, offset as int, j as int) == all_keys_spec(
                kpbv,
                key_part@.push(c),
                offset + 1,
            ) + combos_from(kpbv, key_part@, offset as int, j + 1));
            assert(views_of(keys@) + combos_from(kpbv, key_part@, offset as int, j + 1)
                =~= views_of(oldkeys) + combos_from(kpbv, key_part@, offset as int, j as int));
        }
        j = j + 1;
    }
    proof {
        assert(combos_from(kpbv, key_part@, offset as int, row_len as int)
            == Seq::<Seq<u8>>::empty());
        assert(views_of(keys@) + Seq::<Seq<u8>>::empty() =~= views_of(keys@));
    }
    keys
}

/// Guess the possible keys of length `key_length` for `text`, assuming the
/// most frequent plaintext byte is `most_char`: at every offset each byte
/// whose count ties the histogram maximum is kept, and the keys are all
/// combinations of those bytes.
pub fn guess_keys(text: &[u8], most_char: u8, key_length: usize) -> (r: Vec<Vec<u8>>)
    requires
        1 <= key_length <= text@.len(),
    ensures
        views_of(r@) == all_keys_spec(
            key_table(text@, key_length as int, most_char),
            Seq::empty(),
            0,
        ),
{
    let ghost l = key_length as int;
    let mut key_possible_bytes: Vec<Vec<u8>> = Vec::new();
    let mut offset: usize = 0;
    while offset < key_length
        invariant
            1 <= key_length <= text@.len(),
            l == key_length as int,
            offset <= key_length,
            key_possible_bytes@.len() == offset,
            forall|o: int|
                0 <= o < offset ==> (#[trigger] key_possible_bytes@[o])@ == possible_bytes(
                    text@,
                    l,
                    o,
                    most_char,
                ),
        decreases key_length - offset,
    {
        let counts = stride_counts(text, key_length, offset);
        let max_count = max_of_counts(&counts, text, key_length, offset);
        proof {
            lemma_max_stride_count_pos(text@, offset as int, l);
        }
        let mut row: Vec<u8> = Vec::new();
        let mut b: usize = 0;
        while b < 256
            invariant
                counts@.len() == 256,
                forall|v: u8|
                    #[trigger] counts@[v as int] == stride_count(text@, offset as int, l, v),
                max_count == max_stride_count(text@, offset as int, l, 256),
                max_count >= 1,
                b <= 256,
                l == key_length as int,
                offset < key_length,
                row@ == possible_bytes_below(text@, l, offset as int, most_char, b as int),
            decreases 256 - b,
        {
            proof {
                assert(counts@[b as int] == stride_count(text@, offset as int, l, b as u8));
            }
            if counts[b] == max_count {
                row.push((b as u8) ^ most_char);
            }
            proof {
                assert(row@ =~= possible_bytes_below(text@, l, offset as int, most_char, b + 1));
            }
            b = b + 1;
        }
        key_possible_bytes.push(row);
        offset = offset + 1;
    }
    let empty_part: Vec<u8> = Vec::new();
    proof {
        assert(views_of(key_possible_bytes@) =~= key_table(text@, l, most_char));
        assert(empty_part@ =~= Seq::<u8>::empty());
    }
    all_keys(&key_possible_bytes, empty_part.as_slice(), 0)
}

/// Every key produced from the table has one byte per offset from `off` on.
pub proof fn lemma_all_keys_len(kpb: Seq<Seq<u8>>, prefix: Seq<u8>, off: int)
    requires
        0 <= off <= kpb.len(),
    ensures
        forall|i: int|
            0 <= i < all_keys_spec(kpb, prefix, off).len() ==> (#[trigger] all_keys_spec(
                kpb,
                prefix,
                off,
            )[i]).len() == prefix.len() + kpb.len() - off,
    decreases kpb.len() - off, kpb[off].len() + 1,
{
    if off < kpb.len() {
        lemma_combos_len(kpb, prefix, off, 0);
        assert forall|i: int| 0 <= i < all_keys_spec(kpb, prefix, off).len() implies (
        #[trigger] all_keys_spec(kpb, prefix, off)[i]).len() == prefix.len() + kpb.len() - off by {
            assert(all_keys_spec(kpb, prefix, off)[i] == combos_from(kpb, prefix, off, 0)[i]);
        }
    }
}

/// Every key produced from candidate `j` on at offset `off` has one byte
/// per offset from `off` on.
proof fn lemma_combos_len(kpb: Seq<Seq<u8>>, prefix: Seq<u8>, off: int, j: int)
    requires
        0 <= off < kpb.len(),
        0 <= j,
    ensures
        forall|i: int|
            0 <= i < combos_from(kpb, prefix, off, j).len() ==> (#[trigger] combos_from(
                kpb,
                prefix,
                off,
                j,
            )[i]).len() == prefix.len() + kpb.len() - off,
    decreases kpb.len() - off, kpb[off].len() - j,
{
    if j < kpb[off].len() {
        lemma_all_keys_len(kpb, prefix.push(kpb[off][j]), off + 1);
        lemma_combos_len(kpb, prefix, off, j + 1);
        let head = all_keys_spec(kpb, prefix.push(kpb[off][j]), off + 1);
        let tail = combos_from(kpb, prefix, off, j + 1);
        assert forall|i: int| 0 <= i < combos_from(kpb, prefix, off, j).len() implies (
        #[trigger] combos_from(kpb, prefix, off, j)[i]).len() == prefix.len() + kpb.len()
            - off by {
            if i < head.len() {
                assert(combos_from(kpb, prefix, off, j)[i] == head[i]);
            } else {
                assert(combos_from(kpb, prefix, off, j)[i] == tail[i - head.len()]);
            }
        }
    }
}

/// Product of the sizes of the table rows from `off` on.
pub open spec fn row_product(kpb: Seq<Seq<u8>>, off: int) -> int
    decreases kpb.len() - off,
{
    if off < 0 || off >= kpb.len() {
        1
    } else {
        kpb[off].len() * row_product(kpb, off + 1)
    }
}

/// The Cartesian product holds one key per way of choosing a candidate
/// byte at every offset: its size is the product of the row sizes.
pub proof fn lemma_all_keys_count(kpb: Seq<Seq<u8>>, prefix: Seq<u8>, off: int)
    requires
        0 <= off <= kpb.len(),
    ensures
        all_keys_spec(kpb, prefix, off).len() == row_product(kpb, off),
    decreases kpb.len() - off, kpb[off].len() + 1,
{
    if off < kpb.len() {
        lemma_combos_count(kpb, prefix, off, 0);
    }
}

/// The keys built from candidate `j` on at offset `off` number the
/// remaining row entries times the product of the later rows.
proof fn lemma_combos_count(kpb: Seq<Seq<u8>>, prefix: Seq<u8>, off: int, j: int)
    requires
        0 <= off < kpb.len(),
        0 <= j <= kpb[off].len(),
    ensures
        combos_from(kpb, prefix, off, j).len() == (kpb[off].len() - j) * row_product(kpb, off + 1),
    decreases kpb.len() - off, kpb[off].len() - j,
{
    let p = row_product(kpb, off + 1);
    if j >= kpb[off].len() {
        assert((kpb[off].len() - j) * p == 0) by (nonlinear_arith)
            requires
                kpb[off].len() - j == 0,
        ;
    } else {
        lemma_all_keys_count(kpb, prefix.push(kpb[off][j]), off + 1);
        lemma_combos_count(kpb, prefix, off, j + 1);
        assert((kpb[off].len() - j) * p == p + (kpb[off].len() - j - 1) * p) by (nonlinear_arith)
            requires
                kpb[off].len() - j >= 1,
        ;
    }
}

/// A tie set is never empty when its stride holds at least one byte:
/// some byte attains the maximum count.
proof fn lemma_possible_bytes_nonempty(text: Seq<u8>, l: int, off: int, most_char: u8)
    requires
        l >= 1,
        0 <= off < text.len(),
    ensures
        possible_bytes(text, l, off, most_char).len() >= 1,
{
    crate::hist::lemma_max_stride_count_pos(text, off, l);
    let b = lemma_max_attained_witness(text, off, l, 256);
    lemma_possible_bytes_grow(text, l, off, most_char, b as int + 1, 256);
    assert(possible_bytes_below(text, l, off, most_char, b as int + 1).len() >= 1);
}

/// A byte below `ub` attaining the maximum count over all byte values,
/// when that maximum is positive.
proof fn lemma_max_attained_witness(text: Seq<u8>, pos: int, step: int, ub: int) -> (b: u8)
    requires
        0 < ub <= 256,
        max_stride_count(text, pos, step, ub) == max_stride_count(text, pos, step, 256),
        max_stride_count(text, pos, step, 256) >= 1,
    ensures
        (b as int) < ub,
        stride_count(text, pos, step, b) == max_stride_count(text, pos, step, 256),
    decreases ub,
{
    let c = stride_count(text, pos, step, (ub - 1) as u8);
    if c == max_stride_count(text, pos, step, 256) {
        (ub - 1) as u8
    } else {
        assert(max_stride_count(text, pos, step, ub - 1) == max_stride_count(text, pos, step, 256));
        lemma_max_attained_witness(text, pos, step, ub - 1)
    }
}

/// The tie set only grows as the scanned byte range widens.
proof fn lemma_possible_bytes_grow(text: Seq<u8>, l: int, off: int, most_char: u8, a: int, b: int)
    requires
        a <= b,
    ensures
        possible_bytes_below(text, l, off, most_char, a).len() <= possible_bytes_below(
            text,
            l,
            off,
            most_char,
            b,
        ).len(),
    decreases b - a,
{
    if a < b {
        lemma_possible_bytes_grow(text, l, off, most_char, a, b - 1);
    }
}

/// For a key length within the text, key recovery yields exactly one key
/// per combination of tied bytes, and at least one.
pub proof fn lemma_guessed_key_count(text: Seq<u8>, l: int, most_char: u8)
    requires
        1 <= l <= text.len(),
    ensures
        all_keys_spec(key_table(text, l, most_char), Seq::empty(), 0).len() == row_product(
            key_table(text, l, most_char),
            0,
        ),
        all_keys_spec(key_table(text, l, most_char), Seq::empty(), 0).len() >= 1,
{
    let kpb = key_table(text, l, most_char);
    lemma_all_keys_count(kpb, Seq::empty(), 0);
    lemma_row_product_pos(text, l, most_char, 0);
}

/// The product of the row sizes from `off` on is at least one: every row
/// in range holds a byte.
proof fn lemma_row_product_pos(text: Seq<u8>, l: int, most_char: u8, off: int)
    requires
        1 <= l <= text.len(),
        0 <= off <= l,
    ensures
        row_product(key_table(text, l, most_char), off) >= 1,
    decreases l - off,
{
    let kpb = key_table(text, l, most_char);
    if off < l {
        lemma_possible_bytes_nonempty(text, l, off, most_char);
        lemma_row_product_pos(text, l, most_char, off + 1);
        assert(kpb[off].len() * row_product(kpb, off + 1) >= 1) by (nonlinear_arith)
            requires
                kpb[off].len() >= 1,
                row_product(kpb, off + 1) >= 1,
        ;
    }
}

/// First index of `k` in `s`, or `-1` when `k` does not occur.
pub open spec fn find_index(s: Seq<Seq<u8>>, k: Seq<u8>) -> int
    decreases s.len(),
{
    if s.len() == 0 {
        -1
    } else if s[0] == k {
        0
    } else {
        let r = find_index(s.drop_first(), k);
        if r == -1 {
            -1int
        } else {
            r + 1
        }
    }
}

/// `find_index` returns the first occurrence, or `-1` when there is none.
pub proof fn lemma_find_index(s: Seq<Seq<u8>>, k: Seq<u8>)
    ensures
        find_index(s, k) >= -1,
        find_index(s, k) == -1 ==> forall|j: int| 0 <= j < s.len() ==> s[j] != k,
        find_index(s, k) >= 0 ==> 0 <= find_index(s, k) < s.len() && s[find_index(s, k)] == k && (
        forall|j: int| 0 <= j < find_index(s, k) ==> s[j] != k),
    decreases s.len(),
{
    if s.len() > 0 && s[0] != k {
        lemma_find_index(s.drop_first(), k);
        let r = find_index(s.drop_first(), k);
        assert(r >= -1);
        if r == -1 {
            assert forall|j: int| 0 <= j < s.len() implies s[j] != k by {
                if j > 0 {
                    assert(s[j] == s.drop_first()[j - 1]);
                }
            }
        } else {
            assert(s[r + 1] == s.drop_first()[r]);
            assert forall|j: int| 0 <= j < r + 1 implies s[j] != k by {
                if j > 0 {
                    assert(s[j] == s.drop_first()[j - 1]);
                }
            }
        }
    }
}

/// A first occurrence pins `find_index` down.
pub proof fn lemma_find_index_first(s: Seq<Seq<u8>>, k: Seq<u8>, i: int)
    requires
        0 <= i < s.len(),
        s[i] == k,
        forall|j: int| 0 <= j < i ==> s[j] != k,
    ensures
        find_index(s, k) == i,
    decreases s.len(),
{
    if s[0] != k {
        assert(s.drop_first()[i - 1] == s[i]);
        assert forall|j: int| 0 <= j < i - 1 implies s.drop_first()[j] != k by {
            assert(s.drop_first()[j] == s[j + 1]);
        }
        lemma_find_index_first(s.drop_first(), k, i - 1);
    }
}

/// Compare two byte vectors for equality, byte by byte.
pub fn vecs_equal(a: &Vec<u8>, b: &Vec<u8>) -> (r: bool)
    ensures
        r == (a@ == b@),
{
    if a.len() != b.len() {
        return false;
    }
    let mut i: usize = 0;
    while i < a.len()
        invariant
            a@.len() == b@.len(),
            i <= a@.len(),
            forall|j: int| 0 <= j < i ==> a@[j] == b@[j],
        decreases a@.len() - i,
    {
        if a[i] != b[i] {
            return false;
        }
        i = i + 1;
    }
    proof {
        assert(a@ =~= b@);
    }
    true
}

/// Find the first position of `k` among `keys`, if any.
pub fn find_key(keys: &Vec<Vec<u8>>, k: &Vec<u8>) -> (r: Option<usize>)
    ensures
        match r {
            Some(i) => 0 <= i < keys@.len() && find_index(views_of(keys@), k@) == i as int,
            None => find_index(views_of(keys@), k@) == -1,
        },
{
    let ghost s = views_of(keys@);
    let mut i: usize = 0;
    while i < keys.len()
        invariant
            s == views_of(keys@),
            i <= keys@.len(),
            forall|j: int| 0 <= j < i ==> s[j] != k@,
        decreases keys@.len() - i,
    {
        if vecs_equal(&keys[i], k) {
            proof {
                assert(s[i as int] == k@);
                lemma_find_index_first(s, k@, i as int);
            }
            return Some(i);
        }
        i = i + 1;
    }
    proof {
        lemma_find_index(s, k@);
        if find_index(s, k@) >= 0 {
            assert(s[find_index(s, k@)] == k@);
            assert(false);
        }
    }
    None
}

/// Merge newly guessed keys into the collection, left to right: a key seen
/// before keeps its place and its origin byte is overwritten; a new key is
/// appended with its origin.
pub open spec fn merge_keys(
    keys: Seq<Seq<u8>>,
    org: Seq<u8>,
    new_keys: Seq<Seq<u8>>,
    c: u8,
) -> (Seq<Seq<u8>>, Seq<u8>)
    decreases new_keys.len(),
{
    if new_keys.len() == 0 {
        (keys, org)
    } else {
        let k = new_keys[0];
        let idx = find_index(keys, k);
        if idx >= 0 {
            merge_keys(keys, org.update(idx, c), new_keys.drop_first(), c)
        } else {
            merge_keys(keys.push(k), org.push(c), new_keys.drop_first(), c)
        }
    }
}

/// The deduplicated key collection and the origin byte of each key after
/// trying the hypothesis bytes `chars`, in order.
pub open spec fn driver_spec(text: Seq<u8>, chars: Seq<u8>, l: int) -> (Seq<Seq<u8>>, Seq<u8>)
    decreases chars.len(),
{
    if chars.len() == 0 {
        (Seq::empty(), Seq::empty())
    } else {
        let prev = driver_spec(text, chars.drop_last(), l);
        merge_keys(
            prev.0,
            prev.1,
            all_keys_spec(key_table(text, l, chars.last()), Seq::empty(), 0),
            chars.last(),
        )
    }
}

/// Guess the probable keys for every hypothesized most-frequent byte in
/// `try_chars`, merging the results into an insertion-ordered collection
/// without duplicates.  The second vector records, for each key, the last
/// hypothesis byte that produced it.
pub fn guess_probable_keys_for_chars(text: &[u8], try_chars: &[u8], key_length: usize) -> (r: (
    Vec<Vec<u8>>,
    Vec<u8>,
))
    requires
        1 <= key_length <= text@.len(),
    ensures
        views_of(r.0@) == driver_spec(text@, try_chars@, key_length as int).0,
        r.1@ == driver_spec(text@, try_chars@, key_length as int).1,
        r.0@.len() == r.1@.len(),
        forall|i: int| 0 <= i < r.0@.len() ==> (#[trigger] r.0@[i])@.len() == key_length,
{
    let ghost l = key_length as int;
    let mut probable_keys: Vec<Vec<u8>> = Vec::new();
    let mut key_char_used: Vec<u8> = Vec::new();
    let mut ci: usize = 0;
    while ci < try_chars.len()
        invariant
            1 <= key_length <= text@.len(),
            l == key_length as int,
            ci <= try_chars@.len(),
            views_of(probable_keys@) == driver_spec(text@, try_chars@.take(ci as int), l).0,
            key_char_used@ == driver_spec(text@, try_chars@.take(ci as int), l).1,
            probable_keys@.len() == key_char_used@.len(),
            forall|i: int|
                0 <= i < probable_keys@.len() ==> (#[trigger] probable_keys@[i])@.len()
                    == key_length,
        decreases try_chars@.len() - ci,
    {
        let c = try_chars[ci];
        let keys = guess_keys(text, c, key_length);
        let ghost new_keys = views_of(keys@);
        let ghost target = driver_spec(text@, try_chars@.take(ci + 1), l);
        proof {
            assert(try_chars@.take(ci + 1).drop_last() =~= try_chars@.take(ci as int));
            assert(try_chars@.take(ci + 1).last() == try_chars@[ci as int]);
            lemma_all_keys_len(key_table(text@, l, c), Seq::empty(), 0);
            assert(new_keys.skip(0) =~= new_keys);
        }
        let mut kj: usize = 0;
        while kj < keys.len()
            invariant
                1 <= key_length <= text@.len(),
                l == key_length as int,
                kj <= keys@.len(),
                new_keys == views_of(keys@),
                forall|i: int| 0 <= i < new_keys.len() ==> (#[trigger] new_keys[i]).len() == l,
                probable_keys@.len() == key_char_used@.len(),
                c == try_chars@[ci as int],
                target == driver_spec(text@, try_chars@.take(ci + 1), l),
                merge_keys(views_of(probable_keys@), key_char_used@, new_keys.skip(kj as int), c)
                    == target,
                forall|i: int|
                    0 <= i < probable_keys@.len() ==> (#[trigger] probable_keys@[i])@.len()
                        == key_length,
            decreases keys@.len() - kj,
        {
            let key_vec = vstd::slice::slice_to_vec(keys[kj].as_slice());
            let ghost oldpk = probable_keys@;
            let ghost oldorg = key_char_used@;
            proof {
                assert(new_keys.skip(kj as int)[0] == key_vec@);
                assert(new_keys.skip(kj as int).drop_first() =~= new_keys.skip(kj + 1));
                lemma_find_index(views_of(oldpk), key_vec@);
            }
            let found = find_key(&probable_keys, &key_vec);
            match found {
                Some(i) => {
                    key_char_used.set(i, c);
                    proof {
                        assert(key_char_used@ == oldorg.update(
                            find_index(views_of(oldpk), key_vec@),
                            c,
                        ));
                    }
                },
                None => {
                    probable_keys.push(key_vec);
                    key_char_used.push(c);
                    proof {
                        assert(views_of(probable_keys@) =~= views_of(oldpk).push(key_vec@));
                    }
                },
            }
            kj = kj + 1;
        }
        proof {
            assert(new_keys.skip(keys@.len() as int) =~= Seq::<Seq<u8>>::empty());
        }
        ci = ci + 1;
    }
    proof {
        assert(try_chars@.take(try_chars@.len() as int) =~= try_chars@);
    }
    (probable_keys, key_char_used)
}

/// The lowercase hex digit of a value below sixteen.
pub open spec fn hex_digit_lower(v: u8) -> u8 {
    if v < 10 {
        (0x30 + v) as u8
    } else {
        (0x57 + v) as u8
    }
}

/// The printable escape of one key byte: tab, carriage return, newline and
/// backslash come out as two-character escapes, printable ASCII stays
/// itself, anything else becomes `\xNN` with lowercase hex.  A double
/// quote always stays bare; a single quote stays bare exactly when
/// `bare_single_quote` is set.
pub open spec fn escape_byte(b: u8, bare_single_quote: bool) -> Seq<u8> {
    if b == 0x09 {
        seq![0x5cu8, 0x74u8]
    } else if b == 0x0d {
        seq![0x5cu8, 0x72u8]
    } else if b == 0x0a {
        seq![0x5cu8, 0x6eu8]
    } else if b == 0x5c {
        seq![0x5cu8, 0x5cu8]
    } else if b == 0x27 {
        if bare_single_quote {
            seq![0x27u8]
        } else {
            seq![0x5cu8, 0x27u8]
        }
    } else if b == 0x22 {
        seq![0x22u8]
    } else if 0x20 <= b <= 0x7e {
        seq![b]
    } else {
        seq![0x5cu8, 0x78u8, hex_digit_lower(b / 16), hex_digit_lower(b % 16)]
    }
}

/// The printable form of a whole key: the escapes of its bytes, in order.
pub open spec fn printable_key_bytes(bytes: Seq<u8>, bare_single_quote: bool) -> Seq<u8>
    decreases bytes.len(),
{
    if bytes.len() == 0 {
        Seq::empty()
    } else {
        printable_key_bytes(bytes.drop_last(), bare_single_quote) + escape_byte(
            bytes.last(),
            bare_single_quote,
        )
    }
}

/// A key's single quotes stay bare when it has a single quote but no
/// double quote.
pub open spec fn bare_quote_style(bytes: Seq<u8>) -> bool {
    bytes.contains(0x27u8) && !bytes.contains(0x22u8)
}

/// Growing a scanned prefix by one byte adds exactly that byte to what the
/// prefix contains.
proof fn lemma_take_contains_step(s: Seq<u8>, i: int, x: u8)
    requires
        0 <= i < s.len(),
    ensures
        s.take(i + 1).contains(x) <==> (s.take(i).contains(x) || s[i] == x),
{
    if s.take(i + 1).contains(x) {
        let j = choose|j: int| 0 <= j < s.take(i + 1).len() && #[trigger] s.take(i + 1)[j] == x;
        if j < i {
            assert(s.take(i)[j] == x);
        }
    }
    if s.take(i).contains(x) {
        let j = choose|j: int| 0 <= j < s.take(i).len() && #[trigger] s.take(i)[j] == x;
        assert(s.take(i + 1)[j] == x);
    }
    if s[i] == x {
        assert(s.take(i + 1)[i] == x);
    }
}

/// Relies on String::from_utf8: bytes below 0x80 are valid UTF-8 and
/// decode to one ASCII character each.
#[verifier::external_body]
fn ascii_to_string(bytes: Vec<u8>) -> (r: String)
    requires
        forall|i: int| 0 <= i < bytes@.len() ==> bytes@[i] < 0x80,
    ensures
        r@.len() == bytes@.len(),
        forall|i: int| 0 <= i < r@.len() ==> r@[i] == bytes@[i] as char,
{
    String::from_utf8(bytes).unwrap_or_default()
}

/// Convert a key into printable form, escaping what is not printable
/// ASCII.  Double quotes stay bare, and single quotes stay bare when the
/// key holds a single quote but no double quote.
pub fn to_printable_key(bytes: &[u8]) -> (r: String)
    ensures
        r@.len() == printable_key_bytes(bytes@, bare_quote_style(bytes@)).len(),
        forall|i: int|
            0 <= i < r@.len() ==> r@[i] == printable_key_bytes(
                bytes@,
                bare_quote_style(bytes@),
            )[i] as char,
{
    let mut has_single: bool = false;
    let mut has_double: bool = false;
    let mut i: usize = 0;
    while i < bytes.len()
        invariant
            i <= bytes@.len(),
            has_single == bytes@.take(i as int).contains(0x27u8),
            has_double == bytes@.take(i as int).contains(0x22u8),
        decreases bytes@.len() - i,
    {
        proof {
            lemma_take_contains_step(bytes@, i as int, 0x27u8);
            lemma_take_contains_step(bytes@, i as int, 0x22u8);
        }
        if bytes[i] == 0x27 {
            has_single = true;
        }
        if bytes[i] == 0x22 {
            has_double = true;
        }
        i = i + 1;
    }
    proof {
        assert(bytes@.take(bytes@.len() as int) =~= bytes@);
    }
    let bare = has_single && !has_double;
    let mut out: Vec<u8> = Vec::new();
    let mut n: usize = 0;
    while n < bytes.len()
        invariant
            n <= bytes@.len(),
            bare == bare_quote_style(bytes@),
            out@ == printable_key_bytes(bytes@.take(n as int), bare),
            forall|j: int| 0 <= j < out@.len() ==> out@[j] < 0x80,
        decreases bytes@.len() - n,
    {
        let b = bytes[n];
        if b == 0x09 {
            out.push(0x5c);
            out.push(0x74);
        } else if b == 0x0d {
            out.push(0x5c);
            out.push(0x72);
        } else if b == 0x0a {
            out.push(0x5c);
            out.push(0x6e);
        } else if b == 0x5c {
            out.push(0x5c);
            out.push(0x5c);
        } else if b == 0x27 {
            if !bare {
                out.push(0x5c);
            }
            out.push(0x27);
        } else if b == 0x22 {
            out.push(0x22);
        } else if 0x20 <= b && b <= 0x7e {
            out.push(b);
        } else {
            out.push(0x5c);
            out.push(0x78);
            let hi = b / 16;
            let lo = b % 16;
            out.push(if hi < 10 {
                0x30 + hi
            } else {
                0x57 + hi
            });
            out.push(if lo < 10 {
                0x30 + lo
            } else {
                0x57 + lo
            });
        }
        proof {
            assert(bytes@.take(n + 1).drop_last() =~= bytes@.take(n as int));
            assert(bytes@.take(n + 1).last() == bytes@[n as int]);
            assert(out@ =~= printable_key_bytes(bytes@.take(n + 1), bare));
        }
        n = n + 1;
    }
    proof {
        assert(bytes@.take(bytes@.len() as int) =~= bytes@);
    }
    ascii_to_string(out)
}

} // verus!
