//! Plaintext scoring and candidate selection: decode the ciphertext under
//! each candidate key, measure how much of the result lies in the target
//! character set, and decide which candidates are kept.

use vstd::arithmetic::div_mod::{lemma_div_is_ordered, lemma_fundamental_div_mod_converse};
use vstd::prelude::*;

use crate::routine::{dexor, dexor_spec};

verus! {

/// Number of bytes of `text` that lie in `charset`.
pub open spec fn count_in_charset(text: Seq<u8>, charset: Seq<u8>) -> int
    decreases text.len(),
{
    if text.len() == 0 {
        0
    } else {
        count_in_charset(text.drop_last(), charset) + if charset.contains(text.last()) {
            1int
        } else {
            0int
        }
    }
}

/// The number of in-charset bytes never exceeds the text length.
pub proof fn lemma_count_in_charset_bounds(text: Seq<u8>, charset: Seq<u8>)
    ensures
        0 <= count_in_charset(text, charset) <= text.len(),
    decreases text.len(),
{
    if text.len() > 0 {
        lemma_count_in_charset_bounds(text.drop_last(), charset);
    }
}

/// The validity percentage of `text` against `charset`: the share of bytes
/// inside the charset as a percentage, rounded to the nearest whole number
/// with halves rounded up.
pub open spec fn percentage_spec(text: Seq<u8>, charset: Seq<u8>) -> int {
    (200 * count_in_charset(text, charset) + text.len()) / (2 * text.len() as int)
}

/// Whether `b` occurs in `charset`.
pub fn contains_byte(charset: &[u8], b: u8) -> (r: bool)
    ensures
        r == charset@.contains(b),
{
    let mut i: usize = 0;
    while i < charset.len()
        invariant
            i <= charset@.len(),
            forall|j: int| 0 <= j < i ==> charset@[j] != b,
        decreases charset@.len() - i,
    {
        if charset[i] == b {
            return true;
        }
        i = i + 1;
    }
    false
}

/// Percentage of the bytes of `text` that lie in the target charset,
/// rounded to the nearest whole percent.
pub fn percentage_valid(text: &[u8], charset: &[u8]) -> (r: u64)
    requires
        text@.len() > 0,
    ensures
        r == percentage_spec(text@, charset@),
        r <= 100,
{
    let mut count: u64 = 0;
    let mut i: usize = 0;
    proof {
        lemma_count_in_charset_bounds(text@, charset@);
    }
    while i < text.len()
        invariant
            i <= text@.len(),
            count == count_in_charset(text@.take(i as int), charset@),
            count <= i,
        decreases text@.len() - i,
    {
        proof {
            assert(text@.take(i + 1).drop_last() =~= text@.take(i as int));
            assert(text@.take(i + 1).last() == text@[i as int]);
        }
        if contains_byte(charset, text[i]) {
            count = count + 1;
        }
        i = i + 1;
    }
    proof {
        assert(text@.take(text@.len() as int) =~= text@);
    }
    let len = text.len();
    let num: u128 = 200 * (count as u128) + (len as u128);
    let den: u128 = 2 * (len as u128);
    let pct = num / den;
    proof {
        let t = len as int;
        let c = count as int;
        // The rounded percentage never exceeds 100.
        assert(201 * t == 100 * (2 * t) + t);
        lemma_fundamental_div_mod_converse(201 * t, 2 * t, 100, t);
        lemma_div_is_ordered(200 * c + t, 201 * t, 2 * t);
    }
    pct as u64
}

/// `needle` occurs in `hay` as a contiguous run of bytes.
pub open spec fn contains_subseq_spec(hay: Seq<u8>, needle: Seq<u8>) -> bool {
    exists|i: int|
        0 <= i && i + needle.len() <= hay.len() && #[trigger] hay.subrange(i, i + needle.len())
            == needle
}

/// Decide whether `needle` occurs in `hay` as a contiguous run of bytes.
pub fn contains_subseq(hay: &[u8], needle: &[u8]) -> (r: bool)
    ensures
        r == contains_subseq_spec(hay@, needle@),
{
    if needle.len() == 0 {
        proof {
            assert(hay@.subrange(0, 0 + needle@.len() as int) =~= needle@);
        }
        return true;
    }
    if needle.len() > hay.len() {
        proof {
            assert(!contains_subseq_spec(hay@, needle@));
        }
        return false;
    }
    let last_start = hay.len() - needle.len();
    let mut i: usize = 0;
    while i <= last_start
        invariant
            1 <= needle@.len() <= hay@.len(),
            hay@.len() <= usize::MAX,
            last_start == hay@.len() - needle@.len(),
            i <= last_start + 1,
            forall|s: int|
                0 <= s < i ==> #[trigger] hay@.subrange(s, s + needle@.len()) != needle@,
        decreases last_start + 1 - i,
    {
        let mut j: usize = 0;
        let mut matches = true;
        while j < needle.len() && matches
            invariant
                i + needle@.len() <= hay@.len(),
                hay@.len() <= usize::MAX,
                j <= needle@.len(),
                matches ==> (forall|t: int| 0 <= t < j ==> hay@[i + t] == needle@[t]),
                !matches ==> hay@.subrange(i as int, i + needle@.len()) != needle@,
            decreases needle@.len() - j,
        {
            if hay[i + j] != needle[j] {
                proof {
                    assert(hay@.subrange(i as int, i + needle@.len())[j as int] == hay@[i + j]);
                }
                matches = false;
                j = needle.len();
            } else {
                proof {
                    assert forall|t: int| 0 <= t < j + 1 implies hay@[i + t] == needle@[t] by {}
                }
                j = j + 1;
            }
        }
        if matches {
            proof {
                assert(hay@.subrange(i as int, i + needle@.len()) =~= needle@);
            }
            return true;
        }
        i = i + 1;
    }
    proof {
        assert forall|s: int|
            0 <= s && s + needle@.len() <= hay@.len() implies #[trigger] hay@.subrange(
            s,
            s + needle@.len(),
        ) != needle@ by {}
    }
    false
}

/// A scored decryption candidate: one key that survived the known-plaintext
/// filter, its decoded plaintext and validity.
pub struct Candidate {
    /// Index of the key in the deduplicated key collection.
    pub key_index: usize,
    /// The key itself.
    pub key: Vec<u8>,
    /// The ciphertext decoded under the key.
    pub plaintext: Vec<u8>,
    /// Percentage of plaintext bytes inside the target charset.
    pub validity: u64,
    /// The validity strictly exceeds the threshold.
    pub hit: bool,
    /// The decoded plaintext is to be persisted.
    pub write_output: bool,
}

/// A candidate key is retained when no known plaintext was given, or when
/// the known plaintext occurs in the decoded output.
pub open spec fn retained(ciphertext: Seq<u8>, key: Seq<u8>, known_plain: Seq<u8>) -> bool {
    known_plain.len() == 0 || contains_subseq_spec(dexor_spec(ciphertext, key), known_plain)
}

/// A retained candidate key whose decoded output strictly beats the
/// validity threshold.
pub open spec fn is_hit(
    ciphertext: Seq<u8>,
    key: Seq<u8>,
    charset: Seq<u8>,
    known_plain: Seq<u8>,
    threshold: int,
) -> bool {
    retained(ciphertext, key, known_plain) && percentage_spec(
        dexor_spec(ciphertext, key),
        charset,
    ) > threshold
}

/// Number of hits among the first `upto` keys.
pub open spec fn hit_count(
    ciphertext: Seq<u8>,
    keys: Seq<Seq<u8>>,
    charset: Seq<u8>,
    known_plain: Seq<u8>,
    threshold: int,
    upto: int,
) -> int
    decreases upto,
{
    if upto <= 0 {
        0
    } else {
        hit_count(ciphertext, keys, charset, known_plain, threshold, upto - 1) + if is_hit(
            ciphertext,
            keys[upto - 1],
            charset,
            known_plain,
            threshold,
        ) {
            1int
        } else {
            0int
        }
    }
}

/// There are never more hits than keys.
proof fn lemma_hit_count_le(
    ciphertext: Seq<u8>,
    keys: Seq<Seq<u8>>,
    charset: Seq<u8>,
    known_plain: Seq<u8>,
    threshold: int,
    upto: int,
)
    requires
        upto >= 0,
    ensures
        0 <= hit_count(ciphertext, keys, charset, known_plain, threshold, upto) <= upto,
    decreases upto,
{
    if upto > 0 {
        lemma_hit_count_le(ciphertext, keys, charset, known_plain, threshold, upto - 1);
    }
}

/// Decode the ciphertext under every candidate key and score the results.
///
/// A key is dropped when a known plaintext is given and does not occur in
/// its decoded output.  Every kept candidate records its validity, whether
/// it strictly beats the threshold (a hit), and whether its output is to
/// be written (always, unless output filtering is on and it is not a hit).
/// The second result is the number of hits.
pub fn produce_candidates(
    ciphertext: &[u8],
    keys: &Vec<Vec<u8>>,
    charset: &[u8],
    known_plain: &[u8],
    threshold: i64,
    filter_output: bool,
) -> (r: (Vec<Candidate>, u64))
    requires
        ciphertext@.len() > 0,
        forall|i: int| 0 <= i < keys@.len() ==> (#[trigger] keys@[i])@.len() > 0,
    ensures
        forall|i: int|
            0 <= i < r.0@.len() ==> {
                let c = #[trigger] r.0@[i];
                &&& 0 <= c.key_index < keys@.len()
                &&& c.key@ == keys@[c.key_index as int]@
                &&& retained(ciphertext@, c.key@, known_plain@)
                &&& c.plaintext@ == dexor_spec(ciphertext@, c.key@)
                &&& c.validity == percentage_spec(c.plaintext@, charset@)
                &&& c.hit == (c.validity > threshold)
                &&& c.write_output == (!filter_output || c.validity > threshold)
            },
        forall|i: int, j: int| 0 <= i < j < r.0@.len() ==> r.0@[i].key_index < r.0@[j].key_index,
        forall|k: int|
            0 <= k < keys@.len() && retained(ciphertext@, (#[trigger] keys@[k])@, known_plain@)
                ==> exists|i: int| 0 <= i < r.0@.len() && (#[trigger] r.0@[i]).key_index == k,
        r.1 == hit_count(
            ciphertext@,
            crate::keys::views_of(keys@),
            charset@,
            known_plain@,
            threshold as int,
            keys@.len() as int,
        ),
{
    let ghost keysv = crate::keys::views_of(keys@);
    let mut out: Vec<Candidate> = Vec::new();
    let mut count_valid: u64 = 0;
    let mut index: usize = 0;
    while index < keys.len()
        invariant
            ciphertext@.len() > 0,
            forall|i: int| 0 <= i < keys@.len() ==> (#[trigger] keys@[i])@.len() > 0,
            keysv == crate::keys::views_of(keys@),
            index <= keys@.len(),
            forall|i: int|
                0 <= i < out@.len() ==> {
                    let c = #[trigger] out@[i];
                    &&& 0 <= c.key_index < index
                    &&& c.key@ == keys@[c.key_index as int]@
                    &&& retained(ciphertext@, c.key@, known_plain@)
                    &&& c.plaintext@ == dexor_spec(ciphertext@, c.key@)
                    &&& c.validity == percentage_spec(c.plaintext@, charset@)
                    &&& c.hit == (c.validity > threshold)
                    &&& c.write_output == (!filter_output || c.validity > threshold)
                },
            forall|i: int, j: int| 0 <= i < j < out@.len() ==> out@[i].key_index < out@[j].key_index,
            forall|k: int|
                0 <= k < index && retained(ciphertext@, (#[trigger] keys@[k])@, known_plain@)
                    ==> exists|i: int| 0 <= i < out@.len() && (#[trigger] out@[i]).key_index == k,
            count_valid == hit_count(
                ciphertext@,
                keysv,
                charset@,
                known_plain@,
                threshold as int,
                index as int,
            ),
        decreases keys@.len() - index,
    {
        let key = vstd::slice::slice_to_vec(keys[index].as_slice());
        let dexored = dexor(ciphertext, key.as_slice());
        proof {
            assert(keysv[index as int] == key@);
            lemma_hit_count_le(
                ciphertext@,
                keysv,
                charset@,
                known_plain@,
                threshold as int,
                index as int,
            );
        }
        let keep = if known_plain.len() > 0 {
            contains_subseq(dexored.as_slice(), known_plain)
        } else {
            true
        };
        if keep {
            let perc = percentage_valid(dexored.as_slice(), charset);
            let hit = (perc as i64) > threshold;
            if hit {
                count_valid = count_valid + 1;
            }
            let write_output = !filter_output || hit;
            let ghost oldout = out@;
            out.push(
                Candidate {
                    key_index: index,
                    key,
                    plaintext: dexored,
                    validity: perc,
                    hit,
                    write_output,
                },
            );
            proof {
                assert forall|k: int|
                    0 <= k < index + 1 && retained(
                        ciphertext@,
                        (#[trigger] keys@[k])@,
                        known_plain@,
                    ) implies exists|i: int|
                    0 <= i < out@.len() && (#[trigger] out@[i]).key_index == k by {
                    if k == index {
                        assert(out@[out@.len() - 1].key_index == k);
                    } else {
                        let i = choose|i: int| 0 <= i < oldout.len() && oldout[i].key_index == k;
                        assert(out@[i].key_index == k);
                    }
                }
            }
        } else {
            proof {
                assert(!retained(ciphertext@, keysv[index as int], known_plain@));
            }
        }
        index = index + 1;
    }
    (out, count_valid)
}

/// Scoring is deterministic: two scorings of the same ciphertext and key
/// against the same charset yield the same plaintext and validity.
pub proof fn lemma_scoring_idempotent(
    ciphertext: Seq<u8>,
    key: Seq<u8>,
    charset: Seq<u8>,
    first: (Seq<u8>, int),
    second: (Seq<u8>, int),
)
    requires
        first.0 == dexor_spec(ciphertext, key),
        first.1 == percentage_spec(first.0, charset),
        second.0 == dexor_spec(ciphertext, key),
        second.1 == percentage_spec(second.0, charset),
    ensures
        first == second,
{
}

} // verus!
