//! Byte-level routines: XOR decoding and hex decoding.

use vstd::prelude::*;

use crate::error::XorError;

verus! {

/// The result of XOR-ing `text` cyclically with `key`.
pub open spec fn dexor_spec(text: Seq<u8>, key: Seq<u8>) -> Seq<u8> {
    Seq::new(text.len(), |i: int| text[i] ^ key[i % key.len() as int])
}

/// Reverse XOR encryption on a set of bytes: `r[i] = text[i] ^ key[i % key.len()]`.
pub fn dexor(text: &[u8], key: &[u8]) -> (r: Vec<u8>)
    requires
        text@.len() > 0 ==> key@.len() > 0,
    ensures
        r@ == dexor_spec(text@, key@),
{
    let val_mod = key.len();
    let mut results: Vec<u8> = Vec::new();
    let mut index: usize = 0;
    while index < text.len()
        invariant
            index <= text@.len(),
            text@.len() > 0 ==> key@.len() > 0,
            val_mod == key@.len(),
            results@ == dexor_spec(text@, key@).take(index as int),
        decreases text@.len() - index,
    {
        let tmp = key[index % val_mod] ^ text[index];
        results.push(tmp);
        proof {
            let a = text@[index as int];
            let b = key@[index as int % key@.len() as int];
            assert(b ^ a == a ^ b) by (bit_vector);
            assert(results@ =~= dexor_spec(text@, key@).take(index + 1));
        }
        index = index + 1;
    }
    proof {
        assert(results@ =~= dexor_spec(text@, key@));
    }
    results
}

/// XOR decoding is an involution: decoding twice with the same non-empty
/// key returns the original byte sequence.
pub proof fn lemma_dexor_round_trip(text: Seq<u8>, key: Seq<u8>)
    requires
        key.len() > 0,
    ensures
        dexor_spec(dexor_spec(text, key), key) == text,
{
    let once = dexor_spec(text, key);
    let twice = dexor_spec(once, key);
    assert forall|i: int| 0 <= i < text.len() implies twice[i] == text[i] by {
        let t = text[i];
        let k = key[i % key.len() as int];
        assert((t ^ k) ^ k == t) by (bit_vector);
    }
    assert(twice =~= text);
}

/// Whether `b` is the ASCII code of a hex digit (`0-9`, `a-f`, `A-F`).
pub open spec fn is_hex_digit(b: u8) -> bool {
    (0x30 <= b <= 0x39) || (0x61 <= b <= 0x66) || (0x41 <= b <= 0x46)
}

/// The numeric value of the hex digit `b`.
pub open spec fn hex_value(b: u8) -> int {
    if 0x30 <= b <= 0x39 {
        b - 0x30
    } else if 0x61 <= b <= 0x66 {
        b - 0x61 + 10
    } else {
        b - 0x41 + 10
    }
}

/// The subsequence of `text` made of its hex-digit bytes, in order.
pub open spec fn hex_digits_of(text: Seq<u8>) -> Seq<u8>
    decreases text.len(),
{
    if text.len() == 0 {
        Seq::empty()
    } else {
        hex_digits_of(text.drop_last()) + if is_hex_digit(text.last()) {
            seq![text.last()]
        } else {
            Seq::empty()
        }
    }
}

/// The bytes read off a sequence of hex digits, two digits per byte,
/// big-endian nibble order.
pub open spec fn hex_pairs(digits: Seq<u8>) -> Seq<u8> {
    Seq::new(
        digits.len() / 2,
        |i: int| (hex_value(digits[2 * i]) * 16 + hex_value(digits[2 * i + 1])) as u8,
    )
}

/// Every byte of `hex_digits_of(text)` is a hex digit.
proof fn lemma_hex_digits_of_all_hex(text: Seq<u8>)
    ensures
        forall|i: int|
            0 <= i < hex_digits_of(text).len() ==> is_hex_digit(#[trigger] hex_digits_of(text)[i]),
    decreases text.len(),
{
    if text.len() > 0 {
        lemma_hex_digits_of_all_hex(text.drop_last());
        let pre = hex_digits_of(text.drop_last());
        let cur = hex_digits_of(text);
        assert forall|i: int| 0 <= i < cur.len() implies is_hex_digit(cur[i]) by {
            if is_hex_digit(text.last()) {
                if i < pre.len() {
                    assert(cur[i] == pre[i]);
                } else {
                    assert(cur[i] == text.last());
                }
            } else {
                assert(cur =~= pre);
            }
        }
    }
}

/// Decode text holding hex values (e.g. "01 3D DE AD BE EF") into bytes.
///
/// Bytes other than ASCII hex digits are discarded first; the remaining
/// digits are paired big-endian. An odd number of digits is an error.
pub fn decode_from_hex(text: &[u8]) -> (r: Result<Vec<u8>, XorError>)
    ensures
        hex_digits_of(text@).len() % 2 == 0 ==> (r matches Ok(v) && v@ == hex_pairs(
            hex_digits_of(text@),
        )),
        hex_digits_of(text@).len() % 2 != 0 ==> (r matches Err(e) && e is UnicodeDecode),
{
    let mut only_hex_digits: Vec<u8> = Vec::new();
    let mut i: usize = 0;
    while i < text.len()
        invariant
            i <= text@.len(),
            only_hex_digits@ == hex_digits_of(text@.take(i as int)),
        decreases text@.len() - i,
    {
        let character = text[i];
        let is_digit = (0x30 <= character && character <= 0x39) || (0x61 <= character && character
            <= 0x66) || (0x41 <= character && character <= 0x46);
        if is_digit {
            only_hex_digits.push(character);
        }
        proof {
            assert(text@.take(i + 1).drop_last() =~= text@.take(i as int));
            assert(text@.take(i + 1).last() == text@[i as int]);
        }
        i = i + 1;
    }
    proof {
        assert(text@.take(text@.len() as int) =~= text@);
    }
    if only_hex_digits.len() % 2 != 0 {
        return Err(
            XorError::UnicodeDecode {
                msg: "Odd number of characters after extracting only hex digits.".to_owned(),
            },
        );
    }
    let digits = only_hex_digits;
    let ghost dseq = digits@;
    proof {
        lemma_hex_digits_of_all_hex(text@);
    }
    let half = digits.len() / 2;
    let mut result: Vec<u8> = Vec::new();
    let mut k: usize = 0;
    while k < half
        invariant
            digits@ == dseq,
            half == dseq.len() / 2,
            half <= usize::MAX / 2,
            dseq.len() % 2 == 0,
            k <= half,
            forall|m: int| 0 <= m < dseq.len() ==> is_hex_digit(#[trigger] dseq[m]),
            result@.len() == k,
            forall|m: int|
                0 <= m < k ==> result@[m] == (hex_value(dseq[2 * m]) * 16 + hex_value(
                    dseq[2 * m + 1],
                )) as u8,
        decreases half - k,
    {
        proof {
            assert(2 * k + 1 < dseq.len());
        }
        let hi = digits[2 * k];
        let lo = digits[2 * k + 1];
        let hi_val: u8 = if 0x30 <= hi && hi <= 0x39 {
            hi - 0x30
        } else if 0x61 <= hi && hi <= 0x66 {
            hi - 0x61 + 10
        } else if 0x41 <= hi && hi <= 0x46 {
            hi - 0x41 + 10
        } else {
            0
        };
        let lo_val: u8 = if 0x30 <= lo && lo <= 0x39 {
            lo - 0x30
        } else if 0x61 <= lo && lo <= 0x66 {
            lo - 0x61 + 10
        } else if 0x41 <= lo && lo <= 0x46 {
            lo - 0x41 + 10
        } else {
            0
        };
        result.push(hi_val * 16 + lo_val);
        k = k + 1;
    }
    proof {
        assert(result@ =~= hex_pairs(dseq));
    }
    Ok(result)
}

} // verus!
