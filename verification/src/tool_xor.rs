//! XOR combination of several byte strings, and the parsing of the
//! strings handed to it.

use vstd::prelude::*;
use vstd::string::{StrSliceExecFns, StringSliceAdditionalSpecFns};

use unicode_escape::DecodeError;

use crate::error::XorError;
use crate::keys::views_of;

verus! {

/// Parameters of one XOR combination run.  The command line front end
/// fills the structure in.
pub struct Parameters {
    /// Strings with backslash escapes, decoded.
    pub string: Vec<Vec<u8>>,
    /// Raw strings, as given.
    pub raw_string: Vec<Vec<u8>>,
    /// Hex-encoded strings, decoded.
    pub hex_string: Vec<Vec<u8>>,
    /// Contents of files.
    pub file: Vec<Vec<u8>>,
    /// End the output with a newline.
    pub newline: bool,
    /// Do not end the output with a newline.
    pub no_newline: bool,
    /// Cycle shorter strings over the longest one.
    pub cycle: bool,
    /// Do not cycle shorter strings.
    pub no_cycle: bool,
    /// Help was requested.
    pub help: Option<bool>,
}

/// The length of the longest of the byte strings.
pub open spec fn max_len(args: Seq<Seq<u8>>) -> int
    decreases args.len(),
{
    if args.len() == 0 {
        0
    } else {
        let m = max_len(args.drop_last());
        if args.last().len() > m {
            args.last().len() as int
        } else {
            m
        }
    }
}

/// The XOR of the contributions of the first `upto` strings at position
/// `i`: a string contributes its byte at `i` taken cyclically, but when
/// cycling is off only within its own length.
pub open spec fn xor_at(args: Seq<Seq<u8>>, i: int, cycle: bool, upto: int) -> u8
    decreases upto,
{
    if upto <= 0 {
        0
    } else {
        let s = args[upto - 1];
        xor_at(args, i, cycle, upto - 1) ^ (if s.len() > 0 && (cycle || i < s.len()) {
            s[i % s.len() as int]
        } else {
            0
        })
    }
}

/// No string is longer than the longest.
proof fn lemma_max_len_ge(args: Seq<Seq<u8>>, k: int)
    requires
        0 <= k < args.len(),
    ensures
        args[k].len() <= max_len(args),
        max_len(args) >= 0,
    decreases args.len(),
{
    if args.len() > 0 && k < args.len() - 1 {
        lemma_max_len_ge(args.drop_last(), k);
    }
}

/// The longest length is attained.
proof fn lemma_max_len_nonneg(args: Seq<Seq<u8>>)
    ensures
        max_len(args) >= 0,
    decreases args.len(),
{
    if args.len() > 0 {
        lemma_max_len_nonneg(args.drop_last());
    }
}

/// XOR all of the byte strings together.  The result is as long as the
/// longest string; with `cycle` set, shorter strings repeat over the whole
/// result, otherwise each one only covers its own length.
pub fn xor(args: Vec<Vec<u8>>, cycle: bool) -> (r: Vec<u8>)
    requires
        args@.len() > 0,
        cycle && max_len(views_of(args@)) > 0 ==> forall|k: int|
            0 <= k < args@.len() ==> (#[trigger] args@[k])@.len() > 0,
    ensures
        r@.len() == max_len(views_of(args@)),
        forall|i: int|
            0 <= i < r@.len() ==> r@[i] == xor_at(
                views_of(args@),
                i,
                cycle,
                args@.len() as int,
            ),
{
    let ghost v = views_of(args@);
    let mut maxlen: usize = 0;
    let mut k: usize = 0;
    proof {
        lemma_max_len_nonneg(v.take(0));
        assert(v.take(0) =~= Seq::<Seq<u8>>::empty());
    }
    while k < args.len()
        invariant
            v == views_of(args@),
            k <= args@.len(),
            maxlen == max_len(v.take(k as int)),
        decreases args@.len() - k,
    {
        proof {
            assert(v.take(k + 1).drop_last() =~= v.take(k as int));
            assert(v.take(k + 1).last() == v[k as int]);
        }
        if args[k].len() > maxlen {
            maxlen = args[k].len();
        }
        k = k + 1;
    }
    proof {
        assert(v.take(v.len() as int) =~= v);
    }
    let mut res: Vec<u8> = vec![0u8; maxlen];
    let mut n: usize = 0;
    proof {
        assert forall|i: int| 0 <= i < res@.len() implies res@[i] == xor_at(v, i, cycle, 0) by {}
    }
    while n < args.len()
        invariant
            v == views_of(args@),
            n <= args@.len(),
            maxlen == max_len(v),
            cycle && max_len(v) > 0 ==> forall|t: int|
                0 <= t < args@.len() ==> (#[trigger] args@[t])@.len() > 0,
            res@.len() == maxlen,
            forall|i: int| 0 <= i < res@.len() ==> res@[i] == xor_at(v, i, cycle, n as int),
        decreases args@.len() - n,
    {
        let slen = args[n].len();
        proof {
            lemma_max_len_ge(v, n as int);
        }
        let range_end = if cycle {
            maxlen
        } else {
            slen
        };
        let mut i: usize = 0;
        while i < range_end
            invariant
                v == views_of(args@),
                n < args@.len(),
                slen == v[n as int].len(),
                maxlen == max_len(v),
                res@.len() == maxlen,
                range_end <= maxlen,
                range_end == (if cycle {
                    maxlen as int
                } else {
                    slen as int
                }),
                range_end > 0 ==> slen > 0,
                i <= range_end,
                forall|t: int|
                    i <= t < res@.len() ==> #[trigger] res@[t] == xor_at(v, t, cycle, n as int),
                forall|t: int|
                    0 <= t < i ==> #[trigger] res@[t] == xor_at(v, t, cycle, n + 1),
            decreases range_end - i,
        {
            let cur = res[i];
            let contribution = args[n][i % slen];
            res.set(i, cur ^ contribution);
            proof {
                assert(res@[i as int] == xor_at(v, i as int, cycle, n as int) ^ v[n as int][(
                i as int) % v[n as int].len() as int]);
                assert(res@[i as int] == xor_at(v, i as int, cycle, n + 1));
            }
            i = i + 1;
        }
        proof {
            assert forall|t: int| 0 <= t < res@.len() implies #[trigger] res@[t] == xor_at(
                v,
                t,
                cycle,
                n + 1,
            ) by {
                if t >= range_end {
                    // Beyond the range this string contributes nothing.
                    assert(!(cycle || t < v[n as int].len()) || v[n as int].len() == 0);
                    assert(xor_at(v, t, cycle, n + 1) == xor_at(v, t, cycle, n as int) ^ 0);
                    let x = xor_at(v, t, cycle, n as int);
                    assert(x ^ 0 == x) by (bit_vector);
                }
            }
        }
        n = n + 1;
    }
    res
}

/// Parse a raw string argument to bytes; an empty string is an error.
pub fn from_raw_str(arg: &str) -> (r: Result<Vec<u8>, XorError>)
    ensures
        arg@.len() == 0 ==> (r matches Err(e) && e is ArgParser),
        arg@.len() > 0 ==> (r matches Ok(v) && v@ == arg.spec_bytes()),
{
    if arg.is_empty() {
        Err(XorError::ArgParser { msg: "Empty String".to_owned() })
    } else {
        Ok(vstd::slice::slice_to_vec(arg.as_bytes()))
    }
}

/// Whether `c` is an ASCII hex digit character.
pub open spec fn is_hex_char(c: char) -> bool {
    ('0' <= c <= '9') || ('a' <= c <= 'f') || ('A' <= c <= 'F')
}

/// The numeric value of the hex digit character `c`.
pub open spec fn hex_char_value(c: char) -> int {
    if '0' <= c <= '9' {
        c as int - '0' as int
    } else if 'a' <= c <= 'f' {
        c as int - 'a' as int + 10
    } else {
        c as int - 'A' as int + 10
    }
}

/// The characters of `s` with the spaces removed.
pub open spec fn despaced(s: Seq<char>) -> Seq<char>
    decreases s.len(),
{
    if s.len() == 0 {
        Seq::empty()
    } else {
        despaced(s.drop_last()) + if s.last() == ' ' {
            Seq::empty()
        } else {
            seq![s.last()]
        }
    }
}

/// The bytes read off a sequence of hex digit characters, two digits per
/// byte; a trailing lone digit stands for its own value.
pub open spec fn hex_char_pairs(d: Seq<char>) -> Seq<u8> {
    Seq::new(
        ((d.len() + 1) / 2) as nat,
        |k: int|
            if 2 * k + 1 < d.len() {
                (hex_char_value(d[2 * k]) * 16 + hex_char_value(d[2 * k + 1])) as u8
            } else {
                hex_char_value(d[2 * k]) as u8
            },
    )
}

/// Parse a hex string argument to bytes: spaces are dropped, the digits
/// are paired big-endian, and a trailing lone digit stands for itself.
/// An empty string is an error.
pub fn from_hex_str(arg: &str) -> (r: Result<Vec<u8>, XorError>)
    requires
        forall|i: int| 0 <= i < arg@.len() ==> (arg@[i] == ' ' || is_hex_char(#[trigger] arg@[i])),
    ensures
        arg@.len() == 0 ==> (r matches Err(e) && e is ArgParser),
        arg@.len() > 0 ==> (r matches Ok(v) && v@ == hex_char_pairs(despaced(arg@))),
{
    if arg.is_empty() {
        return Err(XorError::ArgParser { msg: "Empty String".to_owned() });
    }
    let n = arg.unicode_len();
    let mut digits: Vec<u8> = Vec::new();
    let ghost d = despaced(arg@);
    proof {
        lemma_despaced_hex(arg@);
    }
    let mut i: usize = 0;
    while i < n
        invariant
            n == arg@.len(),
            forall|t: int|
                0 <= t < arg@.len() ==> (arg@[t] == ' ' || is_hex_char(#[trigger] arg@[t])),
            i <= n,
            digits@.len() == despaced(arg@.take(i as int)).len(),
            forall|t: int|
                0 <= t < digits@.len() ==> #[trigger] digits@[t] == hex_char_value(
                    despaced(arg@.take(i as int))[t],
                ),
            forall|t: int|
                0 <= t < despaced(arg@.take(i as int)).len() ==> is_hex_char(
                    #[trigger] despaced(arg@.take(i as int))[t],
                ),
        decreases n - i,
    {
        let c = arg.get_char(i);
        proof {
            assert(arg@.take(i + 1).drop_last() =~= arg@.take(i as int));
            assert(arg@.take(i + 1).last() == arg@[i as int]);
        }
        if c != ' ' {
            let value: u8 = if '0' <= c && c <= '9' {
                (c as u8) - 0x30
            } else if 'a' <= c && c <= 'f' {
                (c as u8) - 0x61 + 10
            } else {
                (c as u8) - 0x41 + 10
            };
            digits.push(value);
        }
        i = i + 1;
    }
    proof {
        assert(arg@.take(n as int) =~= arg@);
    }
    let dn = digits.len();
    let out_len = dn / 2 + dn % 2;
    proof {
        assert(out_len == (dn + 1) / 2);
    }
    let mut out: Vec<u8> = Vec::new();
    let mut k: usize = 0;
    while k < out_len
        invariant
            digits@.len() == d.len(),
            d == despaced(arg@),
            dn == d.len(),
            dn <= usize::MAX,
            forall|t: int| 0 <= t < d.len() ==> #[trigger] digits@[t] == hex_char_value(d[t]),
            forall|t: int| 0 <= t < d.len() ==> is_hex_char(#[trigger] d[t]),
            forall|t: int| 0 <= t < digits@.len() ==> #[trigger] digits@[t] <= 15,
            out_len == (dn + 1) / 2,
            k <= out_len,
            out@.len() == k,
            forall|t: int| 0 <= t < k ==> #[trigger] out@[t] == hex_char_pairs(d)[t],
        decreases out_len - k,
    {
        let hi = digits[2 * k];
        let byte: u8 = if 2 * k + 1 < dn {
            hi * 16 + digits[2 * k + 1]
        } else {
            hi
        };
        out.push(byte);
        k = k + 1;
    }
    proof {
        assert(out@ =~= hex_char_pairs(d));
    }
    Ok(out)
}

/// Every character left after removing spaces from a hex argument is a
/// hex digit, with values below sixteen.
proof fn lemma_despaced_hex(s: Seq<char>)
    requires
        forall|i: int| 0 <= i < s.len() ==> (s[i] == ' ' || is_hex_char(#[trigger] s[i])),
    ensures
        forall|t: int| 0 <= t < despaced(s).len() ==> is_hex_char(#[trigger] despaced(s)[t]),
    decreases s.len(),
{
    if s.len() > 0 {
        lemma_despaced_hex(s.drop_last());
        let pre = despaced(s.drop_last());
        let cur = despaced(s);
        assert forall|t: int| 0 <= t < cur.len() implies is_hex_char(cur[t]) by {
            if t < pre.len() {
                assert(cur[t] == pre[t]);
            } else {
                assert(cur[t] == s.last());
            }
        }
    }
}

/// What `unicode_escape::decode` yields on a given character sequence:
/// the decoded characters, or nothing when an escape sequence is invalid.
/// The result depends on the input characters alone.
pub uninterp spec fn unescaped(s: Seq<char>) -> Option<Seq<char>>;

#[verifier::external_type_specification]
#[verifier::external_body]
pub struct ExDecodeError(DecodeError);

/// Relies on unicode_escape::decode: it interprets the escape sequences of
/// its input and its result is a function of the input characters alone;
/// an empty input always decodes successfully.
#[verifier::external_body]
fn unescape(s: &str) -> (r: Result<String, DecodeError>)
    ensures
        unescaped(s@) is Some ==> r is Ok && r.unwrap()@ == unescaped(s@).unwrap(),
        unescaped(s@) is None ==> r is Err,
        s@.len() == 0 ==> r is Ok,
{
    unicode_escape::decode(s)
}

/// Relies on Display for unicode_escape::DecodeError: it writes the
/// variant's name, which is never empty.
#[verifier::external_body]
fn decode_error_message(e: &DecodeError) -> (r: String)
    ensures
        r@.len() > 0,
{
    e.to_string()
}

/// Parse a string argument to bytes, decoding backslash escape sequences.
/// An empty string and an invalid escape sequence are errors.
pub fn from_str(s: &str) -> (r: Result<Vec<u8>, XorError>)
    ensures
        s@.len() == 0 ==> (r matches Err(e) && e is ArgParser),
        s@.len() > 0 ==> match unescaped(s@) {
            Option::Some(chars) => r matches Ok(v) && v@ == vstd::utf8::encode_utf8(chars),
            Option::None => r matches Err(e) && e is UnicodeDecode,
        },
{
    if s.is_empty() {
        return Err(XorError::ArgParser { msg: "Empty String".to_owned() });
    }
    match unescape(s) {
        Ok(decoded) => Ok(vstd::slice::slice_to_vec(decoded.as_str().as_bytes())),
        Err(e) => Err(XorError::UnicodeDecode { msg: decode_error_message(&e) }),
    }
}

} // verus!
