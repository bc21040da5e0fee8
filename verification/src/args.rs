//! Parameters of the analysis tool and the parsing of its byte-valued
//! arguments.  The command line front end fills the structure in and hands
//! it to the analysis.

use vstd::prelude::*;
use vstd::string::StringSliceAdditionalSpecFns;

use crate::error::XorError;
use crate::routine::{hex_value, is_hex_digit};

verus! {

/// Parameters steering one analysis run.
pub struct Parameters {
    /// Brute force all possible most frequent chars.
    pub brute_chars: bool,
    /// Same as brute forcing, but only over printable chars.
    pub brute_printable: bool,
    /// Name of the file holding the ciphertext.
    pub filename: String,
    /// Filter outputs based on the charset.
    pub filter_output: bool,
    /// The input is a hex-encoded string.
    pub input_is_hex: bool,
    /// Length of the key, when known.
    pub known_key_length: Option<i32>,
    /// Maximum key length to probe.
    pub max_key_length: Option<i32>,
    /// Most frequent char, when known.
    pub most_frequent_char: Option<u8>,
    /// Target text character set.
    pub text_charset: Vec<u8>,
    /// Known plaintext to use for decoding.
    pub known_plain: Option<Vec<u8>>,
    /// Threshold validity percentage.
    pub threshold: Option<i32>,
}

impl Default for Parameters {
    /// All flags off, nothing known, an empty charset.
    fn default() -> (r: Self)
        ensures
            !r.brute_chars,
            !r.brute_printable,
            r.filename@.len() == 0,
            !r.filter_output,
            !r.input_is_hex,
            r.known_key_length is None,
            r.max_key_length is None,
            r.most_frequent_char is None,
            r.text_charset@.len() == 0,
            r.known_plain is None,
            r.threshold is None,
    {
        Parameters {
            brute_chars: false,
            brute_printable: false,
            filename: String::new(),
            filter_output: false,
            input_is_hex: false,
            known_key_length: Option::None,
            max_key_length: Option::None,
            most_frequent_char: Option::None,
            text_charset: Vec::new(),
            known_plain: Option::None,
            threshold: Option::None,
        }
    }
}

/// The argument bytes with a leading `0x`, then a leading `\x`, stripped.
pub open spec fn strip_hex_prefixes(b: Seq<u8>) -> Seq<u8> {
    let b1 = if b.len() >= 2 && b[0] == 0x30 && b[1] == 0x78 {
        b.skip(2)
    } else {
        b
    };
    if b1.len() >= 2 && b1[0] == 0x5c && b1[1] == 0x78 {
        b1.skip(2)
    } else {
        b1
    }
}

/// The remainder parses as at most two hex digits, with an optional
/// leading plus sign before a single digit.
pub open spec fn hex_pair_ok(b: Seq<u8>) -> bool {
    ||| (b.len() == 1 && is_hex_digit(b[0]))
    ||| (b.len() == 2 && b[0] == 0x2b && is_hex_digit(b[1]))
    ||| (b.len() == 2 && is_hex_digit(b[0]) && is_hex_digit(b[1]))
}

/// The byte value the remainder stands for.
pub open spec fn hex_pair_value(b: Seq<u8>) -> int {
    if b.len() == 1 {
        hex_value(b[0])
    } else if b[0] == 0x2b {
        hex_value(b[1])
    } else {
        hex_value(b[0]) * 16 + hex_value(b[1])
    }
}

/// Parse the most-frequent-char argument into a byte: a single character
/// stands for itself, anything else is read as a hex code, allowing a
/// `0x` or `\x` prefix.
pub fn parse_most_frequent(arg: &str) -> (r: Result<u8, XorError>)
    requires
        ({
            let rem = strip_hex_prefixes(arg.spec_bytes());
            arg.spec_bytes().len() != 1 && 1 <= rem.len() <= 2 ==> hex_pair_ok(rem)
        }),
    ensures
        arg.spec_bytes().len() == 1 ==> (r matches Ok(v) && v == arg.spec_bytes()[0]),
        ({
            let rem = strip_hex_prefixes(arg.spec_bytes());
            &&& (arg.spec_bytes().len() != 1 && rem.len() == 0) ==> (r matches Err(e)
                && e is ArgParser)
            &&& (arg.spec_bytes().len() != 1 && rem.len() > 2) ==> (r matches Err(e)
                && e is ArgParser)
            &&& (arg.spec_bytes().len() != 1 && 1 <= rem.len() <= 2) ==> (r matches Ok(v) && v
                == hex_pair_value(rem))
        }),
{
    let bytes = arg.as_bytes();
    let ghost b0 = bytes@;
    if bytes.len() == 1 {
        return Ok(bytes[0]);
    }
    let mut start: usize = 0;
    if bytes.len() >= 2 && bytes[0] == 0x30 && bytes[1] == 0x78 {
        start = 2;
    }
    if bytes.len() >= start + 2 && bytes[start] == 0x5c && bytes[start + 1] == 0x78 {
        start = start + 2;
    }
    let ghost rem = strip_hex_prefixes(b0);
    proof {
        assert(rem =~= b0.skip(start as int));
    }
    let remaining = bytes.len() - start;
    if remaining == 0 {
        return Err(XorError::ArgParser { msg: "Empty Char".to_owned() });
    }
    if remaining > 2 {
        return Err(XorError::ArgParser { msg: "Char can only be a char letter or hex".to_owned() });
    }
    let first = bytes[start];
    if remaining == 1 {
        proof {
            assert(rem[0] == b0[start as int]);
        }
        return Ok(hex_digit_value(first));
    }
    let second = bytes[start + 1];
    proof {
        assert(rem[0] == b0[start as int]);
        assert(rem[1] == b0[start + 1]);
    }
    if first == 0x2b {
        return Ok(hex_digit_value(second));
    }
    Ok(hex_digit_value(first) * 16 + hex_digit_value(second))
}

/// The numeric value of one hex digit byte.
fn hex_digit_value(b: u8) -> (r: u8)
    requires
        is_hex_digit(b),
    ensures
        r == hex_value(b),
        r <= 15,
{
    if 0x30 <= b && b <= 0x39 {
        b - 0x30
    } else if 0x61 <= b && b <= 0x66 {
        b - 0x61 + 10
    } else {
        b - 0x41 + 10
    }
}

/// Convert a string argument to its bytes; an empty string is an error.
pub fn str_to_bytes(arg: &str) -> (r: Result<Vec<u8>, XorError>)
    ensures
        arg@.len() == 0 ==> (r matches Err(e) && e is ArgParser),
        arg@.len() > 0 ==> (r matches Ok(v) && v@ == arg.spec_bytes()),
{
    if arg.is_empty() {
        Err(XorError::ArgParser { msg: "Empty String".to_owned() })
    } else {
        Ok(vstd::slice::slice_to_vec(arg.as_bytes()))
    }
}

/// The hypothesis bytes one analysis run will try: every byte value in
/// brute mode, the printable bytes in printable mode, the single supplied
/// byte when one is known, and nothing otherwise.
pub fn select_try_chars(param: &Parameters) -> (r: Option<Vec<u8>>)
    ensures
        param.brute_chars ==> (r matches Some(v) && v@.len() == 256 && (forall|i: int|
            0 <= i < 256 ==> v@[i] == i as u8)),
        !param.brute_chars && param.brute_printable ==> (r matches Some(v) && v@
            == vstd::utf8::encode_utf8(crate::charset::printable_chars())),
        (!param.brute_chars && !param.brute_printable && param.most_frequent_char is Some) ==> (
        r matches Some(v) && v@ == seq![param.most_frequent_char.unwrap()]),
        !param.brute_chars && !param.brute_printable && param.most_frequent_char is None ==> r
            is None,
{
    if param.brute_chars {
        let mut v: Vec<u8> = Vec::new();
        let mut b: u32 = 0;
        while b < 256
            invariant
                b <= 256,
                v@.len() == b,
                forall|i: int| 0 <= i < b ==> v@[i] == i as u8,
            decreases 256 - b,
        {
            v.push(b as u8);
            b = b + 1;
        }
        return Some(v);
    }
    if param.brute_printable {
        let printable: &str =
            "0123456789abcdefghijklmnopqrstuvwxyzABCDEFGHIJKLMNOPQRSTUVWXYZ!\"#$%&'()*+,-./:;<=>?@[\\]^_`{|}~ \t\n\r\x0b\x0c";
        return Some(vstd::slice::slice_to_vec(printable.as_bytes()));
    }
    match param.most_frequent_char {
        Some(c) => {
            let mut v: Vec<u8> = Vec::new();
            v.push(c);
            proof {
                assert(v@ =~= seq![c]);
            }
            Some(v)
        },
        None => None,
    }
}

} // verus!
