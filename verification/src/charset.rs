//! Character set definitions: predefined sets and composition from short
//! letter codes.

use vstd::prelude::*;
use vstd::string::{StrSliceExecFns, StringExecFns};

use crate::error::XorError;

verus! {

/// The lowercase letters.
pub open spec fn lowercase_chars() -> Seq<char> {
    "abcdefghijklmnopqrstuvwxyz"@
}

/// The uppercase letters.
pub open spec fn uppercase_chars() -> Seq<char> {
    "ABCDEFGHIJKLMNOPQRSTUVWXYZ"@
}

/// The decimal digits.
pub open spec fn digit_chars() -> Seq<char> {
    "0123456789"@
}

/// The special (punctuation) characters.
pub open spec fn special_chars() -> Seq<char> {
    "!\"#$%&'()*+,-./:;<=>?@[\\]^_`{|}~"@
}

/// Every printable character, whitespace included.
pub open spec fn printable_chars() -> Seq<char> {
    "0123456789abcdefghijklmnopqrstuvwxyzABCDEFGHIJKLMNOPQRSTUVWXYZ!\"#$%&'()*+,-./:;<=>?@[\\]^_`{|}~ \t\n\r\x0b\x0c"@
}

/// The base32 alphabet with padding.
pub open spec fn base32_chars() -> Seq<char> {
    "ABCDEFGHIJKLMNOPQRSTUVWXYZ234567="@
}

/// The base64 alphabet with padding.
pub open spec fn base64_chars() -> Seq<char> {
    "abcdefghijklmnopqrstuvwxyzABCDEFGHIJKLMNOPQRSTUVWXYZ0123456789/+="@
}

/// The character set a composition letter stands for, if the letter is a
/// known code.
pub open spec fn charset_of_letter(c: char) -> Option<Seq<char>> {
    if c == 'a' {
        Option::Some(lowercase_chars())
    } else if c == 'A' {
        Option::Some(uppercase_chars())
    } else if c == '1' {
        Option::Some(digit_chars())
    } else if c == '!' {
        Option::Some(special_chars())
    } else if c == '*' {
        Option::Some(printable_chars())
    } else {
        Option::None
    }
}

/// The concatenation of the sets named by the letters of `s`; meaningful
/// when every letter is a known code.
pub open spec fn composed_charset(s: Seq<char>) -> Seq<char>
    decreases s.len(),
{
    if s.len() == 0 {
        Seq::empty()
    } else {
        composed_charset(s.drop_last()) + (match charset_of_letter(s.last()) {
            Option::Some(cs) => cs,
            Option::None => Seq::empty(),
        })
    }
}

/// Compare two strings character by character.
pub fn str_eq(a: &str, b: &str) -> (r: bool)
    ensures
        r == (a@ == b@),
{
    let alen = a.unicode_len();
    let blen = b.unicode_len();
    if alen != blen {
        return false;
    }
    let mut i: usize = 0;
    while i < alen
        invariant
            alen == a@.len(),
            a@.len() == b@.len(),
            i <= alen,
            forall|j: int| 0 <= j < i ==> a@[j] == b@[j],
        decreases alen - i,
    {
        if a.get_char(i) != b.get_char(i) {
            return false;
        }
        i = i + 1;
    }
    proof {
        assert(a@ =~= b@);
    }
    true
}

/// Build a character set from its name or from a composition string.
///
/// An empty name means `printable`.  The names `base32`, `base64` and
/// `printable` select the predefined sets; any other string is read letter
/// by letter, each letter naming a set to append, and an unknown letter is
/// an error carrying that letter.
pub fn get_charset(charset: &str) -> (r: Result<String, XorError>)
    ensures
        charset@.len() == 0 ==> (r matches Ok(s) && s@ == printable_chars()),
        charset@ == "base32"@ ==> (r matches Ok(s) && s@ == base32_chars()),
        charset@ == "base64"@ ==> (r matches Ok(s) && s@ == base64_chars()),
        charset@ == "printable"@ ==> (r matches Ok(s) && s@ == printable_chars()),
        (charset@.len() > 0 && charset@ != "base32"@ && charset@ != "base64"@ && charset@
            != "printable"@) ==> match r {
            Ok(s) => (forall|i: int|
                0 <= i < charset@.len() ==> charset_of_letter(#[trigger] charset@[i]) is Some)
                && s@ == composed_charset(charset@),
            Err(e) => exists|i: int|
                {
                    &&& 0 <= i < charset@.len()
                    &&& charset_of_letter(#[trigger] charset@[i]) is None
                    &&& (forall|j: int| 0 <= j < i ==> charset_of_letter(charset@[j]) is Some)
                    &&& e == (XorError::CharsetError { charset: charset@[i] })
                },
        },
{
    proof {
        reveal_strlit("base32");
        reveal_strlit("base64");
        reveal_strlit("printable");
        assert("base32"@[4] != "base64"@[4]);
        assert("base32"@ != "base64"@);
        assert("base32"@.len() != "printable"@.len());
        assert("base32"@ != "printable"@);
        assert("base64"@.len() != "printable"@.len());
        assert("base64"@ != "printable"@);
    }
    let name: &str = if charset.unicode_len() == 0 {
        "printable"
    } else {
        charset
    };
    if str_eq(name, "base32") {
        return Ok("ABCDEFGHIJKLMNOPQRSTUVWXYZ234567=".to_owned());
    }
    if str_eq(name, "base64") {
        return Ok(
            "abcdefghijklmnopqrstuvwxyzABCDEFGHIJKLMNOPQRSTUVWXYZ0123456789/+=".to_owned(),
        );
    }
    if str_eq(name, "printable") {
        return Ok(
            "0123456789abcdefghijklmnopqrstuvwxyzABCDEFGHIJKLMNOPQRSTUVWXYZ!\"#$%&'()*+,-./:;<=>?@[\\]^_`{|}~ \t\n\r\x0b\x0c".to_owned(),
        );
    }
    let mut chars = String::new();
    let n = charset.unicode_len();
    let mut i: usize = 0;
    while i < n
        invariant
            n == charset@.len(),
            charset@.len() > 0,
            charset@ != "base32"@,
            charset@ != "base64"@,
            charset@ != "printable"@,
            i <= n,
            forall|j: int| 0 <= j < i ==> charset_of_letter(#[trigger] charset@[j]) is Some,
            chars@ == composed_charset(charset@.take(i as int)),
        decreases n - i,
    {
        let c = charset.get_char(i);
        if c == 'a' {
            chars.append("abcdefghijklmnopqrstuvwxyz");
        } else if c == 'A' {
            chars.append("ABCDEFGHIJKLMNOPQRSTUVWXYZ");
        } else if c == '1' {
            chars.append("0123456789");
        } else if c == '!' {
            chars.append("!\"#$%&'()*+,-./:;<=>?@[\\]^_`{|}~");
        } else if c == '*' {
            chars.append(
                "0123456789abcdefghijklmnopqrstuvwxyzABCDEFGHIJKLMNOPQRSTUVWXYZ!\"#$%&'()*+,-./:;<=>?@[\\]^_`{|}~ \t\n\r\x0b\x0c",
            );
        } else {
            return Err(XorError::CharsetError { charset: c });
        }
        proof {
            assert(charset@.take(i + 1).drop_last() =~= charset@.take(i as int));
            assert(charset@.take(i + 1).last() == charset@[i as int]);
        }
        i = i + 1;
    }
    proof {
        assert(charset@.take(n as int) =~= charset@);
    }
    Ok(chars)
}

} // verus!
