//! Decoding of text payloads (UTF-8, Latin-1, UTF-16) into characters.

use vstd::prelude::*;
use vstd::utf8::{decode_utf8, valid_utf8};

verus! {

/// Characters of Latin-1 text: each byte is the code point of its character.
pub open spec fn latin1(b: Seq<u8>) -> Seq<char> {
    Seq::new(b.len(), |i: int| b[i] as char)
}

/// Decoding of UTF-16 code units: a high surrogate (`D800`-`DBFF`) followed
/// by a low surrogate (`DC00`-`DFFF`) forms one character, any other unit
/// outside the surrogates is a character by itself, and an unpaired
/// surrogate makes the text invalid.
pub open spec fn utf16_decode(units: Seq<u16>) -> Option<Seq<char>>
    decreases units.len(),
{
    if units.len() == 0 {
        Some(Seq::empty())
    } else {
        let u = units[0];
        if 0xD800 <= u < 0xDC00 {
            if units.len() >= 2 && 0xDC00 <= units[1] < 0xE000 {
                let c = (0x10000 + (u - 0xD800) * 0x400 + (units[1] - 0xDC00)) as u32;
                match utf16_decode(units.skip(2)) {
                    Some(rest) => Some(seq![c as char] + rest),
                    None => None,
                }
            } else {
                None
            }
        } else if 0xDC00 <= u < 0xE000 {
            None
        } else {
            match utf16_decode(units.skip(1)) {
                Some(rest) => Some(seq![(u as u32) as char] + rest),
                None => None,
            }
        }
    }
}

/// The characters without their trailing NUL characters.
pub open spec fn trim_nuls(s: Seq<char>) -> Seq<char>
    decreases s.len(),
{
    if s.len() > 0 && s.last() == '\0' {
        trim_nuls(s.drop_last())
    } else {
        s
    }
}

/// `s` is `c` with its trailing NUL characters cut off: a prefix of `c`
/// after which `c` holds only NULs, and which itself ends in no NUL.
pub open spec fn is_nul_trim_of(s: Seq<char>, c: Seq<char>) -> bool {
    &&& s.is_prefix_of(c)
    &&& forall|i: int| s.len() <= i < c.len() ==> #[trigger] c[i] == '\0'
    &&& (s.len() == 0 || s.last() != '\0')
}

/// Cutting the trailing NULs leaves a prefix that ends in no NUL and after
/// which only NULs stood.
pub proof fn lemma_trim_nuls(c: Seq<char>)
    ensures
        is_nul_trim_of(trim_nuls(c), c),
    decreases c.len(),
{
    if c.len() > 0 && c.last() == '\0' {
        let t = c.drop_last();
        lemma_trim_nuls(t);
        let s = trim_nuls(c);
        assert(s == trim_nuls(t));
        assert forall|i: int| s.len() <= i < c.len() implies #[trigger] c[i] == '\0' by {
            if i < t.len() {
                assert(t[i] == c[i]);
            }
        }
        assert forall|i: int| 0 <= i < s.len() implies s[i] == c[i] by {
            assert(s[i] == t[i]);
        }
    }
}

/// Calls `std::str::from_utf8` on `bytes`. Trusted: it succeeds exactly
/// when the bytes are valid UTF-8, and the text then holds the characters
/// they encode (as `str` documents); the text is handed back as characters.
#[verifier::external_body]
pub fn utf8_chars(bytes: &[u8]) -> (r: Option<Vec<char>>)
    ensures
        match r {
            Some(c) => valid_utf8(bytes@) && c@ == decode_utf8(bytes@),
            None => !valid_utf8(bytes@),
        },
{
    match std::str::from_utf8(bytes) {
        Ok(s) => Some(s.chars().collect()),
        Err(_) => None,
    }
}

/// Calls `String::from_utf16` on `units`. Trusted: it succeeds exactly when
/// the units contain no unpaired surrogate, and the text then holds the
/// characters they encode (as `String` documents); the text is handed back
/// as characters.
#[verifier::external_body]
pub fn utf16_chars(units: &[u16]) -> (r: Option<Vec<char>>)
    ensures
        match r {
            Some(c) => utf16_decode(units@) == Some(c@),
            None => utf16_decode(units@) is None,
        },
{
    match String::from_utf16(units) {
        Ok(s) => Some(s.chars().collect()),
        Err(_) => None,
    }
}

/// Calls `String::from_iter` on the characters. Trusted: the string holds
/// exactly those characters, in order.
#[verifier::external_body]
pub fn string_from_chars(chars: &[char]) -> (s: String)
    ensures
        s@ == chars@,
{
    String::from_iter(chars.iter())
}

/// Remove the trailing NUL characters.
pub fn trim_trailing_nuls(chars: &mut Vec<char>)
    ensures
        final(chars)@ == trim_nuls(old(chars)@),
{
    while chars.len() > 0 && chars[chars.len() - 1] == '\0'
        invariant
            trim_nuls(chars@) == trim_nuls(old(chars)@),
        decreases chars.len(),
    {
        let n = chars.len() - 1;
        chars.truncate(n);
    }
}

/// The characters of Latin-1 text.
pub fn latin1_chars(bytes: &[u8]) -> (r: Vec<char>)
    ensures
        r@ == latin1(bytes@),
{
    let mut out: Vec<char> = Vec::with_capacity(bytes.len());
    let mut i: usize = 0;
    while i < bytes.len()
        invariant
            0 <= i <= bytes@.len(),
            out@ == latin1(bytes@.take(i as int)),
        decreases bytes@.len() - i,
    {
        out.push(bytes[i] as char);
        i = i + 1;
        assert(out@ =~= latin1(bytes@.take(i as int)));
    }
    assert(bytes@.take(bytes@.len() as int) =~= bytes@);
    out
}

} // verus!
