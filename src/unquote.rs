use vstd::prelude::*;
use crate::chars::{chars_of, is_scalar};
use crate::text::text_of;
use crate::value::{Json, JsonModel};

verus! {

/// Why a text could not be decoded.
#[derive(Clone, Copy, Debug, PartialEq, Eq, Structural)]
pub enum UnquoteError {
    /// A backslash ends the text, or `\u` has fewer than four characters after it.
    MalformedEscape,
    /// The four characters after `\u` are not hex digits, or name no character.
    InvalidUnicodeEscape,
}

pub open spec fn is_hex_digit(c: char) -> bool {
    ('0' <= c && c <= '9') || ('a' <= c && c <= 'f') || ('A' <= c && c <= 'F')
}

pub open spec fn hex_digit_value(c: char) -> int {
    if '0' <= c && c <= '9' {
        c as int - '0' as int
    } else if 'a' <= c && c <= 'f' {
        c as int - 'a' as int + 10
    } else {
        c as int - 'A' as int + 10
    }
}

/// The number that a run of hex digits writes, most significant first.
pub open spec fn hex_number(s: Seq<char>) -> int
    decreases s.len(),
{
    if s.len() == 0 {
        0
    } else {
        hex_number(s.drop_last()) * 16 + hex_digit_value(s.last())
    }
}

/// Whether `s` is a non-empty run of hex digits naming a character.
pub open spec fn valid_unicode_escape(s: Seq<char>) -> bool {
    &&& s.len() > 0
    &&& forall|i: int| 0 <= i < s.len() ==> is_hex_digit(#[trigger] s[i])
    &&& is_scalar(hex_number(s))
}

/// What the character after a backslash stands for (other than `u`).
pub open spec fn escaped(c: char) -> char {
    if c == 'b' {
        '\x08'
    } else if c == 'f' {
        '\x0C'
    } else if c == 'n' {
        '\x0A'
    } else if c == 'r' {
        '\x0D'
    } else if c == 't' {
        '\x0B'
    } else {
        c
    }
}

pub open spec fn with_prefix(p: Seq<char>, r: Result<Seq<char>, UnquoteError>) -> Result<
    Seq<char>,
    UnquoteError,
> {
    match r {
        Ok(t) => Ok(p + t),
        Err(e) => Err(e),
    }
}

/// The decoded form of `s`, or the first failure met scanning from the left.
pub open spec fn unquoted(s: Seq<char>) -> Result<Seq<char>, UnquoteError>
    decreases s.len(),
{
    if s.len() == 0 {
        Ok(Seq::empty())
    } else if s[0] != '\\' {
        with_prefix(seq![s[0]], unquoted(s.drop_first()))
    } else if s.len() == 1 {
        Err(UnquoteError::MalformedEscape)
    } else if s[1] == 'u' {
        if s.len() < 6 {
            Err(UnquoteError::MalformedEscape)
        } else if !valid_unicode_escape(s.subrange(2, 6)) {
            Err(UnquoteError::InvalidUnicodeEscape)
        } else {
            with_prefix(seq![hex_number(s.subrange(2, 6)) as u32 as char], unquoted(s.skip(6)))
        }
    } else {
        with_prefix(seq![escaped(s[1])], unquoted(s.skip(2)))
    }
}

/// Reads `s` as hex digits naming a character.
pub fn decode_escaped_unicode(s: &str) -> (r: Result<char, UnquoteError>)
    ensures
        match r {
            Ok(c) => valid_unicode_escape(s@) && c as u32 == hex_number(s@),
            Err(e) => !valid_unicode_escape(s@) && e == UnquoteError::InvalidUnicodeEscape,
        },
{
    let cs = chars_of(s);
    if cs.len() == 0 {
        return Err(UnquoteError::InvalidUnicodeEscape);
    }
    let mut value: u32 = 0;
    let mut i: usize = 0;
    while i < cs.len()
        invariant
            cs@ == s@,
            0 <= i <= cs@.len(),
            value as int == hex_number(cs@.take(i as int)),
            value <= 0x10FFFF,
            forall|k: int| 0 <= k < i ==> is_hex_digit(#[trigger] cs@[k]),
        decreases cs@.len() - i,
    {
        let c = cs[i];
        let d: u32 = if '0' <= c && c <= '9' {
            (c as u32) - ('0' as u32)
        } else if 'a' <= c && c <= 'f' {
            (c as u32) - ('a' as u32) + 10
        } else if 'A' <= c && c <= 'F' {
            (c as u32) - ('A' as u32) + 10
        } else {
            return Err(UnquoteError::InvalidUnicodeEscape);
        };
        proof {
            let t = cs@.take(i + 1);
            assert(t.drop_last() =~= cs@.take(i as int));
            assert(t.last() == c);
        }
        if value > 0x10FFFF / 16 {
            proof {
                lemma_hex_number_bound(cs@, i as int + 1);
            }
            return Err(UnquoteError::InvalidUnicodeEscape);
        }
        value = value * 16 + d;
        if value > 0x10FFFF {
            proof {
                lemma_hex_number_bound(cs@, i as int + 1);
            }
            return Err(UnquoteError::InvalidUnicodeEscape);
        }
        i = i + 1;
    }
    assert(cs@.take(i as int) =~= cs@);
    match core::char::from_u32(value) {
        Some(c) => Ok(c),
        None => Err(UnquoteError::InvalidUnicodeEscape),
    }
}


proof fn lemma_with_prefix_join(a: Seq<char>, b: Seq<char>, r: Result<Seq<char>, UnquoteError>)
    ensures
        with_prefix(a, with_prefix(b, r)) == with_prefix(a + b, r),
{
    if let Ok(t) = r {
        assert(a + (b + t) =~= (a + b) + t);
    }
}

fn escape_char(c: char) -> (r: char)
    ensures
        r == escaped(c),
{
    if c == 'b' {
        '\x08'
    } else if c == 'f' {
        '\x0C'
    } else if c == 'n' {
        '\x0A'
    } else if c == 'r' {
        '\x0D'
    } else if c == 't' {
        '\x0B'
    } else {
        c
    }
}

/// Decodes the backslash escapes of `s`.
pub fn unquote_string(s: &str) -> (r: Result<String, UnquoteError>)
    ensures
        match r {
            Ok(t) => unquoted(s@) == Ok::<Seq<char>, UnquoteError>(t@),
            Err(e) => unquoted(s@) == Err::<Seq<char>, UnquoteError>(e),
        },
{
    let cs = chars_of(s);
    let mut ret = String::new();
    let mut i: usize = 0;
    proof {
        if let Ok(t) = unquoted(s@) {
            assert(Seq::<char>::empty() + t =~= t);
        }
        assert(cs@.skip(0) =~= cs@);
    }
    while i < cs.len()
        invariant
            cs@ == s@,
            0 <= i <= cs@.len(),
            unquoted(s@) == with_prefix(ret@, unquoted(cs@.skip(i as int))),
        decreases cs@.len() - i,
    {
        let ghost t = cs@.skip(i as int);
        let ghost before = ret@;
        let ch = cs[i];
        assert(t[0] == ch);
        if ch == '\\' {
            if i + 1 >= cs.len() {
                return Err(UnquoteError::MalformedEscape);
            }
            let c = cs[i + 1];
            assert(t[1] == c);
            if c == 'u' {
                if cs.len() - i < 6 {
                    return Err(UnquoteError::MalformedEscape);
                }
                let mut unicode = String::new();
                unicode.push(cs[i + 2]);
                unicode.push(cs[i + 3]);
                unicode.push(cs[i + 4]);
                unicode.push(cs[i + 5]);
                assert(unicode@ =~= t.subrange(2, 6));
                match decode_escaped_unicode(unicode.as_str()) {
                    Ok(u) => {
                        ret.push(u);
                        proof {
                            vstd::utf8::char_u32_cast(u, u as u32);
                            assert(t.skip(6) =~= cs@.skip(i + 6));
                            assert(valid_unicode_escape(t.subrange(2, 6)));
                            assert(hex_number(t.subrange(2, 6)) as u32 as char == u);
                            assert(unquoted(t) == with_prefix(seq![u], unquoted(t.skip(6))));
                            lemma_with_prefix_join(before, seq![u], unquoted(t.skip(6)));
                            assert(ret@ =~= before + seq![u]);
                        }
                        i = i + 6;
                    },
                    Err(e) => {
                        return Err(e);
                    },
                }
            } else {
                ret.push(escape_char(c));
                proof {
                    assert(t.skip(2) =~= cs@.skip(i + 2));
                    lemma_with_prefix_join(before, seq![escaped(c)], unquoted(t.skip(2)));
                    assert(ret@ =~= before + seq![escaped(c)]);
                }
                i = i + 2;
            }
        } else {
            ret.push(ch);
            proof {
                assert(t.drop_first() =~= cs@.skip(i + 1));
                lemma_with_prefix_join(before, seq![ch], unquoted(t.drop_first()));
                assert(ret@ =~= before + seq![ch]);
            }
            i = i + 1;
        }
    }
    proof {
        assert(cs@.skip(i as int) =~= Seq::<char>::empty());
        assert(ret@ + Seq::<char>::empty() =~= ret@);
    }
    Ok(ret)
}


impl Json {
    /// A string's text with its escapes decoded; any other value's text form.
    pub fn unquote(&self) -> (r: Result<String, UnquoteError>)
        ensures
            match self@ {
                JsonModel::String(s) => match r {
                    Ok(t) => unquoted(s) == Ok::<Seq<char>, UnquoteError>(t@),
                    Err(e) => unquoted(s) == Err::<Seq<char>, UnquoteError>(e),
                },
                _ => r matches Ok(t) && t@ == text_of(self@),
            },
    {
        match self {
            Json::String(s) => unquote_string(s.as_str()),
            _ => Ok(self.to_text()),
        }
    }
}

/// Once the digits read so far exceed the largest code point, the whole run does too.
proof fn lemma_hex_number_bound(s: Seq<char>, n: int)
    requires
        0 < n <= s.len(),
        hex_number(s.take(n)) > 0x10FFFF,
        forall|k: int| 0 <= k < n ==> is_hex_digit(#[trigger] s[k]),
    ensures
        !valid_unicode_escape(s),
    decreases s.len() - n,
{
    if n < s.len() && is_hex_digit(s[n]) {
        assert(s.take(n + 1).drop_last() =~= s.take(n));
        lemma_hex_number_bound(s, n + 1);
    } else if n == s.len() {
        assert(s.take(n) =~= s);
    }
}

} // verus!
