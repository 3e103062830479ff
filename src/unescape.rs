use vstd::prelude::*;

use crate::model::AsmError;
use crate::text::chars_of;

verus! {

/// The byte that an ordinary character stands for: its code point's low byte.
pub open spec fn char_byte(c: char) -> u8 {
    (c as u32) as u8
}

/// A character from `0` to `9`.
pub open spec fn is_decimal_digit(c: char) -> bool {
    '0' <= c && c <= '9'
}

/// A character from `0` to `7`.
pub open spec fn is_octal_digit(c: char) -> bool {
    '0' <= c && c <= '7'
}

/// The value of a decimal digit character.
pub open spec fn digit_value(c: char) -> int {
    (c as int) - ('0' as int)
}

/// The byte after a backslash that is neither a digit nor `x`.
pub open spec fn escape_byte(c: char) -> u8 {
    if c == 'n' {
        10u8
    } else if c == 'r' {
        13u8
    } else if c == 't' {
        9u8
    } else if c == 'b' {
        8u8
    } else if c == 'f' {
        12u8
    } else {
        char_byte(c)
    }
}

/// The value of a three-digit octal escape.
pub open spec fn octal_value(a: char, b: char, c: char) -> int {
    digit_value(a) * 64 + digit_value(b) * 8 + digit_value(c)
}

/// Puts `b` before the bytes of a successful result.
pub open spec fn prepend(b: u8, r: Result<Seq<u8>, AsmError>) -> Result<Seq<u8>, AsmError> {
    match r {
        Ok(s) => Ok(seq![b] + s),
        Err(e) => Err(e),
    }
}

/// The bytes that the interior of a quoted string stands for, or the first
/// escape that cannot be decoded.
pub open spec fn unescape_body(s: Seq<char>) -> Result<Seq<u8>, AsmError>
    decreases s.len(),
{
    if s.len() == 0 {
        Ok(Seq::empty())
    } else if s[0] != '\\' {
        prepend(char_byte(s[0]), unescape_body(s.skip(1)))
    } else if s.len() < 2 {
        Err(AsmError::MalformedEscape)
    } else if is_decimal_digit(s[1]) {
        if s.len() < 4 || !is_octal_digit(s[1]) || !is_octal_digit(s[2]) || !is_octal_digit(s[3])
            || octal_value(s[1], s[2], s[3]) > 255 {
            Err(AsmError::MalformedEscape)
        } else {
            prepend(octal_value(s[1], s[2], s[3]) as u8, unescape_body(s.skip(4)))
        }
    } else if s[1] == 'x' {
        Err(AsmError::UnsupportedHexEscape)
    } else {
        prepend(escape_byte(s[1]), unescape_body(s.skip(2)))
    }
}

/// Whether a token is a double-quoted string of at least two characters.
pub open spec fn is_quoted(s: Seq<char>) -> bool {
    s.len() >= 2 && s[0] == '"' && s[s.len() - 1] == '"'
}

/// Puts the bytes `p` before a result.
pub open spec fn after(p: Seq<u8>, r: Result<Seq<u8>, AsmError>) -> Result<Seq<u8>, AsmError> {
    match r {
        Ok(s) => Ok(p + s),
        Err(e) => Err(e),
    }
}

/// Pushing a byte onto the decoded prefix is prepending it to the rest.
proof fn lemma_after_push(p: Seq<u8>, b: u8, r: Result<Seq<u8>, AsmError>)
    ensures
        after(p.push(b), r) == after(p, prepend(b, r)),
{
    if let Ok(t) = r {
        assert(p.push(b) + t =~= p + (seq![b] + t));
    }
}

/// Decodes a double-quoted string token into the bytes it stands for.
pub fn unescape_string(s: &str) -> (r: Result<Vec<u8>, AsmError>)
    requires
        is_quoted(s@),
    ensures
        match unescape_body(s@.subrange(1, s@.len() - 1)) {
            Ok(b) => r matches Ok(v) && v@ == b,
            Err(e) => r == Err::<Vec<u8>, AsmError>(e),
        },
{
    let cs = chars_of(s);
    let n = cs.len();
    let end = n - 1;
    let ghost body = s@.subrange(1, end as int);
    let mut out: Vec<u8> = Vec::new();
    let mut i: usize = 1;
    assert(s@.subrange(1, end as int) =~= body);
    while i < end
        invariant
            cs@ == s@,
            n == s@.len(),
            end == n - 1,
            1 <= i <= end,
            body == s@.subrange(1, end as int),
            unescape_body(body) == after(out@, unescape_body(s@.subrange(i as int, end as int))),
        decreases end - i,
    {
        let ghost rest = s@.subrange(i as int, end as int);
        let c = cs[i];
        if c != '\\' {
            assert(rest.skip(1) =~= s@.subrange(i + 1, end as int));
            proof {
                lemma_after_push(out@, char_byte(c), unescape_body(rest.skip(1)));
            }
            out.push(#[verifier::truncate] ((c as u32) as u8));
            i = i + 1;
        } else {
            if i + 1 >= end {
                return Err(AsmError::MalformedEscape);
            }
            let next = cs[i + 1];
            if '0' <= next && next <= '9' {
                if i + 3 >= end {
                    return Err(AsmError::MalformedEscape);
                }
                let b = cs[i + 2];
                let c3 = cs[i + 3];
                if next > '7' || b < '0' || b > '7' || c3 < '0' || c3 > '7' {
                    return Err(AsmError::MalformedEscape);
                }
                let v: u32 = ((next as u32) - 48) * 64 + ((b as u32) - 48) * 8 + ((c3 as u32) - 48);
                if v > 255 {
                    return Err(AsmError::MalformedEscape);
                }
                assert(rest.skip(4) =~= s@.subrange(i + 4, end as int));
                assert(v == octal_value(next, b, c3));
                proof {
                    lemma_after_push(out@, v as u8, unescape_body(rest.skip(4)));
                }
                out.push(v as u8);
                i = i + 4;
            } else if next == 'x' {
                return Err(AsmError::UnsupportedHexEscape);
            } else {
                let byte: u8 = if next == 'n' {
                    10
                } else if next == 'r' {
                    13
                } else if next == 't' {
                    9
                } else if next == 'b' {
                    8
                } else if next == 'f' {
                    12
                } else {
                    #[verifier::truncate] ((next as u32) as u8)
                };
                assert(rest.skip(2) =~= s@.subrange(i + 2, end as int));
                proof {
                    lemma_after_push(out@, byte, unescape_body(rest.skip(2)));
                }
                out.push(byte);
                i = i + 2;
            }
        }
    }
    assert(s@.subrange(end as int, end as int) =~= Seq::<char>::empty());
    assert(out@ + Seq::<u8>::empty() =~= out@);
    Ok(out)
}

} // verus!
