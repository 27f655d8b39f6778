//! Display text for raw byte captures: the bytes are read as UTF-8 up to the
//! first ill-formed byte, and control characters are escaped as `\xHH`.

use vstd::prelude::*;
use vstd::string::StringExecFns;
use vstd::utf8::{
    char_u32_cast, decode_first_scalar, is_continuation_byte, is_scalar, pop_first_scalar,
    valid_first_scalar,
};

verus! {

/// The characters of the longest well-formed UTF-8 prefix of `bytes`;
/// whatever follows the first ill-formed byte is dropped.
pub open spec fn utf8_prefix_chars(bytes: Seq<u8>) -> Seq<char>
    decreases bytes.len(),
    via utf8_prefix_chars_decreases
{
    if bytes.len() == 0 || !valid_first_scalar(bytes) {
        Seq::<char>::empty()
    } else {
        seq![decode_first_scalar(bytes) as char] + utf8_prefix_chars(pop_first_scalar(bytes))
    }
}

#[via_fn]
proof fn utf8_prefix_chars_decreases(bytes: Seq<u8>) {
    if bytes.len() != 0 && valid_first_scalar(bytes) {
        assert(vstd::utf8::length_of_first_scalar(bytes) >= 1);
    }
}

/// `c` is a Unicode control character.
pub open spec fn is_control_char(c: char) -> bool {
    (c as u32) < 0x20 || (0x7f <= (c as u32) <= 0x9f)
}

/// How one character is displayed: control characters (the ANSI escape
/// among them) become `\xHH`, anything else stands for itself.
pub open spec fn escape_char(c: char) -> Seq<char> {
    if is_control_char(c) {
        seq!['\\', 'x', crate::hexfmt::hex_char(((c as u32) / 16) as nat), crate::hexfmt::hex_char(
            ((c as u32) % 16) as nat,
        )]
    } else {
        seq![c]
    }
}

/// The display form of a character sequence, each character escaped.
pub open spec fn escape_all(s: Seq<char>) -> Seq<char>
    decreases s.len(),
{
    if s.len() == 0 {
        Seq::<char>::empty()
    } else {
        escape_char(s[0]) + escape_all(s.drop_first())
    }
}

/// The display text of a raw byte capture interpreted as a string.
pub open spec fn string_value_chars(bytes: Seq<u8>) -> Seq<char> {
    escape_all(utf8_prefix_chars(bytes))
}

proof fn lemma_escape_all_concat(a: Seq<char>, b: Seq<char>)
    ensures
        escape_all(a + b) == escape_all(a) + escape_all(b),
    decreases a.len(),
{
    if a.len() == 0 {
        assert(a + b =~= b);
        assert(escape_all(a) =~= Seq::<char>::empty());
        assert(escape_all(a) + escape_all(b) =~= escape_all(b));
    } else {
        lemma_escape_all_concat(a.drop_first(), b);
        assert((a + b)[0] == a[0]);
        assert((a + b).drop_first() =~= a.drop_first() + b);
        assert(escape_all(a + b) =~= escape_all(a) + escape_all(b));
    }
}

/// Relies on `char::from_u32`: every Unicode scalar value converts to the
/// `char` with that value.
#[verifier::external_body]
fn char_from_scalar(u: u32) -> (c: char)
    requires
        is_scalar(u),
    ensures
        c as u32 == u,
{
    char::from_u32(u).unwrap_or('\u{fffd}')
}

/// Relies on `String::push`: appends exactly the given character.
#[verifier::external_body]
pub(crate) fn push_char(s: &mut String, c: char)
    ensures
        final(s)@ == old(s)@ + seq![c],
{
    s.push(c);
}

/// Append the display form of one character.
fn push_escaped(out: &mut String, c: char)
    ensures
        final(out)@ == old(out)@ + escape_char(c),
{
    let u = c as u32;
    if u < 0x20 || (0x7f <= u && u <= 0x9f) {
        proof {
            reveal_strlit("\\x");
            assert("\\x"@ =~= seq!['\\', 'x']);
        }
        out.append("\\x");
        let hi = (u / 16) as u8;
        let lo = (u % 16) as u8;
        out.append(crate::hexfmt::hex_digit_str(hi));
        out.append(crate::hexfmt::hex_digit_str(lo));
        proof {
            assert(final(out)@ =~= old(out)@ + escape_char(c));
        }
    } else {
        push_char(out, c);
        proof {
            assert(final(out)@ =~= old(out)@ + escape_char(c));
        }
    }
}

/// Decode the first scalar of `b` starting at `p`, mirroring what UTF-8
/// validation accepts: the scalar and its width, or `None` at the first
/// ill-formed byte.
fn decode_scalar_at(b: &[u8], p: usize) -> (r: Option<(u32, usize)>)
    requires
        p < b@.len(),
    ensures
        ({
            let s = b@.skip(p as int);
            match r {
                Some((u, w)) => valid_first_scalar(s) && u == decode_first_scalar(s) && w
                    == vstd::utf8::length_of_first_scalar(s) && 1 <= w <= 4 && p + w <= b@.len()
                    && is_scalar(u),
                None => !valid_first_scalar(s),
            }
        }),
{
    let ghost s = b@.skip(p as int);
    let n = b.len();
    let b0 = b[p];
    proof {
        assert(s[0] == b@[p as int]);
    }
    if b0 <= 0x7f {
        let u = b0 as u32;
        proof {
            assert((b0 & 0x7f) == b0) by (bit_vector)
                requires
                    b0 <= 0x7f,
            ;
            assert(vstd::utf8::decode_first_codepoint(s) == u);
            assert(valid_first_scalar(s));
        }
        Some((u, 1))
    } else if 0xc0 <= b0 && b0 <= 0xdf {
        if n - p < 2 {
            return None;
        }
        let b1 = b[p + 1];
        proof {
            assert(s[1] == b@[p + 1]);
        }
        if !(0x80 <= b1 && b1 <= 0xbf) {
            return None;
        }
        let u = (((b0 & 0x1f) as u32) << 6u32) | ((b1 & 0x3f) as u32);
        proof {
            assert(vstd::utf8::decode_first_codepoint(s) == u);
        }
        if u < 0x80 {
            return None;
        }
        proof {
            assert(u < 0xd800) by (bit_vector)
                requires
                    u == (((b0 & 0x1f) as u32) << 6u32) | ((b1 & 0x3f) as u32),
            ;
            assert(valid_first_scalar(s));
        }
        Some((u, 2))
    } else if 0xe0 <= b0 && b0 <= 0xef {
        if n - p < 3 {
            return None;
        }
        let b1 = b[p + 1];
        let b2 = b[p + 2];
        proof {
            assert(s[1] == b@[p + 1]);
            assert(s[2] == b@[p + 2]);
        }
        if !(0x80 <= b1 && b1 <= 0xbf) || !(0x80 <= b2 && b2 <= 0xbf) {
            return None;
        }
        let u = (((b0 & 0x0f) as u32) << 12u32) | (((b1 & 0x3f) as u32) << 6u32) | ((b2
            & 0x3f) as u32);
        proof {
            assert(vstd::utf8::decode_first_codepoint(s) == u);
        }
        if u < 0x800 || (0xd800 <= u && u <= 0xdfff) {
            return None;
        }
        proof {
            assert(u <= 0x10ffff) by (bit_vector)
                requires
                    u == (((b0 & 0x0f) as u32) << 12u32) | (((b1 & 0x3f) as u32) << 6u32) | ((b2
                        & 0x3f) as u32),
            ;
            assert(valid_first_scalar(s));
        }
        Some((u, 3))
    } else if 0xf0 <= b0 && b0 <= 0xf7 {
        if n - p < 4 {
            return None;
        }
        let b1 = b[p + 1];
        let b2 = b[p + 2];
        let b3 = b[p + 3];
        proof {
            assert(s[1] == b@[p + 1]);
            assert(s[2] == b@[p + 2]);
            assert(s[3] == b@[p + 3]);
        }
        if !(0x80 <= b1 && b1 <= 0xbf) || !(0x80 <= b2 && b2 <= 0xbf) || !(0x80 <= b3 && b3
            <= 0xbf) {
            return None;
        }
        let u = (((b0 & 0x07) as u32) << 18u32) | (((b1 & 0x3f) as u32) << 12u32) | (((b2
            & 0x3f) as u32) << 6u32) | ((b3 & 0x3f) as u32);
        proof {
            assert(vstd::utf8::decode_first_codepoint(s) == u);
        }
        if u < 0x10000 || u > 0x10ffff {
            return None;
        }
        proof {
            assert(valid_first_scalar(s));
        }
        Some((u, 4))
    } else {
        proof {
            assert(is_continuation_byte(s[0]) || s[0] > 0xf7);
        }
        None
    }
}

/// Render a raw byte capture for display: the longest well-formed UTF-8
/// prefix, with control characters escaped.
pub fn render_string_value(b: &[u8]) -> (r: String)
    ensures
        r@ == string_value_chars(b@),
{
    let mut out = String::new();
    let n = b.len();
    let mut p: usize = 0;
    proof {
        assert(b@.skip(0) =~= b@);
    }
    while p < n
        invariant
            p <= n,
            n == b@.len(),
            string_value_chars(b@) == out@ + string_value_chars(b@.skip(p as int)),
        decreases n - p,
    {
        let ghost s = b@.skip(p as int);
        match decode_scalar_at(b, p) {
            None => {
                proof {
                    assert(utf8_prefix_chars(s) =~= Seq::<char>::empty());
                    assert(string_value_chars(s) =~= Seq::<char>::empty());
                    assert(out@ =~= out@ + string_value_chars(s));
                }
                return out;
            },
            Some((u, w)) => {
                let c = char_from_scalar(u);
                push_escaped(&mut out, c);
                proof {
                    broadcast use char_u32_cast;

                    assert((u as char) == c);
                    assert(pop_first_scalar(s) =~= b@.skip(p + w));
                    assert(pop_first_scalar(s).len() < s.len());
                    assert(utf8_prefix_chars(s) == seq![c] + utf8_prefix_chars(b@.skip(p + w)));
                    lemma_escape_all_concat(seq![c], utf8_prefix_chars(b@.skip(p + w)));
                    assert(seq![c].drop_first() =~= Seq::<char>::empty());
                    assert(escape_all(Seq::<char>::empty()) =~= Seq::<char>::empty());
                    assert(seq![c][0] == c);
                    assert(escape_all(seq![c]) == escape_char(c) + escape_all(
                        seq![c].drop_first(),
                    ));
                    assert(escape_all(seq![c]) =~= escape_char(c));
                    assert(string_value_chars(s) == escape_char(c) + string_value_chars(
                        b@.skip(p + w),
                    ));
                }
                p = p + w;
            },
        }
    }
    proof {
        assert(b@.skip(n as int) =~= Seq::<u8>::empty());
        assert(string_value_chars(b@.skip(n as int)) =~= Seq::<char>::empty());
        assert(out@ =~= out@ + string_value_chars(b@.skip(n as int)));
    }
    out
}

} // verus!
