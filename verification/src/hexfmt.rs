//! Hexadecimal text: byte-buffer encoding and decoding for the hex value
//! type, and reading hex addresses entered by the user.

use vstd::prelude::*;
use vstd::string::StrSliceExecFns;
use vstd::string::StringExecFns;
use vstd::utf8::{char_is_scalar, char_u32_cast};

verus! {

/// `c` is a hexadecimal digit, of either case.
pub open spec fn is_hex_digit(c: char) -> bool {
    ||| 48 <= (c as u32) <= 57
    ||| 97 <= (c as u32) <= 102
    ||| 65 <= (c as u32) <= 70
}

/// The numeric value of a hexadecimal digit character.
pub open spec fn hex_digit_val(c: char) -> nat {
    if 48 <= (c as u32) <= 57 {
        ((c as u32) - 48) as nat
    } else if 97 <= (c as u32) <= 102 {
        ((c as u32) - 87) as nat
    } else if 65 <= (c as u32) <= 70 {
        ((c as u32) - 55) as nat
    } else {
        0
    }
}

/// The lowercase hexadecimal digit character for `n` in `0..16`.
pub open spec fn hex_char(n: nat) -> char {
    if n % 16 < 10 {
        (((48 + n % 16) as u32) as char)
    } else {
        (((87 + n % 16) as u32) as char)
    }
}

/// Every character of `s` is a hexadecimal digit.
pub open spec fn all_hex_digits(s: Seq<char>) -> bool {
    forall|i: int| 0 <= i < s.len() ==> is_hex_digit(#[trigger] s[i])
}

/// Lowercase hexadecimal text of a byte buffer, two digits per byte,
/// no prefix.
pub open spec fn hex_of_bytes(b: Seq<u8>) -> Seq<char>
    decreases b.len(),
{
    if b.len() == 0 {
        Seq::<char>::empty()
    } else {
        seq![hex_char((b.first() >> 4) as nat), hex_char((b.first() & 0x0f) as nat)]
            + hex_of_bytes(b.drop_first())
    }
}

/// The bytes read from an even-length hex digit string, one byte per
/// digit pair.
pub open spec fn bytes_of_hex(s: Seq<char>) -> Seq<u8>
    decreases s.len(),
{
    if s.len() < 2 {
        Seq::<u8>::empty()
    } else {
        seq![((hex_digit_val(s[0]) * 16 + hex_digit_val(s[1])) % 256) as u8] + bytes_of_hex(
            s.skip(2),
        )
    }
}

/// The numeric value of a hex digit string, most significant digit first.
pub open spec fn hex_val(s: Seq<char>) -> nat
    decreases s.len(),
{
    if s.len() == 0 {
        0
    } else {
        hex_val(s.drop_last()) * 16 + hex_digit_val(s.last())
    }
}

/// `s` with every leading repetition of `0x` removed.
pub open spec fn strip_hex_prefix(s: Seq<char>) -> Seq<char>
    decreases s.len(),
{
    if s.len() >= 2 && s[0] == '0' && s[1] == 'x' {
        strip_hex_prefix(s.skip(2))
    } else {
        s
    }
}

proof fn lemma_hex_char_val(n: nat)
    requires
        n < 16,
    ensures
        is_hex_digit(hex_char(n)),
        hex_digit_val(hex_char(n)) == n,
{
    broadcast use char_u32_cast, char_is_scalar;

    if n < 10 {
        let u: u32 = (48 + n) as u32;
        assert((u as char) as u32 == u) by {
            assert(u < 0xD800);
        }
    } else {
        let u: u32 = (87 + n) as u32;
        assert((u as char) as u32 == u) by {
            assert(u < 0xD800);
        }
    }
}

/// Encoding distributes over concatenation.
proof fn lemma_hex_of_bytes_concat(a: Seq<u8>, b: Seq<u8>)
    ensures
        hex_of_bytes(a + b) == hex_of_bytes(a) + hex_of_bytes(b),
    decreases a.len(),
{
    if a.len() == 0 {
        assert(a + b =~= b);
        assert(hex_of_bytes(a) =~= Seq::<char>::empty());
        assert(hex_of_bytes(a) + hex_of_bytes(b) =~= hex_of_bytes(b));
    } else {
        lemma_hex_of_bytes_concat(a.drop_first(), b);
        assert((a + b).first() == a.first());
        assert((a + b).drop_first() =~= a.drop_first() + b);
        assert(hex_of_bytes(a + b) =~= hex_of_bytes(a) + hex_of_bytes(b));
    }
}

/// Decoding distributes over concatenation at a digit-pair boundary.
proof fn lemma_bytes_of_hex_concat(a: Seq<char>, b: Seq<char>)
    requires
        a.len() % 2 == 0,
    ensures
        bytes_of_hex(a + b) == bytes_of_hex(a) + bytes_of_hex(b),
    decreases a.len(),
{
    if a.len() == 0 {
        assert(a + b =~= b);
        assert(bytes_of_hex(a) =~= Seq::<u8>::empty());
        assert(bytes_of_hex(a) + bytes_of_hex(b) =~= bytes_of_hex(b));
    } else {
        lemma_bytes_of_hex_concat(a.skip(2), b);
        assert((a + b)[0] == a[0]);
        assert((a + b)[1] == a[1]);
        assert((a + b).skip(2) =~= a.skip(2) + b);
        assert(bytes_of_hex(a + b) =~= bytes_of_hex(a) + bytes_of_hex(b));
    }
}

/// Decoding inverts encoding: `bytes_of_hex(hex_of_bytes(b)) == b`,
/// and the encoding is always a well-formed even-length digit string.
pub proof fn lemma_hex_round_trip(b: Seq<u8>)
    ensures
        bytes_of_hex(hex_of_bytes(b)) == b,
        hex_of_bytes(b).len() == 2 * b.len(),
        all_hex_digits(hex_of_bytes(b)),
    decreases b.len(),
{
    if b.len() == 0 {
        assert(bytes_of_hex(hex_of_bytes(b)) =~= b);
    } else {
        lemma_hex_round_trip(b.drop_first());
        let x = b.first();
        assert((x >> 4) < 16 && (x & 0x0f) < 16 && (x >> 4) * 16 + (x & 0x0f) == x)
            by (bit_vector);
        let hi = (x >> 4) as nat;
        let lo = (x & 0x0f) as nat;
        lemma_hex_char_val(hi);
        lemma_hex_char_val(lo);
        let s = hex_of_bytes(b);
        let pair = seq![hex_char(hi), hex_char(lo)];
        assert(s == pair + hex_of_bytes(b.drop_first()));
        assert(s[0] == hex_char(hi) && s[1] == hex_char(lo));
        assert(s.skip(2) =~= hex_of_bytes(b.drop_first()));
        assert(bytes_of_hex(s) =~= b);
        assert forall|i: int| 0 <= i < s.len() implies is_hex_digit(#[trigger] s[i]) by {
            if i >= 2 {
                assert(s[i] == hex_of_bytes(b.drop_first())[i - 2]);
            }
        }
    }
}

/// The hexadecimal text of one digit value, lowercase.
pub(crate) fn hex_digit_str(d: u8) -> (r: &'static str)
    requires
        d < 16,
    ensures
        r@ == seq![hex_char(d as nat)],
{
    proof {
        lemma_hex_char_val(d as nat);
        broadcast use char_u32_cast;

    }
    if d == 0 {
        proof {
            reveal_strlit("0");
        }
        assert("0"@ =~= seq![hex_char(0)]);
        "0"
    } else if d == 1 {
        proof {
            reveal_strlit("1");
        }
        assert("1"@ =~= seq![hex_char(1)]);
        "1"
    } else if d == 2 {
        proof {
            reveal_strlit("2");
        }
        assert("2"@ =~= seq![hex_char(2)]);
        "2"
    } else if d == 3 {
        proof {
            reveal_strlit("3");
        }
        assert("3"@ =~= seq![hex_char(3)]);
        "3"
    } else if d == 4 {
        proof {
            reveal_strlit("4");
        }
        assert("4"@ =~= seq![hex_char(4)]);
        "4"
    } else if d == 5 {
        proof {
            reveal_strlit("5");
        }
        assert("5"@ =~= seq![hex_char(5)]);
        "5"
    } else if d == 6 {
        proof {
            reveal_strlit("6");
        }
        assert("6"@ =~= seq![hex_char(6)]);
        "6"
    } else if d == 7 {
        proof {
            reveal_strlit("7");
        }
        assert("7"@ =~= seq![hex_char(7)]);
        "7"
    } else if d == 8 {
        proof {
            reveal_strlit("8");
        }
        assert("8"@ =~= seq![hex_char(8)]);
        "8"
    } else if d == 9 {
        proof {
            reveal_strlit("9");
        }
        assert("9"@ =~= seq![hex_char(9)]);
        "9"
    } else if d == 10 {
        proof {
            reveal_strlit("a");
        }
        assert("a"@ =~= seq![hex_char(10)]);
        "a"
    } else if d == 11 {
        proof {
            reveal_strlit("b");
        }
        assert("b"@ =~= seq![hex_char(11)]);
        "b"
    } else if d == 12 {
        proof {
            reveal_strlit("c");
        }
        assert("c"@ =~= seq![hex_char(12)]);
        "c"
    } else if d == 13 {
        proof {
            reveal_strlit("d");
        }
        assert("d"@ =~= seq![hex_char(13)]);
        "d"
    } else if d == 14 {
        proof {
            reveal_strlit("e");
        }
        assert("e"@ =~= seq![hex_char(14)]);
        "e"
    } else {
        proof {
            reveal_strlit("f");
        }
        assert("f"@ =~= seq![hex_char(15)]);
        "f"
    }
}

/// Render a byte buffer as lowercase hexadecimal text, no prefix.
pub fn hex_encode_bytes(b: &[u8]) -> (r: String)
    ensures
        r@ == hex_of_bytes(b@),
{
    let mut out = String::new();
    let n = b.len();
    let mut i: usize = 0;
    while i < n
        invariant
            n == b@.len(),
            i <= n,
            out@ == hex_of_bytes(b@.take(i as int)),
        decreases n - i,
    {
        let x = b[i];
        let hi = x >> 4;
        let lo = x & 0x0f;
        proof {
            assert(hi < 16 && lo < 16) by (bit_vector)
                requires
                    hi == x >> 4,
                    lo == x & 0x0f,
            ;
        }
        out.append(hex_digit_str(hi));
        out.append(hex_digit_str(lo));
        proof {
            let a = b@.take(i as int);
            let one = seq![b@[i as int]];
            assert(b@.take(i + 1) =~= a + one);
            lemma_hex_of_bytes_concat(a, one);
            assert(one.first() == b@[i as int]);
            assert(one.drop_first() =~= Seq::<u8>::empty());
            assert(hex_of_bytes(Seq::<u8>::empty()) =~= Seq::<char>::empty());
            assert(hex_of_bytes(one) == seq![
                hex_char((one.first() >> 4) as nat),
                hex_char((one.first() & 0x0f) as nat),
            ] + hex_of_bytes(one.drop_first()));
            assert(hex_of_bytes(one) =~= seq![hex_char(hi as nat), hex_char(lo as nat)]);
        }
        i = i + 1;
    }
    proof {
        assert(b@.take(n as int) =~= b@);
    }
    out
}

/// The value of one hexadecimal digit character, or `None`.
fn hex_digit_of(c: char) -> (r: Option<u8>)
    ensures
        r matches Some(v) ==> is_hex_digit(c) && v == hex_digit_val(c) && v < 16,
        r is None ==> !is_hex_digit(c),
{
    let u = c as u32;
    if 48 <= u && u <= 57 {
        Some((u - 48) as u8)
    } else if 97 <= u && u <= 102 {
        Some((u - 87) as u8)
    } else if 65 <= u && u <= 70 {
        Some((u - 55) as u8)
    } else {
        None
    }
}

/// Decode the hex digit string starting at character `from` of `s` into
/// bytes; `None` exactly on odd length or a non-hex character.
pub fn hex_decode_str(s: &str, from: usize) -> (r: Option<Vec<u8>>)
    requires
        from <= s@.len(),
    ensures
        ({
            let d = s@.skip(from as int);
            match r {
                Some(v) => d.len() % 2 == 0 && all_hex_digits(d) && v@ == bytes_of_hex(d),
                None => !(d.len() % 2 == 0 && all_hex_digits(d)),
            }
        }),
{
    let ghost d = s@.skip(from as int);
    let n = s.unicode_len();
    if (n - from) % 2 != 0 {
        return None;
    }
    let mut out: Vec<u8> = Vec::new();
    let mut i: usize = from;
    while i < n
        invariant
            from <= i <= n,
            n == s@.len(),
            d == s@.skip(from as int),
            (n - from) % 2 == 0,
            (i - from) % 2 == 0,
            all_hex_digits(d.take(i - from)),
            out@ == bytes_of_hex(d.take(i - from)),
        decreases n - i,
    {
        let c0 = s.get_char(i);
        let c1 = s.get_char(i + 1);
        proof {
            assert(d[i - from] == s@[i as int]);
            assert(d[i - from + 1] == s@[i + 1]);
        }
        let v0 = match hex_digit_of(c0) {
            Some(v) => v,
            None => {
                proof {
                    assert(!is_hex_digit(d[i - from]));
                }
                return None;
            },
        };
        let v1 = match hex_digit_of(c1) {
            Some(v) => v,
            None => {
                proof {
                    assert(!is_hex_digit(d[i - from + 1]));
                }
                return None;
            },
        };
        out.push(v0 * 16 + v1);
        proof {
            let a = d.take(i - from);
            let pair = seq![d[i - from], d[i - from + 1]];
            assert(d.take(i - from + 2) =~= a + pair);
            lemma_bytes_of_hex_concat(a, pair);
            assert(pair.skip(2) =~= Seq::<char>::empty());
            assert(bytes_of_hex(Seq::<char>::empty()) =~= Seq::<u8>::empty());
            assert(hex_digit_val(pair[0]) * 16 + hex_digit_val(pair[1]) == v0 * 16 + v1);
            assert((v0 * 16 + v1) < 256);
            assert(bytes_of_hex(pair) =~= seq![(v0 * 16 + v1) as u8]);
        }
        i = i + 2;
    }
    proof {
        assert(d.take(n - from) =~= d);
    }
    Some(out)
}

/// Appending hex digits never decreases the value.
proof fn lemma_hex_val_prefix_le(s: Seq<char>, i: int)
    requires
        0 <= i <= s.len(),
    ensures
        hex_val(s.take(i)) <= hex_val(s),
    decreases s.len() - i,
{
    if i == s.len() {
        assert(s.take(i) =~= s);
    } else {
        lemma_hex_val_prefix_le(s, i + 1);
        let t = s.take(i + 1);
        assert(t.drop_last() =~= s.take(i));
        assert(hex_val(t) == hex_val(s.take(i)) * 16 + hex_digit_val(t.last()));
        assert(hex_val(s.take(i)) * 16 >= hex_val(s.take(i))) by (nonlinear_arith);
    }
}

/// Read the characters of `s` from `from` onward as a hexadecimal `u64`,
/// the way `u64::from_str_radix(_, 16)` does after its optional `+`:
/// at least one digit, all digits hex, value within range.
pub fn parse_hex_u64(s: &str, from: usize) -> (r: Option<u64>)
    requires
        from <= s@.len(),
    ensures
        ({
            let d = s@.skip(from as int);
            match r {
                Some(v) => d.len() >= 1 && all_hex_digits(d) && hex_val(d) == v,
                None => !(d.len() >= 1 && all_hex_digits(d) && hex_val(d) <= u64::MAX),
            }
        }),
{
    let ghost d = s@.skip(from as int);
    let n = s.unicode_len();
    if from == n {
        return None;
    }
    let mut acc: u64 = 0;
    let mut i: usize = from;
    while i < n
        invariant
            from <= i <= n,
            n == s@.len(),
            d == s@.skip(from as int),
            all_hex_digits(d.take(i - from)),
            acc == hex_val(d.take(i - from)),
        decreases n - i,
    {
        let c = s.get_char(i);
        proof {
            assert(d[i - from] == s@[i as int]);
        }
        let dv: u64 = match hex_digit_of(c) {
            Some(v) => v as u64,
            None => {
                proof {
                    assert(!is_hex_digit(d[i - from]));
                }
                return None;
            },
        };
        proof {
            assert(d.take(i - from + 1).drop_last() =~= d.take(i - from));
            assert(d.take(i - from + 1).last() == d[i - from]);
        }
        if acc > (u64::MAX - dv) / 16 {
            proof {
                let t = d.take(i - from + 1);
                assert(hex_val(t) == acc * 16 + dv);
                assert(acc * 16 + dv > u64::MAX) by (nonlinear_arith)
                    requires
                        acc > (u64::MAX - dv) / 16,
                        dv <= 15,
                ;
                lemma_hex_val_prefix_le(d, i - from + 1);
            }
            return None;
        }
        proof {
            assert(acc * 16 + dv <= u64::MAX) by (nonlinear_arith)
                requires
                    acc <= (u64::MAX - dv) / 16,
                    dv <= 15,
            ;
        }
        acc = acc * 16 + dv;
        i = i + 1;
    }
    proof {
        assert(d.take(n - from) =~= d);
    }
    Some(acc)
}

/// The character position of `s` left after removing every leading `0x`.
pub fn strip_hex_prefix_index(s: &str) -> (r: usize)
    ensures
        r <= s@.len(),
        s@.skip(r as int) == strip_hex_prefix(s@),
{
    let n = s.unicode_len();
    let mut i: usize = 0;
    proof {
        assert(s@.skip(0) =~= s@);
    }
    while n - i >= 2 && s.get_char(i) == '0' && s.get_char(i + 1) == 'x'
        invariant
            i <= n,
            n == s@.len(),
            strip_hex_prefix(s@.skip(i as int)) == strip_hex_prefix(s@),
        decreases n - i,
    {
        proof {
            let t = s@.skip(i as int);
            assert(t[0] == s@[i as int] && t[1] == s@[i + 1]);
            assert(t.skip(2) =~= s@.skip(i + 2));
        }
        i = i + 2;
    }
    proof {
        let t = s@.skip(i as int);
        if t.len() >= 2 {
            assert(t[0] == s@[i as int] && t[1] == s@[i + 1]);
        }
        assert(strip_hex_prefix(t) == t);
    }
    i
}

} // verus!
