//! Decimal text for the integer value types: parsing a decimal string to a
//! machine integer and rendering one back, with round-trip laws.

use vstd::prelude::*;
use vstd::string::StrSliceExecFns;
use vstd::string::StringExecFns;
use vstd::utf8::{char_is_scalar, char_u32_cast};

verus! {

/// `c` is one of the characters `0` through `9`.
pub open spec fn is_dec_digit(c: char) -> bool {
    48 <= (c as u32) <= 57
}

/// The numeric value of a decimal digit character.
pub open spec fn digit_val(c: char) -> nat {
    (((c as u32) - 48) as nat) % 10
}

/// The decimal digit character for `n` in `0..10`.
pub open spec fn digit_char(n: nat) -> char {
    (((48 + n % 10) as u32) as char)
}

/// Every character of `s` is a decimal digit.
pub open spec fn all_dec_digits(s: Seq<char>) -> bool {
    forall|i: int| 0 <= i < s.len() ==> is_dec_digit(#[trigger] s[i])
}

/// The numeric value of a digit string, most significant digit first.
pub open spec fn dec_val(s: Seq<char>) -> nat
    decreases s.len(),
{
    if s.len() == 0 {
        0
    } else {
        dec_val(s.drop_last()) * 10 + digit_val(s.last())
    }
}

/// The canonical decimal rendering of `n`: no sign, no leading zero
/// (except for `0` itself).
pub open spec fn dec_str(n: nat) -> Seq<char>
    decreases n,
{
    if n < 10 {
        seq![digit_char(n)]
    } else {
        dec_str(n / 10).push(digit_char(n % 10))
    }
}

/// The canonical decimal rendering of a signed value: a `-` sign followed by
/// the rendering of the magnitude when negative.
pub open spec fn dec_str_signed(v: int) -> Seq<char> {
    if v >= 0 {
        dec_str(v as nat)
    } else {
        seq!['-'] + dec_str((-v) as nat)
    }
}

/// A digit string is canonical when it is non-empty, all digits, and free of
/// a leading zero (unless it is exactly "0").
pub open spec fn is_canonical_dec(s: Seq<char>) -> bool {
    &&& s.len() >= 1
    &&& all_dec_digits(s)
    &&& (s[0] == '0' ==> s.len() == 1)
}

proof fn lemma_digit_char_val(n: nat)
    requires
        n < 10,
    ensures
        is_dec_digit(digit_char(n)),
        digit_val(digit_char(n)) == n,
{
    let u: u32 = (48 + n) as u32;
    assert(48 <= u <= 57);
    broadcast use char_u32_cast, char_is_scalar;

    assert((u as char) as u32 == u) by {
        assert(u < 0xD800);
    }
}

proof fn lemma_char_digit_roundtrip(c: char)
    requires
        is_dec_digit(c),
    ensures
        digit_char(digit_val(c)) == c,
        digit_val(c) < 10,
{
    broadcast use char_u32_cast;

    let u = c as u32;
    assert(digit_char(digit_val(c)) == ((u as u32) as char));
}

/// The digits produced by `dec_str` are well formed: non-empty, decimal,
/// and without a leading zero unless the value is zero.
pub proof fn lemma_dec_str_wf(n: nat)
    ensures
        dec_str(n).len() >= 1,
        all_dec_digits(dec_str(n)),
        is_canonical_dec(dec_str(n)),
        n > 0 ==> dec_str(n)[0] != '0',
        n == 0 ==> dec_str(n) == seq!['0'],
    decreases n,
{
    if n < 10 {
        lemma_digit_char_val(n);
        if n == 0 {
            assert(digit_char(0) == '0') by {
                broadcast use char_u32_cast;

                assert('0' as u32 == 48);
            }
            assert(dec_str(0) =~= seq!['0']);
        } else {
            assert(digit_char(n) != '0') by {
                lemma_digit_char_val(n);
                broadcast use char_u32_cast;

                assert('0' as u32 == 48);
                assert(digit_val('0') == 0);
            }
        }
    } else {
        lemma_dec_str_wf(n / 10);
        lemma_digit_char_val(n % 10);
        let s = dec_str(n);
        let s0 = dec_str(n / 10);
        assert(s == s0.push(digit_char(n % 10)));
        assert(forall|i: int|
            0 <= i < s.len() ==> is_dec_digit(#[trigger] s[i]) == if i < s0.len() {
                is_dec_digit(s0[i])
            } else {
                is_dec_digit(digit_char(n % 10))
            });
        assert(s[0] == s0[0]);
        assert(n / 10 > 0);
    }
}

/// Rendering then reading a number is the identity: `dec_val(dec_str(n)) == n`.
pub proof fn lemma_dec_val_of_dec_str(n: nat)
    ensures
        dec_val(dec_str(n)) == n,
    decreases n,
{
    if n < 10 {
        lemma_digit_char_val(n);
        let s = dec_str(n);
        assert(s.drop_last() =~= Seq::<char>::empty());
        assert(dec_val(s) == dec_val(s.drop_last()) * 10 + digit_val(s.last()));
    } else {
        lemma_dec_val_of_dec_str(n / 10);
        lemma_digit_char_val(n % 10);
        let s0 = dec_str(n / 10);
        let s = s0.push(digit_char(n % 10));
        assert(s.drop_last() =~= s0);
        assert(s.last() == digit_char(n % 10));
        assert(dec_val(s) == (n / 10) * 10 + n % 10);
        assert((n / 10) * 10 + n % 10 == n) by (nonlinear_arith);
    }
}

/// A non-empty digit string that does not start with `0` has a positive value.
proof fn lemma_dec_val_pos(s: Seq<char>)
    requires
        s.len() >= 1,
        all_dec_digits(s),
        s[0] != '0',
    ensures
        dec_val(s) >= 1,
    decreases s.len(),
{
    if s.len() == 1 {
        assert(s.drop_last() =~= Seq::<char>::empty());
        assert(s.last() == s[0]);
        assert(digit_val(s[0]) >= 1) by {
            broadcast use char_u32_cast;

            assert('0' as u32 == 48);
            if digit_val(s[0]) == 0 {
                lemma_char_digit_roundtrip(s[0]);
                assert(digit_char(0) == '0');
            }
        }
    } else {
        let s0 = s.drop_last();
        assert(s0[0] == s[0]);
        lemma_dec_val_pos(s0);
        assert(dec_val(s) == dec_val(s0) * 10 + digit_val(s.last()));
        assert(dec_val(s0) * 10 >= 10) by (nonlinear_arith)
            requires
                dec_val(s0) >= 1,
        ;
    }
}

/// Reading then rendering a canonical digit string is the identity:
/// `dec_str(dec_val(s)) == s`.
pub proof fn lemma_dec_str_of_dec_val(s: Seq<char>)
    requires
        is_canonical_dec(s),
    ensures
        dec_str(dec_val(s)) == s,
    decreases s.len(),
{
    if s.len() == 1 {
        lemma_char_digit_roundtrip(s[0]);
        assert(s.drop_last() =~= Seq::<char>::empty());
        assert(s.last() == s[0]);
        assert(dec_val(Seq::<char>::empty()) == 0);
        assert(dec_val(s) == dec_val(s.drop_last()) * 10 + digit_val(s.last()));
        assert(dec_val(s) == digit_val(s[0]));
        assert(dec_str(dec_val(s)) =~= s);
    } else {
        let s0 = s.drop_last();
        let d = digit_val(s.last());
        lemma_char_digit_roundtrip(s.last());
        assert(s0[0] == s[0]);
        assert(s[0] != '0');
        assert(all_dec_digits(s0));
        lemma_dec_val_pos(s0);
        lemma_dec_str_of_dec_val(s0);
        let v = dec_val(s);
        assert(v == dec_val(s0) * 10 + d);
        assert(v / 10 == dec_val(s0) && v % 10 == d) by (nonlinear_arith)
            requires
                v == dec_val(s0) * 10 + d,
                d < 10,
        ;
        assert(v >= 10) by (nonlinear_arith)
            requires
                v == dec_val(s0) * 10 + d,
                dec_val(s0) >= 1,
        ;
        assert(dec_str(v) == dec_str(dec_val(s0)).push(digit_char(d)));
        assert(dec_str(v) =~= s);
    }
}

/// Appending digits never decreases the value.
proof fn lemma_dec_val_prefix_le(s: Seq<char>, i: int)
    requires
        0 <= i <= s.len(),
    ensures
        dec_val(s.take(i)) <= dec_val(s),
    decreases s.len() - i,
{
    if i == s.len() {
        assert(s.take(i) =~= s);
    } else {
        lemma_dec_val_prefix_le(s, i + 1);
        let t = s.take(i + 1);
        assert(t.drop_last() =~= s.take(i));
        assert(dec_val(t) == dec_val(s.take(i)) * 10 + digit_val(t.last()));
        assert(dec_val(s.take(i)) * 10 >= dec_val(s.take(i))) by (nonlinear_arith);
    }
}

/// Read an unsigned decimal string the way `u64` does it: an optional
/// leading `+`, then at least one digit; values above `u64::MAX` are
/// rejected. `None` exactly on malformed or out-of-range input.
pub open spec fn spec_parse_u64(s: Seq<char>) -> Option<u64> {
    let d = if s.len() >= 1 && s[0] == '+' {
        s.drop_first()
    } else {
        s
    };
    if d.len() >= 1 && all_dec_digits(d) && dec_val(d) <= u64::MAX {
        Some(dec_val(d) as u64)
    } else {
        None
    }
}

/// Read a signed decimal string the way `i64` does it: an optional `+` or
/// `-`, then at least one digit, within the two's-complement range.
pub open spec fn spec_parse_i64(s: Seq<char>) -> Option<i64> {
    let neg = s.len() >= 1 && s[0] == '-';
    let d = if s.len() >= 1 && (s[0] == '-' || s[0] == '+') {
        s.drop_first()
    } else {
        s
    };
    if d.len() >= 1 && all_dec_digits(d) {
        if neg && dec_val(d) <= 0x8000_0000_0000_0000 {
            Some((-(dec_val(d) as int)) as i64)
        } else if !neg && dec_val(d) <= i64::MAX {
            Some(dec_val(d) as i64)
        } else {
            None
        }
    } else {
        None
    }
}

/// Parse the digit characters of `s` from index `from` to the end as a `u64`.
fn parse_digits_u64(s: &str, from: usize, n: usize) -> (r: Option<u64>)
    requires
        n == s@.len(),
        from <= n,
    ensures
        ({
            let d = s@.skip(from as int);
            match r {
                Some(v) => d.len() >= 1 && all_dec_digits(d) && dec_val(d) == v,
                None => !(d.len() >= 1 && all_dec_digits(d) && dec_val(d) <= u64::MAX),
            }
        }),
{
    let ghost d = s@.skip(from as int);
    if from == n {
        return None;
    }
    let mut acc: u64 = 0;
    let mut i: usize = from;
    while i < n
        invariant
            from <= i <= n,
            n == s@.len(),
            d == s@.skip(from as int),
            all_dec_digits(d.take(i - from)),
            acc == dec_val(d.take(i - from)),
        decreases n - i,
    {
        let c = s.get_char(i);
        proof {
            assert(d[i - from] == s@[i as int]);
        }
        let u = c as u32;
        if u < 48 || u > 57 {
            proof {
                assert(!is_dec_digit(d[i - from]));
            }
            return None;
        }
        let dv: u64 = (u - 48) as u64;
        proof {
            assert(is_dec_digit(c));
            assert(digit_val(c) == dv);
            assert(d.take(i - from + 1).drop_last() =~= d.take(i - from));
            assert(d.take(i - from + 1).last() == d[i - from]);
        }
        if acc > (u64::MAX - dv) / 10 {
            proof {
                let t = d.take(i - from + 1);
                assert(dec_val(t) == acc * 10 + dv);
                assert(acc * 10 + dv > u64::MAX) by (nonlinear_arith)
                    requires
                        acc > (u64::MAX - dv) / 10,
                        dv <= 9,
                ;
                lemma_dec_val_prefix_le(d, i - from + 1);
            }
            return None;
        }
        proof {
            assert(acc * 10 + dv <= u64::MAX) by (nonlinear_arith)
                requires
                    acc <= (u64::MAX - dv) / 10,
                    dv <= 9,
            ;
        }
        acc = acc * 10 + dv;
        i = i + 1;
    }
    proof {
        assert(d.take(n - from) =~= d);
    }
    Some(acc)
}

/// Parse a `u64` from its decimal text, exactly as `str::parse::<u64>` would.
pub fn parse_u64_str(s: &str) -> (r: Option<u64>)
    ensures
        r == spec_parse_u64(s@),
{
    let n = s.unicode_len();
    let from: usize = if n >= 1 && s.get_char(0) == '+' {
        1
    } else {
        0
    };
    proof {
        if from == 1 {
            assert(s@.skip(1) =~= s@.drop_first());
        } else {
            assert(s@.skip(0) =~= s@);
        }
    }
    parse_digits_u64(s, from, n)
}

/// Parse an `i64` from its decimal text, exactly as `str::parse::<i64>` would.
pub fn parse_i64_str(s: &str) -> (r: Option<i64>)
    ensures
        r == spec_parse_i64(s@),
{
    let n = s.unicode_len();
    let mut neg = false;
    let mut from: usize = 0;
    if n >= 1 {
        let c = s.get_char(0);
        if c == '-' {
            neg = true;
            from = 1;
        } else if c == '+' {
            from = 1;
        }
    }
    proof {
        if from == 1 {
            assert(s@.skip(1) =~= s@.drop_first());
        } else {
            assert(s@.skip(0) =~= s@);
        }
    }
    let mag = parse_digits_u64(s, from, n);
    match mag {
        None => {
            proof {
                let d = if s@.len() >= 1 && (s@[0] == '-' || s@[0] == '+') {
                    s@.drop_first()
                } else {
                    s@
                };
                if d.len() >= 1 && all_dec_digits(d) {
                    lemma_dec_val_prefix_le(d, d.len() as int);
                    assert(dec_val(d) > u64::MAX);
                }
            }
            None
        },
        Some(v) => {
            if neg {
                if v == 0x8000_0000_0000_0000 {
                    Some(i64::MIN)
                } else if v < 0x8000_0000_0000_0000 {
                    Some(-(v as i64))
                } else {
                    None
                }
            } else {
                if v <= i64::MAX as u64 {
                    Some(v as i64)
                } else {
                    None
                }
            }
        },
    }
}

/// The decimal text of one digit.
fn digit_str(d: u64) -> (r: &'static str)
    requires
        d < 10,
    ensures
        r@ == seq![digit_char(d as nat)],
{
    proof {
        lemma_digit_char_val(d as nat);
        broadcast use char_u32_cast;

    }
    if d == 0 {
        proof {
            reveal_strlit("0");
        }
        assert("0"@ =~= seq![digit_char(0)]);
        "0"
    } else if d == 1 {
        proof {
            reveal_strlit("1");
        }
        assert("1"@ =~= seq![digit_char(1)]);
        "1"
    } else if d == 2 {
        proof {
            reveal_strlit("2");
        }
        assert("2"@ =~= seq![digit_char(2)]);
        "2"
    } else if d == 3 {
        proof {
            reveal_strlit("3");
        }
        assert("3"@ =~= seq![digit_char(3)]);
        "3"
    } else if d == 4 {
        proof {
            reveal_strlit("4");
        }
        assert("4"@ =~= seq![digit_char(4)]);
        "4"
    } else if d == 5 {
        proof {
            reveal_strlit("5");
        }
        assert("5"@ =~= seq![digit_char(5)]);
        "5"
    } else if d == 6 {
        proof {
            reveal_strlit("6");
        }
        assert("6"@ =~= seq![digit_char(6)]);
        "6"
    } else if d == 7 {
        proof {
            reveal_strlit("7");
        }
        assert("7"@ =~= seq![digit_char(7)]);
        "7"
    } else if d == 8 {
        proof {
            reveal_strlit("8");
        }
        assert("8"@ =~= seq![digit_char(8)]);
        "8"
    } else {
        proof {
            reveal_strlit("9");
        }
        assert("9"@ =~= seq![digit_char(9)]);
        "9"
    }
}

/// Render `n` as its canonical decimal text.
pub fn u64_to_dec_string(n: u64) -> (r: String)
    ensures
        r@ == dec_str(n as nat),
    decreases n,
{
    if n < 10 {
        digit_str(n).to_owned()
    } else {
        let mut s = u64_to_dec_string(n / 10);
        s.append(digit_str(n % 10));
        proof {
            assert(dec_str((n / 10) as nat).push(digit_char((n % 10) as nat)) =~= dec_str(
                (n / 10) as nat,
            ) + seq![digit_char((n % 10) as nat)]);
        }
        s
    }
}

/// Render `v` as its canonical decimal text, with a `-` sign when negative.
pub fn i64_to_dec_string(v: i64) -> (r: String)
    ensures
        r@ == dec_str_signed(v as int),
{
    if v >= 0 {
        u64_to_dec_string(v as u64)
    } else {
        let mag: u64 = if v == i64::MIN {
            0x8000_0000_0000_0000u64
        } else {
            (-v) as u64
        };
        let digits = u64_to_dec_string(mag);
        let mut s = {
            proof {
                reveal_strlit("-");
            }
            assert("-"@ =~= seq!['-']);
            "-".to_owned()
        };
        s.append(digits.as_str());
        s
    }
}

} // verus!
