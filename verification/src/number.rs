//! Numbers as text: decimal and hexadecimal rendering, and the parsing of
//! decimal integers.
use vstd::prelude::*;

use crate::text::to_chars;

verus! {

/// The decimal digit `d`.
pub open spec fn digit(d: nat) -> char {
    (48 + d) as char
}

/// `n` in decimal, without leading zeros.
pub open spec fn dec(n: nat) -> Seq<char>
    decreases n,
{
    if n < 10 {
        seq![digit(n)]
    } else {
        dec(n / 10).push(digit(n % 10))
    }
}

/// `n` in decimal, with a leading minus when it is negative.
pub open spec fn dec_int(n: int) -> Seq<char> {
    if n < 0 {
        seq!['-'] + dec((-n) as nat)
    } else {
        dec(n as nat)
    }
}

/// `s` with zeros put in front until it has `width` characters.
pub open spec fn zero_pad(s: Seq<char>, width: nat) -> Seq<char> {
    if s.len() < width {
        Seq::new((width - s.len()) as nat, |i: int| '0') + s
    } else {
        s
    }
}

/// The lower-case hexadecimal digit `d`.
pub open spec fn hex_digit(d: nat) -> char {
    if d < 10 {
        (48 + d) as char
    } else {
        (87 + d) as char
    }
}

/// The last `width` hexadecimal digits of `n`.
pub open spec fn hex(n: nat, width: nat) -> Seq<char>
    decreases width,
{
    if width == 0 {
        Seq::empty()
    } else {
        hex(n / 16, (width - 1) as nat).push(hex_digit(n % 16))
    }
}

pub open spec fn is_digit(c: char) -> bool {
    '0' <= c <= '9'
}

pub open spec fn all_digits(s: Seq<char>) -> bool {
    forall|i: int| 0 <= i < s.len() ==> is_digit(#[trigger] s[i])
}

/// The number that a sequence of decimal digits writes.
pub open spec fn digits_value(s: Seq<char>) -> nat
    decreases s.len(),
{
    if s.len() == 0 {
        0
    } else {
        digits_value(s.drop_last()) * 10 + (s.last() as nat - 48) as nat
    }
}

/// The unsigned integer up to `max` that `s` writes: decimal digits, at least
/// one, with an optional plus in front.
pub open spec fn parse_nat(s: Seq<char>, max: nat) -> Option<nat> {
    let t = if s.len() > 0 && s[0] == '+' {
        s.skip(1)
    } else {
        s
    };
    if t.len() > 0 && all_digits(t) && digits_value(t) <= max {
        Some(digits_value(t))
    } else {
        None
    }
}

/// The 64-bit signed integer that `s` writes: decimal digits, at least one,
/// with an optional sign in front.
pub open spec fn parse_int(s: Seq<char>) -> Option<int> {
    if s.len() > 0 && s[0] == '-' {
        let t = s.skip(1);
        if t.len() > 0 && all_digits(t) && -digits_value(t) >= i64::MIN {
            Some(-digits_value(t))
        } else {
            None
        }
    } else {
        match parse_nat(s, i64::MAX as nat) {
            Some(n) => Some(n as int),
            None => None,
        }
    }
}

pub fn dec_u64(n: u64) -> (r: String)
    ensures
        r@ == dec(n as nat),
    decreases n,
{
    let last: char = (48u8 + (n % 10) as u8) as char;
    let mut r = if n < 10 {
        String::new()
    } else {
        dec_u64(n / 10)
    };
    r.push(last);
    r
}

pub fn dec_i64(n: i64) -> (r: String)
    ensures
        r@ == dec_int(n as int),
{
    if n < 0 {
        let mut r = String::new();
        r.push('-');
        let magnitude: u64 = if n == i64::MIN {
            0x8000_0000_0000_0000u64
        } else {
            (-n) as u64
        };
        let digits = dec_u64(magnitude);
        r.append(digits.as_str());
        r
    } else {
        dec_u64(n as u64)
    }
}

/// `n` in decimal, padded with zeros to `width` characters.
pub fn dec_padded(n: u64, width: usize) -> (r: String)
    ensures
        r@ == zero_pad(dec(n as nat), width as nat),
{
    let digits = dec_u64(n);
    let len: usize = to_chars(digits.as_str()).len();
    if len >= width {
        return digits;
    }
    let mut r = String::new();
    let mut i: usize = 0;
    while i < width - len
        invariant
            len < width,
            i <= width - len,
            r@ == Seq::new(i as nat, |k: int| '0'),
        decreases width - len - i,
    {
        r.push('0');
        i += 1;
        assert(r@ =~= Seq::new(i as nat, |k: int| '0'));
    }
    r.append(digits.as_str());
    r
}

/// The last `width` hexadecimal digits of `n`.
pub fn hex_u64(n: u64, width: usize) -> (r: String)
    ensures
        r@ == hex(n as nat, width as nat),
    decreases width,
{
    if width == 0 {
        String::new()
    } else {
        let d: u8 = (n % 16) as u8;
        let c: char = if d < 10 {
            (48u8 + d) as char
        } else {
            (87u8 + d) as char
        };
        let mut r = hex_u64(n / 16, width - 1);
        r.push(c);
        r
    }
}

/// A prefix of a sequence of digits writes no larger number than the whole.
proof fn lemma_prefix_value(s: Seq<char>, i: int)
    requires
        all_digits(s),
        0 <= i <= s.len(),
    ensures
        digits_value(s.take(i)) <= digits_value(s),
    decreases s.len(),
{
    if i < s.len() {
        lemma_prefix_value(s.drop_last(), i);
        assert(s.drop_last().take(i) =~= s.take(i));
    } else {
        assert(s.take(i) =~= s);
    }
}

/// The value of the digits `chars[from..]`, unless one is no digit, there is
/// none, or the value exceeds `max`.
fn parse_digits(chars: &Vec<char>, from: usize, max: u64) -> (r: Option<u64>)
    requires
        from <= chars@.len(),
    ensures
        ({
            let t = chars@.skip(from as int);
            match r {
                Some(v) => t.len() > 0 && all_digits(t) && digits_value(t) == v && v <= max,
                None => !(t.len() > 0 && all_digits(t) && digits_value(t) <= max),
            }
        }),
{
    let ghost t = chars@.skip(from as int);
    if from == chars.len() {
        return None;
    }
    let mut v: u64 = 0;
    let mut i: usize = from;
    while i < chars.len()
        invariant
            from <= i <= chars@.len(),
            t == chars@.skip(from as int),
            all_digits(t.take(i - from)),
            digits_value(t.take(i - from)) == v,
            v <= max,
        decreases chars@.len() - i,
    {
        let c = chars[i];
        assert(t[i - from] == c);
        if c < '0' || c > '9' {
            assert(!is_digit(t[i - from]));
            return None;
        }
        let d: u64 = (c as u32 - 48) as u64;
        let ghost next = t.take(i - from + 1);
        assert(next.drop_last() =~= t.take(i - from));
        assert(next.last() == c);
        assert(digits_value(next) == v * 10 + d);
        if v > (u64::MAX - d) / 10 || v * 10 + d > max {
            proof {
                if all_digits(t) {
                    lemma_prefix_value(t, i - from + 1);
                }
            }
            return None;
        }
        v = v * 10 + d;
        i += 1;
    }
    assert(t.take(chars@.len() - from) =~= t);
    Some(v)
}

/// Parses an unsigned integer of at most `max`.
pub fn parse_unsigned(s: &str, max: u64) -> (r: Option<u64>)
    ensures
        match r {
            Some(v) => parse_nat(s@, max as nat) == Some(v as nat),
            None => parse_nat(s@, max as nat) is None,
        },
{
    let chars = to_chars(s);
    if chars.len() > 0 && chars[0] == '+' {
        parse_digits(&chars, 1, max)
    } else {
        proof {
            assert(chars@.skip(0) =~= chars@);
        }
        parse_digits(&chars, 0, max)
    }
}

pub fn parse_u32(s: &str) -> (r: Option<u32>)
    ensures
        match r {
            Some(v) => parse_nat(s@, u32::MAX as nat) == Some(v as nat),
            None => parse_nat(s@, u32::MAX as nat) is None,
        },
{
    match parse_unsigned(s, u32::MAX as u64) {
        Some(v) => Some(v as u32),
        None => None,
    }
}

pub fn parse_u64(s: &str) -> (r: Option<u64>)
    ensures
        match r {
            Some(v) => parse_nat(s@, u64::MAX as nat) == Some(v as nat),
            None => parse_nat(s@, u64::MAX as nat) is None,
        },
{
    parse_unsigned(s, u64::MAX)
}

pub fn parse_i64(s: &str) -> (r: Option<i64>)
    ensures
        match r {
            Some(v) => parse_int(s@) == Some(v as int),
            None => parse_int(s@) is None,
        },
{
    let chars = to_chars(s);
    if chars.len() > 0 && chars[0] == '-' {
        match parse_digits(&chars, 1, 0x8000_0000_0000_0000u64) {
            Some(v) => {
                if v == 0x8000_0000_0000_0000u64 {
                    Some(i64::MIN)
                } else {
                    Some(-(v as i64))
                }
            },
            None => None,
        }
    } else {
        match parse_unsigned(s, i64::MAX as u64) {
            Some(v) => Some(v as i64),
            None => None,
        }
    }
}

/// Every decimal rendering consists of digits, at least one, that write the
/// number rendered.
pub proof fn lemma_dec_digits(n: nat)
    ensures
        dec(n).len() > 0,
        all_digits(dec(n)),
        digits_value(dec(n)) == n,
    decreases n,
{
    if n < 10 {
        assert(dec(n).drop_last() =~= Seq::<char>::empty());
        assert(digits_value(dec(n).drop_last()) == 0);
    } else {
        lemma_dec_digits(n / 10);
        assert(dec(n).drop_last() =~= dec(n / 10));
    }
}

/// Parsing the decimal rendering of a number gives the number back.
pub proof fn parse_of_dec(n: nat, max: nat)
    requires
        n <= max,
    ensures
        parse_nat(dec(n), max) == Some(n),
{
    lemma_dec_digits(n);
    assert(is_digit(dec(n)[0]));
}

/// Parsing the decimal rendering of a signed 64-bit number gives it back.
pub proof fn parse_of_dec_int(n: int)
    requires
        i64::MIN <= n <= i64::MAX,
    ensures
        parse_int(dec_int(n)) == Some(n),
{
    if n < 0 {
        lemma_dec_digits((-n) as nat);
        assert(dec_int(n).skip(1) =~= dec((-n) as nat));
    } else {
        parse_of_dec(n as nat, i64::MAX as nat);
        lemma_dec_digits(n as nat);
        assert(is_digit(dec(n as nat)[0]));
    }
}

/// Different numbers have different decimal renderings.
pub proof fn dec_injective(m: nat, n: nat)
    requires
        dec(m) == dec(n),
    ensures
        m == n,
{
    lemma_dec_digits(m);
    lemma_dec_digits(n);
}

/// The number that a sequence of hexadecimal digits writes.
pub open spec fn hex_value(s: Seq<char>) -> nat
    decreases s.len(),
{
    if s.len() == 0 {
        0
    } else {
        hex_value(s.drop_last()) * 16 + (if is_digit(s.last()) {
            (s.last() as nat - 48) as nat
        } else {
            (s.last() as nat - 87) as nat
        })
    }
}

/// The number of texts of `width` hexadecimal digits.
pub open spec fn hex_range(width: nat) -> nat
    decreases width,
{
    if width == 0 {
        1
    } else {
        16 * hex_range((width - 1) as nat)
    }
}

/// A number that fits in its width is written in hexadecimal with exactly that many
/// digits, decimal ones or small letters up to `f`, and they write the number.
pub proof fn hex_writes_the_number(n: nat, width: nat)
    requires
        n < hex_range(width),
    ensures
        hex(n, width).len() == width,
        hex_value(hex(n, width)) == n,
        forall|i: int|
            0 <= i < width ==> is_digit(#[trigger] hex(n, width)[i]) || 'a' <= hex(n, width)[i]
                <= 'f',
    decreases width,
{
    if width > 0 {
        let w = (width - 1) as nat;
        hex_writes_the_number(n / 16, w);
        let front = hex(n / 16, w);
        let d = n % 16;
        assert(hex(n, width).drop_last() =~= front);
        let code = if d < 10 {
            (48 + d) as u32
        } else {
            (87 + d) as u32
        };
        assert((code as char) as u32 == code);
        assert(hex_digit(d) as u32 == code);
        assert forall|i: int| 0 <= i < width implies is_digit(#[trigger] hex(n, width)[i]) || 'a'
            <= hex(n, width)[i] <= 'f' by {
            if i < w {
                assert(hex(n, width)[i] == front[i]);
            }
        }
    }
}

/// Zeros in front change neither the number that digits write nor the digits, and
/// make a short text exactly as long as asked for.
pub proof fn padding_keeps_the_number(s: Seq<char>, width: nat)
    requires
        all_digits(s),
    ensures
        digits_value(zero_pad(s, width)) == digits_value(s),
        all_digits(zero_pad(s, width)),
        zero_pad(s, width).len() == (if s.len() < width {
            width
        } else {
            s.len()
        }),
        zero_pad(s, width).skip(zero_pad(s, width).len() - s.len()) == s,
    decreases s.len(),
{
    let p = zero_pad(s, width);
    assert(p.skip(p.len() - s.len()) =~= s);
    if s.len() < width {
        let zeros = Seq::new((width - s.len()) as nat, |i: int| '0');
        lemma_zeros_in_front(zeros, s);
    }
}

proof fn lemma_zeros_in_front(zeros: Seq<char>, s: Seq<char>)
    requires
        all_digits(s),
        forall|i: int| 0 <= i < zeros.len() ==> #[trigger] zeros[i] == '0',
    ensures
        digits_value(zeros + s) == digits_value(s),
        all_digits(zeros + s),
    decreases zeros.len() + s.len(),
{
    let all = zeros + s;
    if s.len() > 0 {
        let init = s.drop_last();
        assert forall|i: int| 0 <= i < init.len() implies is_digit(#[trigger] init[i]) by {
            assert(init[i] == s[i]);
        }
        lemma_zeros_in_front(zeros, init);
        assert(all.drop_last() =~= zeros + init);
    } else if zeros.len() > 0 {
        lemma_zeros_in_front(zeros.drop_last(), s);
        assert(all =~= zeros);
        assert(all.drop_last() =~= zeros.drop_last() + s);
        assert(all.last() == '0');
    }
}

/// A decimal rendering has no zero in front unless it is zero.
pub proof fn decimals_have_no_leading_zero(n: nat)
    ensures
        n > 0 ==> dec(n)[0] != '0',
        n == 0 ==> dec(n) == seq!['0'],
    decreases n,
{
    if n >= 10 {
        lemma_dec_digits(n / 10);
        decimals_have_no_leading_zero(n / 10);
        assert(dec(n)[0] == dec(n / 10)[0]);
    } else if n > 0 {
        let code = (48 + n) as u32;
        assert((code as char) as u32 == code);
    }
}

/// A number is digits alone, one at least, with a plus before them or not, and within its
/// range; anything else is no number.
pub proof fn numbers_are_digits_alone(s: Seq<char>, max: nat, i: int)
    requires
        0 <= i < s.len(),
    ensures
        all_digits(s) && digits_value(s) <= max ==> parse_nat(s, max) == Some(digits_value(s)),
        all_digits(s) && digits_value(s) <= max ==> parse_nat(seq!['+'] + s, max) == Some(
            digits_value(s),
        ),
        all_digits(s) && digits_value(s) > max ==> parse_nat(s, max) is None,
        !is_digit(s[i]) && (i > 0 || s[i] != '+') ==> parse_nat(s, max) is None,
        parse_nat(Seq::empty(), max) is None,
        parse_nat(seq!['+'], max) is None,
{
    let signed = seq!['+'] + s;
    assert(signed.skip(1) =~= s);
    assert(seq!['+'].skip(1).len() == 0);
    if all_digits(s) {
        assert(is_digit(s[0]));
    }
    if !is_digit(s[i]) && (i > 0 || s[i] != '+') {
        if s[0] == '+' {
            assert(s.skip(1)[i - 1] == s[i]);
            assert(!all_digits(s.skip(1)));
        } else {
            assert(!all_digits(s));
        }
    }
}

/// A minus makes the number negative, down to the least of the range; with it, too, the
/// rest is digits alone.
pub proof fn a_minus_makes_a_number_negative(s: Seq<char>, i: int)
    requires
        0 <= i < s.len(),
    ensures
        all_digits(s) && digits_value(s) <= 0x8000_0000_0000_0000 ==> parse_int(seq!['-'] + s)
            == Some(-digits_value(s)),
        all_digits(s) && digits_value(s) > 0x8000_0000_0000_0000 ==> parse_int(
            seq!['-'] + s,
        ) is None,
        all_digits(s) && digits_value(s) <= 0x7fff_ffff_ffff_ffff ==> parse_int(s) == Some(
            digits_value(s) as int,
        ),
        all_digits(s) && digits_value(s) > 0x7fff_ffff_ffff_ffff ==> parse_int(s) is None,
        !is_digit(s[i]) ==> parse_int(seq!['-'] + s) is None,
{
    let signed = seq!['-'] + s;
    assert(signed.skip(1) =~= s);
    if all_digits(s) {
        assert(is_digit(s[0]));
        numbers_are_digits_alone(s, i64::MAX as nat, 0);
    }
}

} // verus!
