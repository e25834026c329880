//! Decimal text: sequence-number keys, stringified integers, parsing of
//! numeric condition operands, and lexicographic string order.

use vstd::prelude::*;
use vstd::utf8::encode_utf8;
use vstd::utf8::decode_utf8;
use vstd::utf8::is_ascii_chars;
use vstd::utf8::is_ascii_chars_encode_utf8;
use vstd::utf8::encode_utf8_valid_utf8;
use vstd::utf8::encode_utf8_decode_utf8;
use crate::text::string_from_utf8;

verus! {

/// The digit character for a value in `0 ..= 9`.
pub open spec fn digit_char(d: int) -> char {
    ((0x30 + d) as u8) as char
}

/// The digits of a positive value, most significant first; empty for zero.
pub open spec fn dec_rec(n: int) -> Seq<char>
    decreases n,
    when n >= 0
{
    if n <= 0 {
        Seq::empty()
    } else {
        dec_rec(n / 10).push(digit_char(n % 10))
    }
}

/// The decimal character string of a value of zero or more.
pub open spec fn dec_chars(n: int) -> Seq<char> {
    if n == 0 {
        seq!['0']
    } else {
        dec_rec(n)
    }
}

/// The decimal character string of a signed value.
pub open spec fn dec_i64_chars(v: int) -> Seq<char> {
    if v < 0 {
        seq!['-'] + dec_chars(-v)
    } else {
        dec_chars(v)
    }
}

pub proof fn lemma_dec_rec_ascii(n: int)
    requires
        n >= 0,
    ensures
        is_ascii_chars(dec_rec(n)),
        forall|i: int|
            0 <= i < dec_rec(n).len() ==> '0' <= #[trigger] dec_rec(n)[i] <= '9',
    decreases n,
{
    if n > 0 {
        lemma_dec_rec_ascii(n / 10);
    }
}

pub proof fn lemma_dec_chars_ascii(n: int)
    requires
        n >= 0,
    ensures
        is_ascii_chars(dec_chars(n)),
        dec_chars(n).len() > 0,
        forall|i: int|
            0 <= i < dec_chars(n).len() ==> '0' <= #[trigger] dec_chars(n)[i] <= '9',
{
    if n == 0 {
    } else {
        lemma_dec_rec_ascii(n);
    }
}

/// Append the digit bytes of `n` (nothing for zero) to `out`.
fn push_dec(n: u64, out: &mut Vec<u8>)
    ensures
        final(out)@ == old(out)@ + encode_utf8(dec_rec(n as int)),
    decreases n,
{
    if n == 0 {
        proof {
            assert(encode_utf8(Seq::<char>::empty()) =~= Seq::<u8>::empty());
            assert(old(out)@ + Seq::<u8>::empty() =~= old(out)@);
        }
    } else {
        push_dec(n / 10, out);
        let d: u8 = (n % 10) as u8 + 0x30;
        out.push(d);
        proof {
            let m = n as int;
            lemma_dec_rec_ascii(m);
            lemma_dec_rec_ascii(m / 10);
            is_ascii_chars_encode_utf8(dec_rec(m));
            is_ascii_chars_encode_utf8(dec_rec(m / 10));
            assert(dec_rec(m) == dec_rec(m / 10).push(digit_char(m % 10)));
            assert(encode_utf8(dec_rec(m)) =~= encode_utf8(dec_rec(m / 10)).push(d));
        }
    }
}

/// The decimal digit bytes of `n`, as written into record keys.
pub fn dec_u64_bytes(n: u64) -> (r: Vec<u8>)
    ensures
        r@ == encode_utf8(dec_chars(n as int)),
{
    let mut out: Vec<u8> = Vec::new();
    if n == 0 {
        out.push(0x30);
        proof {
            lemma_dec_chars_ascii(0);
            is_ascii_chars_encode_utf8(dec_chars(0));
            assert(out@ =~= encode_utf8(dec_chars(0)));
        }
    } else {
        push_dec(n, &mut out);
        proof {
            assert(Seq::<u8>::empty() + encode_utf8(dec_rec(n as int)) =~= encode_utf8(
                dec_rec(n as int),
            ));
        }
    }
    out
}

/// The decimal string of a signed 64-bit value.
pub fn i64_dec_string(v: i64) -> (r: String)
    ensures
        r@ == dec_i64_chars(v as int),
{
    let mut out: Vec<u8> = Vec::new();
    if v < 0 {
        out.push(0x2d);
        let m: u64 = ((-(v + 1)) as u64) + 1;
        push_dec(m, &mut out);
        proof {
            let chars = dec_i64_chars(v as int);
            lemma_dec_chars_ascii(-(v as int));
            assert(dec_rec(m as int) == dec_chars(-(v as int)));
            is_ascii_chars_encode_utf8(dec_chars(-(v as int)));
            assert(is_ascii_chars(chars));
            is_ascii_chars_encode_utf8(chars);
            assert(out@ =~= encode_utf8(chars));
        }
    } else {
        let b = dec_u64_bytes(v as u64);
        out = b;
    }
    proof {
        encode_utf8_valid_utf8(dec_i64_chars(v as int));
        encode_utf8_decode_utf8(dec_i64_chars(v as int));
    }
    let r = string_from_utf8(out);
    match r {
        Some(s) => s,
        None => {
            proof {
                assert(false);
            }
            String::new()
        },
    }
}

/// Ten raised to `n`: the bound under which `n` digits suffice.
pub open spec fn pow10(n: nat) -> int
    decreases n,
{
    if n == 0 {
        1
    } else {
        10 * pow10((n - 1) as nat)
    }
}

proof fn lemma_pow10_pos(n: nat)
    ensures
        pow10(n) > 0,
    decreases n,
{
    if n > 0 {
        lemma_pow10_pos((n - 1) as nat);
    }
}

proof fn lemma_dec_rec_len(n: int, k: nat)
    requires
        0 <= n < pow10(k),
    ensures
        dec_rec(n).len() <= k,
    decreases k,
{
    if n > 0 {
        if k == 0 {
            assert(false);
        } else {
            lemma_pow10_pos((k - 1) as nat);
            assert(n / 10 < pow10((k - 1) as nat)) by (nonlinear_arith)
                requires
                    0 < n < 10 * pow10((k - 1) as nat),
                    pow10((k - 1) as nat) > 0,
            ;
            lemma_dec_rec_len(n / 10, (k - 1) as nat);
        }
    }
}

/// A 64-bit value needs at most twenty decimal digit bytes.
pub proof fn lemma_dec_chars_len_u64(n: int)
    requires
        0 <= n <= 0xFFFFFFFFFFFFFFFF,
    ensures
        encode_utf8(dec_chars(n)).len() <= 20,
        encode_utf8(dec_chars(n)).len() >= 1,
{
    lemma_dec_chars_ascii(n);
    is_ascii_chars_encode_utf8(dec_chars(n));
    reveal_with_fuel(pow10, 21);
    assert(pow10(20nat) == 100000000000000000000);
    if n == 0 {
    } else {
        lemma_dec_rec_len(n, 20nat);
    }
}

/// Whether every character of `s` is a decimal digit.
pub open spec fn all_digits(s: Seq<char>) -> bool {
    forall|i: int| 0 <= i < s.len() ==> '0' <= #[trigger] s[i] <= '9'
}

/// The value of a digit string, most significant first.
pub open spec fn digits_val(s: Seq<char>) -> int
    decreases s.len(),
{
    if s.len() == 0 {
        0
    } else {
        digits_val(s.drop_last()) * 10 + (s.last() as int - 0x30)
    }
}

/// The signed decimal reading of a character string: an optional sign
/// followed by at least one digit, with the value within 64-bit range.
pub open spec fn spec_parse_i64(s: Seq<char>) -> Option<int> {
    let signed = s.len() > 0 && (s[0] == '-' || s[0] == '+');
    let ds = if signed {
        s.drop_first()
    } else {
        s
    };
    let neg = s.len() > 0 && s[0] == '-';
    if ds.len() > 0 && all_digits(ds) {
        let v = if neg {
            -digits_val(ds)
        } else {
            digits_val(ds)
        };
        if -0x8000000000000000 <= v <= 0x7fffffffffffffff {
            Some(v)
        } else {
            None
        }
    } else {
        None
    }
}

proof fn lemma_digits_val_nonneg(s: Seq<char>)
    requires
        all_digits(s),
    ensures
        digits_val(s) >= 0,
    decreases s.len(),
{
    if s.len() > 0 {
        assert(all_digits(s.drop_last()));
        lemma_digits_val_nonneg(s.drop_last());
    }
}

/// Read `s` as a signed decimal 64-bit integer.
pub fn parse_i64_str(s: &str) -> (r: Option<i64>)
    ensures
        r matches Some(v) ==> spec_parse_i64(s@) == Some(v as int),
        r is None ==> spec_parse_i64(s@) is None,
{
    let n = s.unicode_len();
    let ghost chars = s@;
    let mut start: usize = 0;
    let mut neg = false;
    if n > 0 {
        let c0 = s.get_char(0);
        if c0 == '-' {
            neg = true;
            start = 1;
        } else if c0 == '+' {
            start = 1;
        }
    }
    let ghost ds = if start == 1 { chars.drop_first() } else { chars };
    if start >= n {
        return None;
    }
    let mut i: usize = start;
    let mut acc: u128 = 0;
    let mut over = false;
    while i < n
        invariant
            chars == s@,
            start <= i <= n,
            n == chars.len(),
            start == 0 || start == 1,
            start == 1 ==> ds == chars.drop_first(),
            start == 0 ==> ds == chars,
            ds.len() == n - start,
            (start == 1) <==> (n > 0 && (chars[0] == '-' || chars[0] == '+')),
            neg <==> (n > 0 && chars[0] == '-'),
            all_digits(ds.subrange(0, i - start)),
            !over ==> acc == digits_val(ds.subrange(0, i - start)) && acc
                <= 0x8000000000000000,
            over ==> digits_val(ds.subrange(0, i - start)) > 0x8000000000000000,
        decreases n - i,
    {
        let c = s.get_char(i);
        if c < '0' || c > '9' {
            proof {
                assert(ds[i - start] == c);
                assert(!all_digits(ds));
            }
            return None;
        }
        let d: u128 = (c as u32 - 0x30) as u128;
        proof {
            let pre = ds.subrange(0, i - start);
            let post = ds.subrange(0, i + 1 - start);
            assert(post.drop_last() =~= pre);
            assert(post.last() == c);
            assert(all_digits(post));
            if over {
                lemma_digits_val_nonneg(pre);
                assert(digits_val(post) == digits_val(pre) * 10 + (c as int - 0x30));
                assert(digits_val(pre) * 10 == digits_val(pre) + 9 * digits_val(pre));
            }
        }
        if !over {
            if acc > 0xCCCCCCCCCCCCCCC {
                // ten times this exceeds the 64-bit magnitude bound
                over = true;
            } else {
                acc = acc * 10 + d;
                if acc > 0x8000000000000000 {
                    over = true;
                }
            }
        }
        i = i + 1;
    }
    proof {
        assert(ds.subrange(0, n - start) =~= ds);
    }
    if over {
        proof {
            lemma_digits_val_nonneg(ds);
        }
        return None;
    }
    if neg {
        if acc == 0x8000000000000000 {
            Some(i64::MIN)
        } else {
            Some(-(acc as i64))
        }
    } else {
        if acc <= 0x7FFFFFFFFFFFFFFF {
            Some(acc as i64)
        } else {
            None
        }
    }
}

/// Strict lexicographic order on character strings, by scalar value.
pub open spec fn lex_lt(a: Seq<char>, b: Seq<char>) -> bool
    decreases a.len(),
{
    if b.len() == 0 {
        false
    } else if a.len() == 0 {
        true
    } else if a[0] != b[0] {
        a[0] < b[0]
    } else {
        lex_lt(a.drop_first(), b.drop_first())
    }
}

/// Decide `lex_lt` on two strings.
pub fn str_lex_lt(a: &str, b: &str) -> (r: bool)
    ensures
        r == lex_lt(a@, b@),
{
    let an = a.unicode_len();
    let bn = b.unicode_len();
    proof {
        assert(a@.subrange(0, an as int) =~= a@);
        assert(b@.subrange(0, bn as int) =~= b@);
    }
    let mut i: usize = 0;
    while i < an && i < bn
        invariant
            i <= an,
            i <= bn,
            an == a@.len(),
            bn == b@.len(),
            lex_lt(a@, b@) == lex_lt(
                a@.subrange(i as int, an as int),
                b@.subrange(i as int, bn as int),
            ),
        decreases an - i,
    {
        let ca = a.get_char(i);
        let cb = b.get_char(i);
        if ca != cb {
            return (ca as u32) < (cb as u32);
        }
        proof {
            let ta = a@.subrange(i as int, an as int);
            let tb = b@.subrange(i as int, bn as int);
            assert(ta.drop_first() =~= a@.subrange(i + 1, an as int));
            assert(tb.drop_first() =~= b@.subrange(i + 1, bn as int));
        }
        i = i + 1;
    }
    i < bn
}

} // verus!
