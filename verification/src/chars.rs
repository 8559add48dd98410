//! Character-sequence utilities shared by the identifier scheme and the
//! record codecs: conversion between `String` and `Vec<char>`, decimal
//! formatting and parsing, and first-occurrence search of characters and of
//! multi-character patterns.

use vstd::prelude::*;

use crate::ident::pow10;
use crate::ident::lemma_pow10_pos;

verus! {

/// Reads a string into its sequence of characters.
pub fn str_chars(s: &str) -> (r: Vec<char>)
    ensures
        r@ == s@,
{
    let len = s.unicode_len();
    let mut r: Vec<char> = Vec::new();
    let mut i: usize = 0;
    while i < len
        invariant
            len == s@.len(),
            i <= len,
            r@ == s@.subrange(0, i as int),
        decreases len - i,
    {
        r.push(s.get_char(i));
        proof {
            assert(r@ =~= s@.subrange(0, i + 1));
        }
        i = i + 1;
    }
    proof {
        assert(r@ =~= s@);
    }
    r
}

/// Relies on `String: FromIterator<char>`: collecting chars yields the
/// string whose character sequence is exactly the input.
#[verifier::external_body]
pub fn chars_to_string(v: &Vec<char>) -> (s: String)
    ensures
        s@ == v@,
{
    v.iter().collect()
}

/// First index of `c` in `s`, or -1 when `c` does not occur.
pub open spec fn find_char(s: Seq<char>, c: char) -> int
    decreases s.len(),
{
    if s.len() == 0 {
        -1
    } else if s[0] == c {
        0
    } else {
        let r = find_char(s.skip(1), c);
        if r < 0 {
            -1
        } else {
            r + 1
        }
    }
}

pub open spec fn contains_char(s: Seq<char>, c: char) -> bool {
    find_char(s, c) >= 0
}

pub proof fn lemma_find_char(s: Seq<char>, c: char)
    ensures
        find_char(s, c) >= 0 ==> {
            let i = find_char(s, c);
            0 <= i < s.len() && s[i] == c && forall|j: int| 0 <= j < i ==> s[j] != c
        },
        find_char(s, c) < 0 ==> (forall|j: int| 0 <= j < s.len() ==> s[j] != c)
            && find_char(s, c) == -1,
    decreases s.len(),
{
    if s.len() > 0 && s[0] != c {
        lemma_find_char(s.skip(1), c);
        let r = find_char(s.skip(1), c);
        if r >= 0 {
            assert(s.skip(1)[r] == s[r + 1]);
            assert forall|j: int| 0 <= j < r + 1 implies s[j] != c by {
                if j > 0 {
                    assert(s.skip(1)[j - 1] == s[j]);
                }
            }
        } else {
            assert forall|j: int| 0 <= j < s.len() implies s[j] != c by {
                if j > 0 {
                    assert(s.skip(1)[j - 1] == s[j]);
                }
            }
        }
    }
}

/// First index of `c` in `v`, or none.
pub fn index_of_char(v: &Vec<char>, c: char) -> (r: Option<usize>)
    ensures
        match r {
            Some(i) => i == find_char(v@, c) && i < v@.len() && v@[i as int] == c,
            None => !contains_char(v@, c),
        },
{
    let mut i: usize = 0;
    while i < v.len()
        invariant
            i <= v@.len(),
            forall|j: int| 0 <= j < i ==> v@[j] != c,
        decreases v@.len() - i,
    {
        if v[i] == c {
            proof {
                lemma_find_char(v@, c);
            }
            return Some(i);
        }
        i = i + 1;
    }
    proof {
        lemma_find_char(v@, c);
    }
    None
}

/// Whether `pat` occurs in `s` starting at `i`.
pub open spec fn match_at(s: Seq<char>, pat: Seq<char>, i: int) -> bool {
    0 <= i && i + pat.len() <= s.len() && s.subrange(i, i + pat.len() as int) == pat
}

/// First index at which `pat` occurs in `s`, or -1.
pub open spec fn find_sub(s: Seq<char>, pat: Seq<char>) -> int
    decreases s.len(),
{
    if pat.len() > s.len() {
        -1
    } else if s.subrange(0, pat.len() as int) == pat {
        0
    } else if s.len() == 0 {
        -1
    } else {
        let r = find_sub(s.skip(1), pat);
        if r < 0 {
            -1
        } else {
            r + 1
        }
    }
}

pub open spec fn contains_sub(s: Seq<char>, pat: Seq<char>) -> bool {
    find_sub(s, pat) >= 0
}

pub proof fn lemma_find_sub(s: Seq<char>, pat: Seq<char>)
    ensures
        find_sub(s, pat) >= 0 ==> {
            let i = find_sub(s, pat);
            match_at(s, pat, i) && forall|j: int| 0 <= j < i ==> !match_at(s, pat, j)
        },
        find_sub(s, pat) < 0 ==> (forall|j: int| !match_at(s, pat, j)) && find_sub(s, pat) == -1,
    decreases s.len(),
{
    if pat.len() > s.len() {
        assert forall|j: int| !match_at(s, pat, j) by {}
    } else if s.subrange(0, pat.len() as int) == pat {
        assert(match_at(s, pat, 0));
    } else if s.len() == 0 {
        assert(!match_at(s, pat, 0));
        assert forall|j: int| !match_at(s, pat, j) by {}
    } else {
        lemma_find_sub(s.skip(1), pat);
        assert forall|j: int| 1 <= j && j + pat.len() <= s.len() implies (match_at(s, pat, j)
            <==> match_at(s.skip(1), pat, j - 1)) by {
            assert(s.subrange(j, j + pat.len() as int) =~= s.skip(1).subrange(
                j - 1,
                j - 1 + pat.len() as int,
            ));
        }
        let r = find_sub(s.skip(1), pat);
        if r >= 0 {
            assert(match_at(s.skip(1), pat, r));
            assert(match_at(s, pat, r + 1));
            assert forall|j: int| 0 <= j < r + 1 implies !match_at(s, pat, j) by {
                if j == 0 {
                    assert(!match_at(s, pat, 0));
                } else {
                    assert(!match_at(s.skip(1), pat, j - 1));
                }
            }
        } else {
            assert forall|j: int| !match_at(s, pat, j) by {
                if j == 0 {
                    assert(!match_at(s, pat, 0));
                } else if 1 <= j && j + pat.len() <= s.len() {
                    assert(!match_at(s.skip(1), pat, j - 1));
                }
            }
        }
    }
}

/// Whether `pat` occurs in `v` starting at `i`, decided by direct comparison.
pub fn match_at_exec(v: &Vec<char>, pat: &Vec<char>, i: usize) -> (r: bool)
    requires
        i + pat@.len() <= v@.len(),
    ensures
        r == match_at(v@, pat@, i as int),
{
    let vlen = v.len();
    let mut k: usize = 0;
    while k < pat.len()
        invariant
            vlen == v@.len(),
            i + pat@.len() <= v@.len(),
            k <= pat@.len(),
            forall|j: int| 0 <= j < k ==> v@[i + j] == pat@[j],
        decreases pat@.len() - k,
    {
        if v[i + k] != pat[k] {
            proof {
                assert(v@.subrange(i as int, i + pat@.len() as int)[k as int] == v@[i + k]);
            }
            return false;
        }
        k = k + 1;
    }
    proof {
        assert(v@.subrange(i as int, i + pat@.len() as int) =~= pat@);
    }
    true
}

/// First index at which `pat` occurs in `v`, or none.
pub fn index_of_sub(v: &Vec<char>, pat: &Vec<char>) -> (r: Option<usize>)
    ensures
        match r {
            Some(i) => i == find_sub(v@, pat@) && match_at(v@, pat@, i as int),
            None => !contains_sub(v@, pat@),
        },
{
    if pat.len() > v.len() {
        proof {
            lemma_find_sub(v@, pat@);
        }
        return None;
    }
    if pat.len() == 0 {
        proof {
            assert(v@.subrange(0, 0) =~= pat@);
            lemma_find_sub(v@, pat@);
        }
        return Some(0);
    }
    let end = v.len() - pat.len();
    let mut i: usize = 0;
    while i <= end
        invariant
            1 <= pat@.len() <= v@.len(),
            end == v@.len() - pat@.len(),
            end < v@.len() <= usize::MAX,
            i <= end + 1,
            forall|j: int| 0 <= j < i ==> !match_at(v@, pat@, j),
        decreases end + 1 - i,
    {
        if match_at_exec(v, pat, i) {
            proof {
                lemma_find_sub(v@, pat@);
            }
            return Some(i);
        }
        i = i + 1;
    }
    proof {
        assert forall|j: int| !match_at(v@, pat@, j) by {
            if 0 <= j && j + pat@.len() <= v@.len() {
                assert(j < i);
            }
        }
        lemma_find_sub(v@, pat@);
    }
    None
}

/// Copies the range `[from, to)` of `v`.
pub fn subvec(v: &Vec<char>, from: usize, to: usize) -> (r: Vec<char>)
    requires
        from <= to <= v@.len(),
    ensures
        r@ == v@.subrange(from as int, to as int),
{
    let mut r: Vec<char> = Vec::new();
    let mut i: usize = from;
    while i < to
        invariant
            from <= i <= to <= v@.len(),
            r@ == v@.subrange(from as int, i as int),
        decreases to - i,
    {
        r.push(v[i]);
        proof {
            assert(r@ =~= v@.subrange(from as int, i + 1));
        }
        i = i + 1;
    }
    r
}

/// Appends all of `src` to `dst`.
pub fn extend_chars(dst: &mut Vec<char>, src: &Vec<char>)
    ensures
        final(dst)@ == old(dst)@ + src@,
{
    let mut i: usize = 0;
    while i < src.len()
        invariant
            i <= src@.len(),
            dst@ == old(dst)@ + src@.subrange(0, i as int),
        decreases src@.len() - i,
    {
        dst.push(src[i]);
        proof {
            assert(dst@ =~= old(dst)@ + src@.subrange(0, i + 1));
        }
        i = i + 1;
    }
    proof {
        assert(dst@ =~= old(dst)@ + src@);
    }
}

/// Appends the characters of a string slice to `dst`.
pub fn extend_str(dst: &mut Vec<char>, src: &str)
    ensures
        final(dst)@ == old(dst)@ + src@,
{
    let cs = str_chars(src);
    extend_chars(dst, &cs);
}

// ---------------------------------------------------------------------------
// Decimal digits
// ---------------------------------------------------------------------------

pub open spec fn is_digit(c: char) -> bool {
    '0' <= c && c <= '9'
}

pub open spec fn digit_val(c: char) -> nat {
    (c as int - '0' as int) as nat
}

pub open spec fn all_digits(s: Seq<char>) -> bool {
    forall|i: int| 0 <= i < s.len() ==> is_digit(#[trigger] s[i])
}

/// The numeric value of a digit string, most significant first.
pub open spec fn dec_val(s: Seq<char>) -> nat
    decreases s.len(),
{
    if s.len() == 0 {
        0
    } else {
        dec_val(s.drop_last()) * 10 + digit_val(s.last())
    }
}

pub open spec fn digit_char(d: nat) -> char {
    (('0' as int) + d) as char
}

/// The canonical decimal form of `n`: no leading zeros, "0" for zero.
pub open spec fn dec_of(n: nat) -> Seq<char>
    decreases n,
{
    if n < 10 {
        seq![digit_char(n)]
    } else {
        dec_of(n / 10).push(digit_char(n % 10))
    }
}

/// The decimal form of `n` left-padded with zeros to at least `w` characters.
/// `n` zero characters.
pub open spec fn zeros(n: nat) -> Seq<char> {
    Seq::new(n, |i: int| '0')
}

pub open spec fn dec_of_pad(n: nat, w: nat) -> Seq<char> {
    if dec_of(n).len() >= w {
        dec_of(n)
    } else {
        zeros((w - dec_of(n).len()) as nat) + dec_of(n)
    }
}

/// The decimal form of an integer: a minus sign before the magnitude when
/// negative.
pub open spec fn dec_of_int(v: int) -> Seq<char> {
    if v >= 0 {
        dec_of(v as nat)
    } else {
        seq!['-'] + dec_of((-v) as nat)
    }
}

pub proof fn lemma_dec_of_digits(n: nat)
    ensures
        all_digits(dec_of(n)),
        dec_of(n).len() >= 1,
        dec_val(dec_of(n)) == n,
    decreases n,
{
    if n < 10 {
        let s = dec_of(n);
        assert(s =~= seq![digit_char(n)]);
        assert(('0' as int) + n <= 57);
        assert(digit_char(n) as int == ('0' as int) + n);
        assert(is_digit(digit_char(n)));
        assert(digit_val(digit_char(n)) == n);
        assert(s.drop_last() =~= Seq::<char>::empty());
        assert(s.last() == digit_char(n));
        assert(dec_val(s.drop_last()) == 0);
        assert(dec_val(s) == 0 * 10 + digit_val(s.last()));
    } else {
        lemma_dec_of_digits(n / 10);
        let s = dec_of(n);
        assert(s == dec_of(n / 10).push(digit_char(n % 10)));
        assert(s.drop_last() =~= dec_of(n / 10));
        assert(s.last() == digit_char(n % 10));
        assert(is_digit(digit_char(n % 10)));
        assert(all_digits(s)) by {
            assert forall|i: int| 0 <= i < s.len() implies is_digit(s[i]) by {
                if i < s.len() - 1 {
                    assert(s[i] == dec_of(n / 10)[i]);
                }
            }
        }
        assert(dec_val(s) == (n / 10) * 10 + n % 10);
        assert((n / 10) * 10 + n % 10 == n) by (nonlinear_arith);
    }
}

/// Zero-padding does not change the numeric value of a digit string.
pub proof fn lemma_dec_val_leading_zeros(z: nat, s: Seq<char>)
    ensures
        dec_val(zeros(z) + s) == dec_val(s),
        all_digits(s) ==> all_digits(zeros(z) + s),
    decreases s.len(),
{
    let zs = zeros(z);
    if s.len() == 0 {
        lemma_dec_val_zeros(z);
        assert(zs + s =~= zs);
    } else {
        lemma_dec_val_leading_zeros(z, s.drop_last());
        assert((zs + s).drop_last() =~= zs + s.drop_last());
        assert((zs + s).last() == s.last());
    }
}

proof fn lemma_dec_val_zeros(z: nat)
    ensures
        dec_val(zeros(z)) == 0,
    decreases z,
{
    if z > 0 {
        lemma_dec_val_zeros((z - 1) as nat);
        assert(zeros(z).drop_last() =~= zeros((z - 1) as nat));
        assert(zeros(z).last() == '0');
    }
}

pub proof fn lemma_dec_of_pad(n: nat, w: nat)
    ensures
        all_digits(dec_of_pad(n, w)),
        dec_of_pad(n, w).len() >= w,
        dec_of_pad(n, w).len() >= 1,
        dec_val(dec_of_pad(n, w)) == n,
{
    lemma_dec_of_digits(n);
    if dec_of(n).len() < w {
        lemma_dec_val_leading_zeros((w - dec_of(n).len()) as nat, dec_of(n));
    }
}

/// Splitting a digit string multiplies the prefix by a power of ten.
pub proof fn lemma_dec_val_append(a: Seq<char>, b: Seq<char>)
    ensures
        dec_val(a + b) == dec_val(a) * pow10(b.len()) + dec_val(b),
    decreases b.len(),
{
    if b.len() == 0 {
        assert(a + b =~= a);
        lemma_pow10_pos(0);
        assert(pow10(0) == 1);
        assert(dec_val(a) * 1 == dec_val(a)) by (nonlinear_arith);
    } else {
        lemma_dec_val_append(a, b.drop_last());
        assert((a + b).drop_last() =~= a + b.drop_last());
        assert((a + b).last() == b.last());
        assert(dec_val(a + b) == (dec_val(a) * pow10((b.len() - 1) as nat) + dec_val(b.drop_last()))
            * 10 + digit_val(b.last()));
        assert(pow10(b.len()) == 10 * pow10((b.len() - 1) as nat));
        assert((dec_val(a) * pow10((b.len() - 1) as nat) + dec_val(b.drop_last())) * 10
            + digit_val(b.last()) == dec_val(a) * (10 * pow10((b.len() - 1) as nat)) + (dec_val(
            b.drop_last(),
        ) * 10 + digit_val(b.last()))) by (nonlinear_arith);
    }
}

/// A digit string's value is bounded by the power of ten of its length.
pub proof fn lemma_dec_val_bound(s: Seq<char>)
    requires
        all_digits(s),
    ensures
        dec_val(s) < pow10(s.len()),
    decreases s.len(),
{
    if s.len() == 0 {
        lemma_pow10_pos(0);
    } else {
        lemma_dec_val_bound(s.drop_last());
        assert(pow10(s.len()) == 10 * pow10((s.len() - 1) as nat));
        assert(digit_val(s.last()) <= 9);
        assert(dec_val(s.drop_last()) * 10 + 9 < 10 * pow10((s.len() - 1) as nat))
            by (nonlinear_arith)
            requires
                dec_val(s.drop_last()) < pow10((s.len() - 1) as nat),
        ;
    }
}

/// Exec form of `digit_char`.
pub fn digit_char_exec(d: u64) -> (c: char)
    requires
        d < 10,
    ensures
        c == digit_char(d as nat),
{
    match d {
        0 => '0',
        1 => '1',
        2 => '2',
        3 => '3',
        4 => '4',
        5 => '5',
        6 => '6',
        7 => '7',
        8 => '8',
        _ => '9',
    }
}

/// Exec form of `digit_val`, for digit characters.
pub fn digit_val_exec(c: char) -> (d: u64)
    requires
        is_digit(c),
    ensures
        d == digit_val(c),
        d < 10,
{
    (c as u32 - '0' as u32) as u64
}

/// Writes `n` in decimal, canonical form.
pub fn fmt_u64(n: u64) -> (r: Vec<char>)
    ensures
        r@ == dec_of(n as nat),
    decreases n,
{
    if n < 10 {
        let mut r: Vec<char> = Vec::new();
        r.push(digit_char_exec(n));
        proof {
            assert(r@ =~= dec_of(n as nat));
        }
        r
    } else {
        let mut r = fmt_u64(n / 10);
        r.push(digit_char_exec(n % 10));
        proof {
            assert(r@ =~= dec_of(n as nat));
        }
        r
    }
}

/// Writes `n` in decimal, left-padded with zeros to at least `w` characters.
pub fn fmt_u64_pad(n: u64, w: usize) -> (r: Vec<char>)
    ensures
        r@ == dec_of_pad(n as nat, w as nat),
{
    let digits = fmt_u64(n);
    if digits.len() >= w {
        proof {
            assert(digits@ =~= dec_of_pad(n as nat, w as nat));
        }
        digits
    } else {
        let mut r: Vec<char> = Vec::new();
        let pad: usize = w - digits.len();
        let mut i: usize = 0;
        while i < pad
            invariant
                i <= pad,
                r@ =~= zeros(i as nat),
            decreases pad - i,
        {
            r.push('0');
            proof {
                assert(r@ =~= zeros((i + 1) as nat));
            }
            i = i + 1;
        }
        extend_chars(&mut r, &digits);
        proof {
            assert(r@ =~= dec_of_pad(n as nat, w as nat));
        }
        r
    }
}

/// Writes an `i64` in decimal with a leading minus sign when negative.
pub fn fmt_i64(n: i64) -> (r: Vec<char>)
    ensures
        r@ == dec_of_int(n as int),
{
    if n >= 0 {
        fmt_u64(n as u64)
    } else {
        let mag: u64 = (-(n as i128)) as u64;
        let mut r: Vec<char> = Vec::new();
        r.push('-');
        let digits = fmt_u64(mag);
        extend_chars(&mut r, &digits);
        proof {
            assert(r@ =~= seq!['-'] + dec_of(mag as nat));
        }
        r
    }
}

/// What a digit string parses to as a `u64`: rejected when empty, when it
/// holds a non-digit, and when its value exceeds `u64::MAX`.
pub open spec fn spec_parse_u64(s: Seq<char>) -> Option<u64> {
    if s.len() >= 1 && all_digits(s) && dec_val(s) <= u64::MAX {
        Some(dec_val(s) as u64)
    } else {
        None
    }
}

/// What an optionally minus-signed digit string parses to as an `i64`.
pub open spec fn spec_parse_i64(s: Seq<char>) -> Option<i64> {
    if s.len() == 0 {
        None
    } else if s[0] == '-' {
        let mag = s.skip(1);
        if mag.len() >= 1 && all_digits(mag) && dec_val(mag) <= 0x8000_0000_0000_0000 {
            Some((-(dec_val(mag) as int)) as i64)
        } else {
            None
        }
    } else {
        if all_digits(s) && dec_val(s) <= i64::MAX {
            Some(dec_val(s) as i64)
        } else {
            None
        }
    }
}

/// Parses a non-empty digit string into a `u64`.
pub fn parse_u64(v: &Vec<char>) -> (r: Option<u64>)
    ensures
        r == spec_parse_u64(v@),
{
    if v.len() == 0 {
        return None;
    }
    let mut acc: u64 = 0;
    let mut i: usize = 0;
    while i < v.len()
        invariant
            i <= v@.len(),
            forall|j: int| 0 <= j < i ==> is_digit(#[trigger] v@[j]),
            acc == dec_val(v@.subrange(0, i as int)),
        decreases v@.len() - i,
    {
        let c = v[i];
        if !('0' <= c && c <= '9') {
            return None;
        }
        let d = digit_val_exec(c);
        proof {
            assert(v@.subrange(0, i + 1).drop_last() =~= v@.subrange(0, i as int));
            assert(v@.subrange(0, i + 1).last() == v@[i as int]);
        }
        if acc > (u64::MAX - d) / 10 {
            // The value up to and past this digit already exceeds u64::MAX.
            proof {
                let pre = v@.subrange(0, i + 1);
                assert(dec_val(pre) == acc * 10 + d);
                assert(acc * 10 + d > u64::MAX) by (nonlinear_arith)
                    requires
                        acc > (u64::MAX - d) / 10,
                        d < 10,
                        0 <= acc <= u64::MAX,
                ;
                if all_digits(v@) {
                    assert(v@ =~= pre + v@.subrange(i + 1, v@.len() as int));
                    lemma_dec_val_append(pre, v@.subrange(i + 1, v@.len() as int));
                    lemma_pow10_pos(v@.subrange(i + 1, v@.len() as int).len());
                    assert(dec_val(v@) >= dec_val(pre) * pow10(
                        v@.subrange(i + 1, v@.len() as int).len(),
                    )) by (nonlinear_arith)
                        requires
                            dec_val(v@) == dec_val(pre) * pow10(
                                v@.subrange(i + 1, v@.len() as int).len(),
                            ) + dec_val(v@.subrange(i + 1, v@.len() as int)),
                    ;
                    assert(dec_val(pre) * pow10(v@.subrange(i + 1, v@.len() as int).len())
                        >= dec_val(pre)) by (nonlinear_arith)
                        requires
                            pow10(v@.subrange(i + 1, v@.len() as int).len()) >= 1,
                    ;
                }
            }
            return None;
        }
        proof {
            assert(acc * 10 + d <= u64::MAX) by (nonlinear_arith)
                requires
                    acc <= (u64::MAX - d) / 10,
                    d < 10,
                    0 <= acc,
            ;
        }
        acc = acc * 10 + d;
        i = i + 1;
    }
    proof {
        assert(v@.subrange(0, v@.len() as int) =~= v@);
    }
    Some(acc)
}

/// Parses an optionally minus-signed digit string into an `i64`.
pub fn parse_i64(v: &Vec<char>) -> (r: Option<i64>)
    ensures
        r == spec_parse_i64(v@),
{
    if v.len() == 0 {
        return None;
    }
    if v[0] == '-' {
        let mag = subvec(v, 1, v.len());
        proof {
            assert(mag@ =~= v@.skip(1));
        }
        match parse_u64(&mag) {
            Some(m) => {
                if m <= 9_223_372_036_854_775_808u64 {
                    let x: i64 = (-(m as i128)) as i64;
                    Some(x)
                } else {
                    None
                }
            },
            None => None,
        }
    } else {
        match parse_u64(v) {
            Some(m) => {
                if m <= i64::MAX as u64 {
                    Some(m as i64)
                } else {
                    None
                }
            },
            None => None,
        }
    }
}


/// Last index of `c` in `s`, or -1 when `c` does not occur.
pub open spec fn rfind_char(s: Seq<char>, c: char) -> int
    decreases s.len(),
{
    if s.len() == 0 {
        -1
    } else if s.last() == c {
        s.len() - 1
    } else {
        rfind_char(s.drop_last(), c)
    }
}

pub proof fn lemma_rfind_char(s: Seq<char>, c: char)
    ensures
        rfind_char(s, c) >= 0 ==> {
            let i = rfind_char(s, c);
            0 <= i < s.len() && s[i] == c && forall|j: int| i < j < s.len() ==> s[j] != c
        },
        rfind_char(s, c) < 0 ==> (forall|j: int| 0 <= j < s.len() ==> s[j] != c)
            && rfind_char(s, c) == -1,
    decreases s.len(),
{
    if s.len() > 0 && s.last() != c {
        lemma_rfind_char(s.drop_last(), c);
        let r = rfind_char(s.drop_last(), c);
        if r >= 0 {
            assert(s.drop_last()[r] == s[r]);
            assert forall|j: int| r < j < s.len() implies s[j] != c by {
                if j < s.len() - 1 {
                    assert(s.drop_last()[j] == s[j]);
                }
            }
        } else {
            assert forall|j: int| 0 <= j < s.len() implies s[j] != c by {
                if j < s.len() - 1 {
                    assert(s.drop_last()[j] == s[j]);
                }
            }
        }
    }
}

/// Last index of `c` in `v`, or none.
pub fn rindex_of_char(v: &Vec<char>, c: char) -> (r: Option<usize>)
    ensures
        match r {
            Some(i) => i == rfind_char(v@, c) && i < v@.len() && v@[i as int] == c,
            None => rfind_char(v@, c) == -1,
        },
{
    let mut i: usize = v.len();
    while i > 0
        invariant
            i <= v@.len(),
            v@.len() <= usize::MAX,
            forall|j: int| i <= j < v@.len() ==> v@[j] != c,
        decreases i,
    {
        i = i - 1;
        if v[i] == c {
            proof {
                lemma_rfind_char(v@, c);
                let r = rfind_char(v@, c);
                assert(r >= 0);
                assert(r <= i);
                assert(r >= i);
            }
            return Some(i);
        }
    }
    proof {
        lemma_rfind_char(v@, c);
        if rfind_char(v@, c) >= 0 {
            let r = rfind_char(v@, c);
            assert(v@[r] == c);
        }
    }
    None
}

// ---------------------------------------------------------------------------
// Lexicographic order
// ---------------------------------------------------------------------------

/// Lexicographic order on character sequences.
pub open spec fn str_lt(a: Seq<char>, b: Seq<char>) -> bool
    decreases a.len(),
{
    if b.len() == 0 {
        false
    } else if a.len() == 0 {
        true
    } else if a[0] != b[0] {
        (a[0] as int) < (b[0] as int)
    } else {
        str_lt(a.skip(1), b.skip(1))
    }
}

/// Decides `str_lt`.
pub fn str_lt_exec(a: &String, b: &String) -> (r: bool)
    ensures
        r == str_lt(a@, b@),
{
    let av = str_chars(a.as_str());
    let bv = str_chars(b.as_str());
    let alen = av.len();
    let blen = bv.len();
    let mut i: usize = 0;
    proof {
        assert(a@.skip(0) =~= a@);
        assert(b@.skip(0) =~= b@);
    }
    while i < alen && i < blen
        invariant
            av@ == a@,
            bv@ == b@,
            alen == a@.len(),
            blen == b@.len(),
            i <= alen,
            i <= blen,
            str_lt(a@, b@) == str_lt(a@.skip(i as int), b@.skip(i as int)),
        decreases alen - i,
    {
        let ghost at = a@.skip(i as int);
        let ghost bt = b@.skip(i as int);
        proof {
            assert(at[0] == a@[i as int]);
            assert(bt[0] == b@[i as int]);
            assert(at.skip(1) =~= a@.skip(i as int + 1));
            assert(bt.skip(1) =~= b@.skip(i as int + 1));
        }
        if av[i] != bv[i] {
            let r = av[i] < bv[i];
            proof {
                assert(at.len() > 0 && bt.len() > 0);
                assert(at[0] != bt[0]);
                assert(str_lt(at, bt) == ((at[0] as int) < (bt[0] as int)));
                assert(r == str_lt(at, bt));
            }
            return r;
        }
        i = i + 1;
    }
    proof {
        if i >= alen {
            assert(a@.skip(i as int) =~= Seq::<char>::empty());
        } else {
            assert(b@.skip(i as int) =~= Seq::<char>::empty());
        }
    }
    alen < blen
}


/// At or below in the lexicographic order.
pub open spec fn str_le(a: Seq<char>, b: Seq<char>) -> bool {
    !str_lt(b, a)
}

/// A string placed into an ascending-sorted sequence, before the first
/// entry it sits at or below.
pub open spec fn insert_sorted(s: Seq<Seq<char>>, x: Seq<char>) -> Seq<Seq<char>>
    decreases s.len(),
{
    if s.len() == 0 {
        seq![x]
    } else if str_le(x, s[0]) {
        seq![x] + s
    } else {
        seq![s[0]] + insert_sorted(s.skip(1), x)
    }
}

/// The strings sorted ascending by insertion, first to last.
pub open spec fn sort_strs(s: Seq<Seq<char>>) -> Seq<Seq<char>>
    decreases s.len(),
{
    if s.len() == 0 {
        Seq::<Seq<char>>::empty()
    } else {
        insert_sorted(sort_strs(s.drop_last()), s.last())
    }
}

/// Places one string into an ascending-sorted vector.
fn insert_string_sorted(out: &mut Vec<String>, x: String)
    ensures
        final(out).deep_view() == insert_sorted(old(out).deep_view(), x@),
{
    let ghost pre = out.deep_view();
    let n = out.len();
    let mut j: usize = 0;
    proof {
        assert(pre.skip(0) =~= pre);
    }
    while j < n && str_lt_exec(&out[j], &x)
        invariant
            pre == out.deep_view(),
            n == out@.len(),
            j <= n,
            insert_sorted(pre, x@) == pre.take(j as int) + insert_sorted(
                pre.skip(j as int),
                x@,
            ),
        decreases n - j,
    {
        proof {
            assert(out.deep_view()[j as int] == out@[j as int]@);
            assert(pre.skip(j as int)[0] == pre[j as int]);
            assert(pre.skip(j as int).skip(1) =~= pre.skip(j as int + 1));
            assert(pre.take(j as int + 1) =~= pre.take(j as int) + seq![pre[j as int]]);
            assert((pre.take(j as int) + seq![pre[j as int]]) + insert_sorted(
                pre.skip(j as int + 1),
                x@,
            ) =~~= pre.take(j as int) + (seq![pre[j as int]] + insert_sorted(
                pre.skip(j as int + 1),
                x@,
            )));
        }
        j = j + 1;
    }
    proof {
        assert(out.deep_view() =~= pre);
        if j < n {
            assert(out.deep_view()[j as int] == out@[j as int]@);
            assert(pre.skip(j as int)[0] == pre[j as int]);
            assert(insert_sorted(pre.skip(j as int), x@) == seq![x@] + pre.skip(j as int));
        } else {
            assert(pre.skip(j as int) =~= Seq::<Seq<char>>::empty());
        }
    }
    out.insert(j, x);
    proof {
        assert(out.deep_view() =~= pre.take(j as int) + insert_sorted(pre.skip(j as int), x@));
    }
}

/// An ascending-sorted copy of a vector of strings.
pub fn sort_strings(v: &Vec<String>) -> (r: Vec<String>)
    ensures
        r.deep_view() == sort_strs(v.deep_view()),
{
    let mut out: Vec<String> = Vec::new();
    let mut i: usize = 0;
    proof {
        assert(out.deep_view() =~= sort_strs(v.deep_view().take(0)));
    }
    while i < v.len()
        invariant
            i <= v@.len(),
            out.deep_view() == sort_strs(v.deep_view().take(i as int)),
        decreases v@.len() - i,
    {
        proof {
            assert(v.deep_view()[i as int] == v@[i as int]@);
        }
        insert_string_sorted(&mut out, v[i].clone());
        proof {
            assert(v.deep_view().take(i as int + 1).drop_last() =~= v.deep_view().take(i as int));
            assert(v.deep_view().take(i as int + 1).last() == v.deep_view()[i as int]);
        }
        i = i + 1;
    }
    proof {
        assert(v.deep_view().take(v@.len() as int) =~= v.deep_view());
    }
    out
}


/// An integer within `i64` range written in decimal parses back to itself.
pub proof fn lemma_parse_int_roundtrip(v: int)
    requires
        i64::MIN <= v <= i64::MAX,
    ensures
        spec_parse_i64(dec_of_int(v)) == Some(v as i64),
{
    if v >= 0 {
        lemma_dec_of_digits(v as nat);
        let s = dec_of_int(v);
        assert(is_digit(s[0]));
        assert(s[0] != '-');
    } else {
        lemma_dec_of_digits((-v) as nat);
        let s = dec_of_int(v);
        assert(s[0] == '-');
        assert(s.skip(1) =~= dec_of((-v) as nat));
        assert(dec_val(s.skip(1)) == (-v) as nat);
        assert((-v) as nat <= 0x8000_0000_0000_0000);
    }
}

/// A value below the k-th power of ten needs at most k digits.
pub proof fn lemma_dec_of_len_bound(n: nat, k: nat)
    requires
        1 <= k,
        n < pow10(k),
    ensures
        dec_of(n).len() <= k,
    decreases n,
{
    if n < 10 {
    } else {
        assert(pow10(k) > 10);
        assert(k >= 2) by {
            if k == 1 {
                assert(pow10(1) == 10) by {
                    assert(pow10(0) == 1);
                }
            }
        }
        assert(pow10(k) == 10 * pow10((k - 1) as nat));
        assert(n / 10 < pow10((k - 1) as nat)) by (nonlinear_arith)
            requires
                n < 10 * pow10((k - 1) as nat),
                n >= 10,
        ;
        lemma_dec_of_len_bound(n / 10, (k - 1) as nat);
    }
}

/// A value of at most two digits pads to exactly two characters.
pub proof fn lemma_dec_of_pad2(n: nat)
    requires
        n <= 99,
    ensures
        dec_of_pad(n, 2).len() == 2,
        all_digits(dec_of_pad(n, 2)),
        spec_parse_u64(dec_of_pad(n, 2)) == Some(n as u64),
{
    assert(pow10(2) == 100) by {
        assert(pow10(0) == 1);
        assert(pow10(1) == 10);
    }
    lemma_dec_of_len_bound(n, 2);
    lemma_dec_of_pad(n, 2);
}

} // verus!
