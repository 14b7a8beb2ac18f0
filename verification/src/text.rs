//! Text helpers shared by the toolchain: rendering integers in decimal and
//! hexadecimal, padding, and parsing integer literals.
//!
//! The renderings follow the conventions of Rust's `{}`, `{:X}`, `{:0N X}`,
//! `{:N}` and `{:<N}` formats; the parsers follow `str::parse` and
//! `from_str_radix` for the integer types the toolchain reads.

use vstd::prelude::*;

verus! {

// ---------------------------------------------------------------------------
// Digits
// ---------------------------------------------------------------------------

/// The character of a decimal digit value.
pub open spec fn dec_digit(d: nat) -> char {
    seq!['0', '1', '2', '3', '4', '5', '6', '7', '8', '9'][d as int]
}

/// The upper-case character of a hexadecimal digit value.
pub open spec fn hex_digit(d: nat) -> char {
    seq!['0', '1', '2', '3', '4', '5', '6', '7', '8', '9', 'A', 'B', 'C', 'D', 'E', 'F'][d as int]
}

pub open spec fn is_dec_digit(c: char) -> bool {
    '0' <= c && c <= '9'
}

pub open spec fn is_hex_digit(c: char) -> bool {
    is_dec_digit(c) || ('a' <= c && c <= 'f') || ('A' <= c && c <= 'F')
}

pub open spec fn is_ascii_alpha(c: char) -> bool {
    ('a' <= c && c <= 'z') || ('A' <= c && c <= 'Z')
}

pub open spec fn is_ascii_alnum(c: char) -> bool {
    is_ascii_alpha(c) || is_dec_digit(c)
}

/// Value of a hexadecimal (or decimal) digit character.
pub open spec fn digit_value(c: char) -> nat {
    if is_dec_digit(c) {
        (c as int - '0' as int) as nat
    } else if 'a' <= c && c <= 'f' {
        (c as int - 'a' as int + 10) as nat
    } else {
        (c as int - 'A' as int + 10) as nat
    }
}

pub open spec fn all_dec_digits(s: Seq<char>) -> bool {
    forall|i: int| 0 <= i < s.len() ==> is_dec_digit(#[trigger] s[i])
}

pub open spec fn all_hex_digits(s: Seq<char>) -> bool {
    forall|i: int| 0 <= i < s.len() ==> is_hex_digit(#[trigger] s[i])
}

/// Value of a string of decimal digits.
pub open spec fn dec_value(s: Seq<char>) -> nat
    decreases s.len(),
{
    if s.len() == 0 {
        0
    } else {
        dec_value(s.drop_last()) * 10 + digit_value(s.last())
    }
}

/// Value of a string of hexadecimal digits.
pub open spec fn hex_value(s: Seq<char>) -> nat
    decreases s.len(),
{
    if s.len() == 0 {
        0
    } else {
        hex_value(s.drop_last()) * 16 + digit_value(s.last())
    }
}

// ---------------------------------------------------------------------------
// Rendering
// ---------------------------------------------------------------------------

/// Decimal rendering of a natural number (`{}`).
pub open spec fn dec_nat(n: nat) -> Seq<char>
    decreases n,
{
    if n < 10 {
        seq![dec_digit(n)]
    } else {
        dec_nat(n / 10).push(dec_digit(n % 10))
    }
}

/// Decimal rendering of an integer (`{}`), with a leading `-` when negative.
pub open spec fn dec_int(i: int) -> Seq<char> {
    if i < 0 {
        seq!['-'] + dec_nat((-i) as nat)
    } else {
        dec_nat(i as nat)
    }
}

/// Upper-case hexadecimal rendering of a natural number (`{:X}`).
pub open spec fn hex_nat(n: nat) -> Seq<char>
    decreases n,
{
    if n < 16 {
        seq![hex_digit(n)]
    } else {
        hex_nat(n / 16).push(hex_digit(n % 16))
    }
}

/// `k` copies of the character `c`.
pub open spec fn repeat_char(c: char, k: nat) -> Seq<char> {
    Seq::new(k, |_i: int| c)
}

/// `s` widened to `w` characters by `fill` characters on the left.
pub open spec fn pad_left(s: Seq<char>, w: nat, fill: char) -> Seq<char> {
    if s.len() < w {
        repeat_char(fill, (w - s.len()) as nat) + s
    } else {
        s
    }
}

/// `s` widened to `w` characters by spaces on the right (`{:<w}`).
pub open spec fn pad_right(s: Seq<char>, w: nat) -> Seq<char> {
    if s.len() < w {
        s + repeat_char(' ', (w - s.len()) as nat)
    } else {
        s
    }
}

/// Zero-padded upper-case hexadecimal (`{:0wX}`).
pub open spec fn hex_padded(n: nat, w: nat) -> Seq<char> {
    pad_left(hex_nat(n), w, '0')
}

/// Appends one character to a `String`.
/// Trusted: calls `String::push`, which appends the character at the end.
#[verifier::external_body]
pub(crate) fn string_push(s: &mut String, c: char)
    ensures
        final(s)@ == old(s)@.push(c),
{
    s.push(c);
}

fn dec_digit_char(d: u64) -> (c: char)
    requires
        d < 10,
    ensures
        c == dec_digit(d as nat),
{
    match d {
        0 => '0',
        1 => '1',
        2 => '2',
        3 => '3',
        4 => '4',
        5 => '5',
        6 => '6',
        7 => '7',
        8 => '8',
        _ => '9',
    }
}

fn hex_digit_char(d: u64) -> (c: char)
    requires
        d < 16,
    ensures
        c == hex_digit(d as nat),
{
    match d {
        0 => '0',
        1 => '1',
        2 => '2',
        3 => '3',
        4 => '4',
        5 => '5',
        6 => '6',
        7 => '7',
        8 => '8',
        9 => '9',
        10 => 'A',
        11 => 'B',
        12 => 'C',
        13 => 'D',
        14 => 'E',
        _ => 'F',
    }
}

/// Appends the decimal rendering of `n`.
pub fn push_dec_u64(out: &mut String, n: u64)
    ensures
        final(out)@ == old(out)@ + dec_nat(n as nat),
    decreases n,
{
    if n >= 10 {
        push_dec_u64(out, n / 10);
    }
    string_push(out, dec_digit_char(n % 10));
    proof {
        if n >= 10 {
            assert(dec_nat(n as nat) == dec_nat((n / 10) as nat).push(dec_digit((n % 10) as nat)));
            assert(final(out)@ =~= old(out)@ + dec_nat(n as nat));
        } else {
            assert(final(out)@ =~= old(out)@ + dec_nat(n as nat));
        }
    }
}

/// Appends the decimal rendering of a signed integer.
pub fn push_dec_i64(out: &mut String, v: i64)
    ensures
        final(out)@ == old(out)@ + dec_int(v as int),
{
    if v < 0 {
        string_push(out, '-');
        let m: u64 = if v == i64::MIN {
            9223372036854775808u64
        } else {
            (-v) as u64
        };
        push_dec_u64(out, m);
        assert(final(out)@ =~= old(out)@ + dec_int(v as int));
    } else {
        push_dec_u64(out, v as u64);
    }
}

/// Appends the hexadecimal rendering of `n`.
pub fn push_hex_u64(out: &mut String, n: u64)
    ensures
        final(out)@ == old(out)@ + hex_nat(n as nat),
    decreases n,
{
    if n >= 16 {
        push_hex_u64(out, n / 16);
    }
    string_push(out, hex_digit_char(n % 16));
    proof {
        if n >= 16 {
            assert(hex_nat(n as nat) == hex_nat((n / 16) as nat).push(hex_digit((n % 16) as nat)));
        }
        assert(final(out)@ =~= old(out)@ + hex_nat(n as nat));
    }
}

/// Number of characters of the decimal rendering of `n`.
pub fn dec_width(n: u64) -> (w: usize)
    ensures
        w == dec_nat(n as nat).len(),
        1 <= w <= 20,
    decreases n,
{
    if n >= 10 {
        let k = dec_width(n / 10);
        proof {
            assert(dec_nat(n as nat) == dec_nat((n / 10) as nat).push(dec_digit((n % 10) as nat)));
            lemma_dec_nat_len_bound(n as nat);
        }
        k + 1
    } else {
        1
    }
}

/// Number of characters of the hexadecimal rendering of `n`.
pub fn hex_width(n: u64) -> (w: usize)
    ensures
        w == hex_nat(n as nat).len(),
        1 <= w <= 16,
    decreases n,
{
    if n >= 16 {
        let k = hex_width(n / 16);
        proof {
            assert(hex_nat(n as nat) == hex_nat((n / 16) as nat).push(hex_digit((n % 16) as nat)));
            lemma_hex_nat_len_bound(n as nat);
        }
        k + 1
    } else {
        1
    }
}

pub proof fn lemma_dec_nat_len_bound(n: nat)
    ensures
        n < 0x1_0000_0000_0000_0000 ==> dec_nat(n).len() <= 20,
        dec_nat(n).len() >= 1,
    decreases n,
{
    if n >= 10 {
        lemma_dec_nat_len_bound(n / 10);
        if n < 0x1_0000_0000_0000_0000 {
            lemma_dec_len_small(n);
        }
    }
}

proof fn lemma_dec_len_small(n: nat)
    requires
        n < 0x1_0000_0000_0000_0000,
    ensures
        dec_nat(n).len() <= 20,
{
    reveal_with_fuel(pow10, 21);
    lemma_dec_len_pow(n, 20);
}

/// `dec_nat(n)` has at most `k` digits when `n < 10^k`.
proof fn lemma_dec_len_pow(n: nat, k: nat)
    requires
        k >= 1,
        n < pow10(k),
    ensures
        dec_nat(n).len() <= k,
    decreases k,
{
    if n >= 10 {
        assert(k >= 2) by {
            if k == 1 {
                assert(pow10(1) == 10 * pow10(0));
            }
        }
        assert(n / 10 < pow10((k - 1) as nat)) by {
            assert(pow10(k) == 10 * pow10((k - 1) as nat));
        }
        lemma_dec_len_pow(n / 10, (k - 1) as nat);
    }
}

pub open spec fn pow10(k: nat) -> nat
    decreases k,
{
    if k == 0 {
        1
    } else {
        10 * pow10((k - 1) as nat)
    }
}

pub proof fn lemma_hex_nat_len_bound(n: nat)
    ensures
        n < 0x1_0000_0000_0000_0000 ==> hex_nat(n).len() <= 16,
        hex_nat(n).len() >= 1,
    decreases n,
{
    if n >= 16 {
        lemma_hex_nat_len_bound(n / 16);
        if n < 0x1_0000_0000_0000_0000 {
            reveal_with_fuel(pow16, 17);
            lemma_hex_len_pow(n, 16);
        }
    }
}

pub open spec fn pow16(k: nat) -> nat
    decreases k,
{
    if k == 0 {
        1
    } else {
        16 * pow16((k - 1) as nat)
    }
}

proof fn lemma_hex_len_pow(n: nat, k: nat)
    requires
        k >= 1,
        n < pow16(k),
    ensures
        hex_nat(n).len() <= k,
    decreases k,
{
    if n >= 16 {
        assert(k >= 2) by {
            if k == 1 {
                assert(pow16(1) == 16 * pow16(0));
            }
        }
        assert(n / 16 < pow16((k - 1) as nat)) by {
            assert(pow16(k) == 16 * pow16((k - 1) as nat));
        }
        lemma_hex_len_pow(n / 16, (k - 1) as nat);
    }
}

/// Appends `k` copies of `c`.
pub fn push_repeat(out: &mut String, c: char, k: usize)
    ensures
        final(out)@ == old(out)@ + repeat_char(c, k as nat),
{
    let mut i: usize = 0;
    while i < k
        invariant
            i <= k,
            out@ == old(out)@ + repeat_char(c, i as nat),
        decreases k - i,
    {
        string_push(out, c);
        i = i + 1;
        assert(out@ =~= old(out)@ + repeat_char(c, i as nat));
    }
}

/// Appends `n` in upper-case hexadecimal, zero-padded to `w` digits (`{:0wX}`).
pub fn push_hex_padded(out: &mut String, n: u64, w: usize)
    ensures
        final(out)@ == old(out)@ + hex_padded(n as nat, w as nat),
{
    let k = hex_width(n);
    if k < w {
        push_repeat(out, '0', w - k);
    }
    push_hex_u64(out, n);
    assert(final(out)@ =~= old(out)@ + hex_padded(n as nat, w as nat));
}

/// Appends the decimal rendering of `n`, right-aligned in `w` columns (`{:w}`).
pub fn push_dec_u64_right(out: &mut String, n: u64, w: usize)
    ensures
        final(out)@ == old(out)@ + pad_left(dec_nat(n as nat), w as nat, ' '),
{
    let k = dec_width(n);
    if k < w {
        push_repeat(out, ' ', w - k);
    }
    push_dec_u64(out, n);
    assert(final(out)@ =~= old(out)@ + pad_left(dec_nat(n as nat), w as nat, ' '));
}

/// Appends the characters of `s`.
pub fn push_str(out: &mut String, s: &str)
    ensures
        final(out)@ == old(out)@ + s@,
{
    out.append(s);
}

/// Appends the characters of `s` (a `String`).
pub fn push_string(out: &mut String, s: &String)
    ensures
        final(out)@ == old(out)@ + s@,
{
    out.append(s.as_str());
}

/// Appends `s`, left-aligned in `w` columns (`{:<w}`).
pub fn push_str_padded(out: &mut String, s: &str, w: usize)
    ensures
        final(out)@ == old(out)@ + pad_right(s@, w as nat),
{
    let k = s.unicode_len();
    out.append(s);
    if k < w {
        push_repeat(out, ' ', w - k);
    }
    assert(final(out)@ =~= old(out)@ + pad_right(s@, w as nat));
}

/// Copies the characters of a string slice into a vector.
pub fn chars_of(s: &str) -> (v: Vec<char>)
    ensures
        v@ == s@,
{
    let mut v: Vec<char> = Vec::new();
    for c in it: s.chars()
        invariant
            v@ == it.seq().take(it.index() as int),
            it.seq() == s@,
    {
        v.push(c);
    }
    v
}

/// Equality of two string slices, character by character.
pub fn str_eq(a: &str, b: &str) -> (r: bool)
    ensures
        r == (a@ == b@),
{
    let x = chars_of(a);
    let y = chars_of(b);
    chars_eq(&x, &y)
}

/// Equality of two character vectors.
pub fn chars_eq(x: &Vec<char>, y: &Vec<char>) -> (r: bool)
    ensures
        r == (x@ == y@),
{
    if x.len() != y.len() {
        return false;
    }
    let mut i: usize = 0;
    while i < x.len()
        invariant
            x@.len() == y@.len(),
            i <= x@.len(),
            forall|j: int| 0 <= j < i ==> x@[j] == y@[j],
        decreases x@.len() - i,
    {
        if x[i] != y[i] {
            return false;
        }
        i = i + 1;
    }
    assert(x@ =~= y@);
    true
}

// ---------------------------------------------------------------------------
// Parsing
// ---------------------------------------------------------------------------

/// `str::parse::<i64>`: an optional sign, then one or more decimal digits
/// whose value fits in `i64`.
pub open spec fn spec_parse_i64(s: Seq<char>) -> Option<i64> {
    let neg = s.len() > 0 && s[0] == '-';
    let digits = if s.len() > 0 && (s[0] == '-' || s[0] == '+') {
        s.drop_first()
    } else {
        s
    };
    if digits.len() == 0 || !all_dec_digits(digits) {
        None
    } else if neg {
        if dec_value(digits) <= 0x8000_0000_0000_0000 {
            Some((-dec_value(digits)) as i64)
        } else {
            None
        }
    } else if dec_value(digits) <= 0x7FFF_FFFF_FFFF_FFFF {
        Some(dec_value(digits) as i64)
    } else {
        None
    }
}

/// `i64::from_str_radix(s, 16)`: an optional sign, then one or more
/// hexadecimal digits whose value fits in `i64`.
pub open spec fn spec_parse_i64_hex(s: Seq<char>) -> Option<i64> {
    let neg = s.len() > 0 && s[0] == '-';
    let digits = if s.len() > 0 && (s[0] == '-' || s[0] == '+') {
        s.drop_first()
    } else {
        s
    };
    if digits.len() == 0 || !all_hex_digits(digits) {
        None
    } else if neg {
        if hex_value(digits) <= 0x8000_0000_0000_0000 {
            Some((-hex_value(digits)) as i64)
        } else {
            None
        }
    } else if hex_value(digits) <= 0x7FFF_FFFF_FFFF_FFFF {
        Some(hex_value(digits) as i64)
    } else {
        None
    }
}

/// `str::parse::<u8>`: an optional `+`, then one or more decimal digits
/// whose value is at most 255.
pub open spec fn spec_parse_u8(s: Seq<char>) -> Option<u8> {
    let digits = if s.len() > 0 && s[0] == '+' {
        s.drop_first()
    } else {
        s
    };
    if digits.len() == 0 || !all_dec_digits(digits) || dec_value(digits) > 255 {
        None
    } else {
        Some(dec_value(digits) as u8)
    }
}

pub fn is_dec_digit_exec(c: char) -> (r: bool)
    ensures
        r == is_dec_digit(c),
{
    '0' <= c && c <= '9'
}

pub fn is_hex_digit_exec(c: char) -> (r: bool)
    ensures
        r == is_hex_digit(c),
{
    ('0' <= c && c <= '9') || ('a' <= c && c <= 'f') || ('A' <= c && c <= 'F')
}

pub fn is_ascii_alpha_exec(c: char) -> (r: bool)
    ensures
        r == is_ascii_alpha(c),
{
    ('a' <= c && c <= 'z') || ('A' <= c && c <= 'Z')
}

pub fn is_ascii_alnum_exec(c: char) -> (r: bool)
    ensures
        r == is_ascii_alnum(c),
{
    is_ascii_alpha_exec(c) || is_dec_digit_exec(c)
}

fn digit_value_exec(c: char) -> (v: u64)
    requires
        is_hex_digit(c),
    ensures
        v == digit_value(c),
        v < 16,
{
    let u = c as u32;
    if '0' <= c && c <= '9' {
        (u - 48) as u64
    } else if 'a' <= c && c <= 'f' {
        (u - 97 + 10) as u64
    } else {
        (u - 65 + 10) as u64
    }
}

proof fn lemma_dec_value_step(s: Seq<char>, a: int, b: int)
    requires
        0 <= a <= b < s.len(),
    ensures
        dec_value(s.subrange(a, b + 1)) == dec_value(s.subrange(a, b)) * 10 + digit_value(s[b]),
        hex_value(s.subrange(a, b + 1)) == hex_value(s.subrange(a, b)) * 16 + digit_value(s[b]),
{
    assert(s.subrange(a, b + 1).drop_last() =~= s.subrange(a, b));
}

/// The value of a digit string is at least the value of any prefix.
pub proof fn lemma_dec_value_prefix(s: Seq<char>, k: int)
    requires
        0 <= k <= s.len(),
    ensures
        dec_value(s.take(k)) <= dec_value(s),
        hex_value(s.take(k)) <= hex_value(s),
    decreases s.len() - k,
{
    if k < s.len() {
        lemma_dec_value_prefix(s, k + 1);
        assert(s.take(k + 1).drop_last() =~= s.take(k));
    } else {
        assert(s.take(k) =~= s);
    }
}

/// Parses `s[from..to]` as `str::parse::<i64>` does.
pub fn parse_i64_dec(s: &Vec<char>, from: usize, to: usize) -> (r: Option<i64>)
    requires
        from <= to <= s@.len(),
    ensures
        r == spec_parse_i64(s@.subrange(from as int, to as int)),
{
    parse_i64_radix(s, from, to, false)
}

/// Parses `s[from..to]` as `i64::from_str_radix(_, 16)` does.
pub fn parse_i64_hex(s: &Vec<char>, from: usize, to: usize) -> (r: Option<i64>)
    requires
        from <= to <= s@.len(),
    ensures
        r == spec_parse_i64_hex(s@.subrange(from as int, to as int)),
{
    parse_i64_radix(s, from, to, true)
}

fn parse_i64_radix(s: &Vec<char>, from: usize, to: usize, hex: bool) -> (r: Option<i64>)
    requires
        from <= to <= s@.len(),
    ensures
        hex ==> r == spec_parse_i64_hex(s@.subrange(from as int, to as int)),
        !hex ==> r == spec_parse_i64(s@.subrange(from as int, to as int)),
{
    let ghost whole = s@.subrange(from as int, to as int);
    let mut i = from;
    let mut neg = false;
    if i < to && (s[i] == '-' || s[i] == '+') {
        neg = s[i] == '-';
        i = i + 1;
    }
    let start = i;
    let ghost digits = s@.subrange(start as int, to as int);
    assert(digits =~= (if whole.len() > 0 && (whole[0] == '-' || whole[0] == '+') {
        whole.drop_first()
    } else {
        whole
    }));
    if start == to {
        return None;
    }
    let mut acc: u64 = 0;
    while i < to
        invariant
            from <= start <= i <= to <= s@.len(),
            start < to,
            whole == s@.subrange(from as int, to as int),
            digits == s@.subrange(start as int, to as int),
            digits == (if whole.len() > 0 && (whole[0] == '-' || whole[0] == '+') {
                whole.drop_first()
            } else {
                whole
            }),
            neg == (whole.len() > 0 && whole[0] == '-'),
            all_dec_digits(s@.subrange(start as int, i as int)) || hex,
            all_hex_digits(s@.subrange(start as int, i as int)),
            !hex ==> acc == dec_value(s@.subrange(start as int, i as int)),
            hex ==> acc == hex_value(s@.subrange(start as int, i as int)),
            acc <= 0x8000_0000_0000_0000,
        decreases to - i,
    {
        let c = s[i];
        let ok = if hex {
            is_hex_digit_exec(c)
        } else {
            is_dec_digit_exec(c)
        };
        if !ok {
            assert(digits[i - start] == c);
            return None;
        }
        let d = digit_value_exec(c);
        proof {
            lemma_dec_value_step(s@, start as int, i as int);
        }
        let next: u128 = if hex {
            acc as u128 * 16 + d as u128
        } else {
            acc as u128 * 10 + d as u128
        };
        if next > 0x8000_0000_0000_0000u128 {
            proof {
                assert(s@.subrange(start as int, i + 1) =~= digits.take(i + 1 - start));
                lemma_dec_value_prefix(digits, i + 1 - start);
            }
            return None;
        }
        acc = next as u64;
        i = i + 1;
        assert forall|j: int| 0 <= j < s@.subrange(start as int, i as int).len() implies is_hex_digit(
            #[trigger] s@.subrange(start as int, i as int)[j],
        ) by {
            if j < i - 1 - start {
                assert(s@.subrange(start as int, i - 1)[j] == s@.subrange(start as int, i as int)[j]);
            }
        }
        if !hex {
            assert forall|j: int| 0 <= j < s@.subrange(start as int, i as int).len() implies is_dec_digit(
                #[trigger] s@.subrange(start as int, i as int)[j],
            ) by {
                if j < i - 1 - start {
                    assert(s@.subrange(start as int, i - 1)[j] == s@.subrange(start as int, i as int)[j]);
                }
            }
        }
    }
    assert(s@.subrange(start as int, i as int) =~= digits);
    if neg {
        if acc == 0x8000_0000_0000_0000u64 {
            Some(i64::MIN)
        } else {
            Some(-(acc as i64))
        }
    } else if acc > 0x7FFF_FFFF_FFFF_FFFFu64 {
        None
    } else {
        Some(acc as i64)
    }
}

/// Parses `s[from..to]` as `str::parse::<u8>` does.
pub fn parse_u8_dec(s: &Vec<char>, from: usize, to: usize) -> (r: Option<u8>)
    requires
        from <= to <= s@.len(),
    ensures
        r == spec_parse_u8(s@.subrange(from as int, to as int)),
{
    let ghost whole = s@.subrange(from as int, to as int);
    let mut i = from;
    if i < to && s[i] == '+' {
        i = i + 1;
    }
    let start = i;
    let ghost digits = s@.subrange(start as int, to as int);
    assert(digits =~= (if whole.len() > 0 && whole[0] == '+' {
        whole.drop_first()
    } else {
        whole
    }));
    if start == to {
        return None;
    }
    let mut acc: u64 = 0;
    while i < to
        invariant
            from <= start <= i <= to <= s@.len(),
            start < to,
            whole == s@.subrange(from as int, to as int),
            digits == s@.subrange(start as int, to as int),
            digits == (if whole.len() > 0 && whole[0] == '+' {
                whole.drop_first()
            } else {
                whole
            }),
            all_dec_digits(s@.subrange(start as int, i as int)),
            acc == dec_value(s@.subrange(start as int, i as int)),
            acc <= 255,
        decreases to - i,
    {
        let c = s[i];
        if !is_dec_digit_exec(c) {
            assert(digits[i - start] == c);
            return None;
        }
        let d = digit_value_exec(c);
        proof {
            lemma_dec_value_step(s@, start as int, i as int);
        }
        let next = acc * 10 + d;
        if next > 255 {
            proof {
                assert(s@.subrange(start as int, i + 1) =~= digits.take(i + 1 - start));
                lemma_dec_value_prefix(digits, i + 1 - start);
            }
            return None;
        }
        acc = next;
        i = i + 1;
        assert forall|j: int| 0 <= j < s@.subrange(start as int, i as int).len() implies is_dec_digit(
            #[trigger] s@.subrange(start as int, i as int)[j],
        ) by {
            if j < i - 1 - start {
                assert(s@.subrange(start as int, i - 1)[j] == s@.subrange(start as int, i as int)[j]);
            }
        }
    }
    assert(s@.subrange(start as int, i as int) =~= digits);
    Some(acc as u8)
}

// ---------------------------------------------------------------------------
// Facts about renderings, used to show that printed text reads back
// ---------------------------------------------------------------------------

/// Digit characters read back to their values.
pub proof fn lemma_digit_char_value(d: nat)
    requires
        d < 16,
    ensures
        is_hex_digit(hex_digit(d)),
        digit_value(hex_digit(d)) == d,
        d < 10 ==> is_dec_digit(dec_digit(d)),
        d < 10 ==> digit_value(dec_digit(d)) == d,
        d < 10 ==> hex_digit(d) == dec_digit(d),
{
    if d == 0 {
    } else if d == 1 {
    } else if d == 2 {
    } else if d == 3 {
    } else if d == 4 {
    } else if d == 5 {
    } else if d == 6 {
    } else if d == 7 {
    } else if d == 8 {
    } else if d == 9 {
    } else if d == 10 {
    } else if d == 11 {
    } else if d == 12 {
    } else if d == 13 {
    } else if d == 14 {
    } else {
    }
}

/// Every character of `dec_nat(n)` is a decimal digit, and the digits read back to `n`.
pub proof fn lemma_dec_nat_reads_back(n: nat)
    ensures
        all_dec_digits(dec_nat(n)),
        dec_value(dec_nat(n)) == n,
        dec_nat(n).len() >= 1,
    decreases n,
{
    lemma_digit_char_value(n % 10);
    if n < 10 {
        assert(dec_nat(n).drop_last() =~= Seq::<char>::empty());
        assert(dec_value(Seq::<char>::empty()) == 0);
    } else {
        lemma_dec_nat_reads_back(n / 10);
        let s = dec_nat(n);
        assert(s.drop_last() =~= dec_nat(n / 10));
        assert forall|i: int| 0 <= i < s.len() implies is_dec_digit(#[trigger] s[i]) by {
            if i < s.len() - 1 {
                assert(s[i] == dec_nat(n / 10)[i]);
            }
        }
    }
}

/// Every character of `hex_nat(n)` is a hexadecimal digit, and the digits read back to `n`.
pub proof fn lemma_hex_nat_reads_back(n: nat)
    ensures
        all_hex_digits(hex_nat(n)),
        hex_value(hex_nat(n)) == n,
        hex_nat(n).len() >= 1,
    decreases n,
{
    lemma_digit_char_value(n % 16);
    if n < 16 {
        assert(hex_nat(n).drop_last() =~= Seq::<char>::empty());
        assert(hex_value(Seq::<char>::empty()) == 0);
    } else {
        lemma_hex_nat_reads_back(n / 16);
        let s = hex_nat(n);
        assert(s.drop_last() =~= hex_nat(n / 16));
        assert forall|i: int| 0 <= i < s.len() implies is_hex_digit(#[trigger] s[i]) by {
            if i < s.len() - 1 {
                assert(s[i] == hex_nat(n / 16)[i]);
            }
        }
    }
}

/// Leading zeros do not change the value of a hexadecimal digit string.
pub proof fn lemma_hex_value_leading_zeros(k: nat, s: Seq<char>)
    ensures
        hex_value(repeat_char('0', k) + s) == hex_value(s),
    decreases s.len(), k,
{
    if s.len() == 0 {
        if k > 0 {
            assert((repeat_char('0', k) + s).drop_last() =~= repeat_char('0', (k - 1) as nat) + s);
            lemma_hex_value_leading_zeros((k - 1) as nat, s);
        } else {
            assert(repeat_char('0', k) + s =~= s);
        }
    } else {
        assert((repeat_char('0', k) + s).drop_last() =~= repeat_char('0', k) + s.drop_last());
        lemma_hex_value_leading_zeros(k, s.drop_last());
    }
}

/// A zero-padded hexadecimal rendering reads back to its value.
pub proof fn lemma_hex_padded_reads_back(n: nat, w: nat)
    ensures
        all_hex_digits(hex_padded(n, w)),
        hex_value(hex_padded(n, w)) == n,
        hex_padded(n, w).len() >= 1,
        hex_padded(n, w).len() >= w,
{
    lemma_hex_nat_reads_back(n);
    let s = hex_nat(n);
    if s.len() < w {
        let z = repeat_char('0', (w - s.len()) as nat);
        lemma_hex_value_leading_zeros((w - s.len()) as nat, s);
        assert forall|i: int| 0 <= i < (z + s).len() implies is_hex_digit(#[trigger] (z + s)[i]) by {
            if i >= z.len() {
                assert((z + s)[i] == s[i - z.len()]);
            }
        }
    }
}

/// A decimal rendering of an `i64` parses back to the same value.
pub proof fn lemma_dec_int_parses_back(v: i64)
    ensures
        spec_parse_i64(dec_int(v as int)) == Some(v),
{
    if v < 0 {
        let m = (-(v as int)) as nat;
        lemma_dec_nat_reads_back(m);
        let s = dec_int(v as int);
        assert(s.drop_first() =~= dec_nat(m));
    } else {
        lemma_dec_nat_reads_back(v as nat);
        let s = dec_nat(v as nat);
        assert(s[0] != '-' && s[0] != '+') by {
            assert(is_dec_digit(s[0]));
        }
    }
}

/// A hexadecimal rendering of a value below 2^63 parses back to it.
pub proof fn lemma_hex_parses_back(n: nat, w: nat)
    requires
        n <= 0x7FFF_FFFF_FFFF_FFFF,
    ensures
        spec_parse_i64_hex(hex_padded(n, w)) == Some(n as i64),
{
    lemma_hex_padded_reads_back(n, w);
    let s = hex_padded(n, w);
    assert(is_hex_digit(s[0]));
}

/// A decimal rendering of a `u8` parses back to it.
pub proof fn lemma_dec_u8_parses_back(v: u8)
    ensures
        spec_parse_u8(dec_nat(v as nat)) == Some(v),
{
    lemma_dec_nat_reads_back(v as nat);
    let s = dec_nat(v as nat);
    assert(is_dec_digit(s[0]));
}

/// Upper-casing of a hexadecimal letter; other characters stay.
pub open spec fn hex_upper(c: char) -> char {
    if 'a' <= c && c <= 'f' {
        ((c as u32) - 32) as char
    } else {
        c
    }
}

/// Digit characters have the values of their digits: `0`..`9` are 0..9, and
/// both `a`..`f` and `A`..`F` are 10..15.
pub proof fn law_digit_values()
    ensures
        forall|k: u32| k < 10 ==> digit_value(#[trigger] ((48 + k) as char)) == k,
        forall|k: u32| k < 6 ==> digit_value(#[trigger] ((97 + k) as char)) == 10 + k,
        forall|k: u32| k < 6 ==> digit_value(#[trigger] ((65 + k) as char)) == 10 + k,
{
}

/// The value of a hexadecimal digit string does not depend on the case of
/// its letters.
pub proof fn law_hex_value_ignores_case(s: Seq<char>)
    requires
        all_hex_digits(s),
    ensures
        hex_value(s) == hex_value(s.map_values(|c: char| hex_upper(c))),
    decreases s.len(),
{
    let u = s.map_values(|c: char| hex_upper(c));
    if s.len() > 0 {
        let t = s.drop_last();
        assert(all_hex_digits(t)) by {
            assert forall|i: int| 0 <= i < t.len() implies is_hex_digit(#[trigger] t[i]) by {
                assert(t[i] == s[i]);
            }
        }
        law_hex_value_ignores_case(t);
        assert(u.drop_last() =~= t.map_values(|c: char| hex_upper(c)));
        let c = s.last();
        assert(is_hex_digit(c));
        assert(u.last() == hex_upper(c));
        assert(digit_value(hex_upper(c)) == digit_value(c));
    }
}

} // verus!
