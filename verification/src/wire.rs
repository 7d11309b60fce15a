//! The wire format of the child media server: JSON, as the interface uses
//! it.
//!
//! Command-endpoint responses and event-subscription messages are JSON
//! objects. The fields this supervisor reads are `type`, `action`,
//! `position`, `time` and `path`; unknown keys — their values may be any
//! JSON value, nested ones included — are skipped, a later duplicate key
//! replaces an earlier one, and a field of the wrong shape counts as
//! absent. Strings decode the JSON escapes (`\" \\ \/ \b \f \n \r \t
//! \uXXXX`, surrogate pairs included) and reject raw control characters.
//! Numbers carry the full JSON grammar — optional sign, fraction, exponent,
//! no leading zeros — and a position is held as whole milliseconds,
//! truncating below the millisecond; a number that does not fit the model
//! (negative and nonzero, beyond `u64` milliseconds, or one of the extreme
//! encodings `num_millis` documents) makes its field absent rather than
//! dropping the payload. A payload that breaks the grammar itself decodes
//! to nothing — malformed input is dropped, never an error.

use vstd::prelude::*;
use vstd::arithmetic::div_mod::lemma_fundamental_div_mod_converse_div;

verus! {

/// Whitespace accepted between tokens of a payload.
pub open spec fn is_ws(c: char) -> bool {
    c == ' ' || c == '\t' || c == '\n' || c == '\r'
}

/// The value of a digit character, or 10 for any other character.
pub open spec fn dval(c: char) -> nat {
    if c == '0' {
        0
    } else if c == '1' {
        1
    } else if c == '2' {
        2
    } else if c == '3' {
        3
    } else if c == '4' {
        4
    } else if c == '5' {
        5
    } else if c == '6' {
        6
    } else if c == '7' {
        7
    } else if c == '8' {
        8
    } else if c == '9' {
        9
    } else {
        10
    }
}

/// Whether `c` is a decimal digit.
pub open spec fn is_digit(c: char) -> bool {
    dval(c) < 10
}

/// The value of a hexadecimal digit, or 16 for any other character.
pub open spec fn hval(c: char) -> nat {
    if dval(c) < 10 {
        dval(c)
    } else if c == 'a' || c == 'A' {
        10
    } else if c == 'b' || c == 'B' {
        11
    } else if c == 'c' || c == 'C' {
        12
    } else if c == 'd' || c == 'D' {
        13
    } else if c == 'e' || c == 'E' {
        14
    } else if c == 'f' || c == 'F' {
        15
    } else {
        16
    }
}

/// Whether `c` is a hexadecimal digit.
pub open spec fn is_hex(c: char) -> bool {
    hval(c) < 16
}

/// The code point of a character.
pub open spec fn code_of(c: char) -> int {
    c as int
}

/// The character with the given code point.
pub open spec fn char_of(code: int) -> char {
    choose|c: char| code_of(c) == code
}

/// Whether `c` is a control character, which JSON strings must escape.
pub open spec fn is_ctl(c: char) -> bool {
    code_of(c) < 32
}

/// The value of the four hexadecimal digits at `i`.
pub open spec fn hex4(s: Seq<char>, i: int) -> int
    recommends
        0 <= i && i + 4 <= s.len(),
{
    hval(s[i]) * 4096 + hval(s[i + 1]) * 256 + hval(s[i + 2]) * 16 + hval(s[i + 3]) as int
}

/// The character a simple escape stands for, if the letter is one.
pub open spec fn esc_of(c: char) -> Option<char> {
    if c == '"' {
        Some('"')
    } else if c == '\\' {
        Some('\\')
    } else if c == '/' {
        Some('/')
    } else if c == 'b' {
        Some('\u{8}')
    } else if c == 'f' {
        Some('\u{c}')
    } else if c == 'n' {
        Some('\n')
    } else if c == 'r' {
        Some('\r')
    } else if c == 't' {
        Some('\t')
    } else {
        None
    }
}

/// First index at or after `i` holding no whitespace.
pub open spec fn sskip(s: Seq<char>, i: int) -> int
    decreases s.len() - i
        when 0 <= i <= s.len()
{
    if i < s.len() && is_ws(s[i]) {
        sskip(s, i + 1)
    } else {
        i
    }
}

pub proof fn lemma_sskip_bounds(s: Seq<char>, i: int)
    requires
        0 <= i <= s.len(),
    ensures
        i <= sskip(s, i) <= s.len(),
    decreases s.len() - i,
{
    if i < s.len() && is_ws(s[i]) {
        lemma_sskip_bounds(s, i + 1);
    }
}

/// First index at or after `i` holding no digit.
pub open spec fn sdig_end(s: Seq<char>, i: int) -> int
    decreases s.len() - i
        when 0 <= i <= s.len()
{
    if i < s.len() && is_digit(s[i]) {
        sdig_end(s, i + 1)
    } else {
        i
    }
}

pub proof fn lemma_sdig_end_bounds(s: Seq<char>, i: int)
    requires
        0 <= i <= s.len(),
    ensures
        i <= sdig_end(s, i) <= s.len(),
        forall|k: int| i <= k < sdig_end(s, i) ==> is_digit(s[k]),
    decreases s.len() - i,
{
    if i < s.len() && is_digit(s[i]) {
        lemma_sdig_end_bounds(s, i + 1);
    }
}

/// First index in `[i, j)` holding no '0', or `j`.
pub open spec fn szeros_end(s: Seq<char>, i: int, j: int) -> int
    decreases j - i
        when 0 <= i <= j <= s.len()
{
    if i < j && s[i] == '0' {
        szeros_end(s, i + 1, j)
    } else {
        i
    }
}

pub proof fn lemma_szeros_bounds(s: Seq<char>, i: int, j: int)
    requires
        0 <= i <= j <= s.len(),
    ensures
        i <= szeros_end(s, i, j) <= j,
        forall|k: int| i <= k < szeros_end(s, i, j) ==> s[k] == '0',
        szeros_end(s, i, j) < j ==> s[szeros_end(s, i, j)] != '0',
    decreases j - i,
{
    if i < j && s[i] == '0' {
        lemma_szeros_bounds(s, i + 1, j);
    }
}

/// The value of the digit run `s[i..j)`, most significant digit first.
pub open spec fn sdig_val(s: Seq<char>, i: int, j: int) -> nat
    decreases j - i
        when 0 <= i <= j <= s.len()
{
    if i >= j {
        0
    } else {
        sdig_val(s, i, j - 1) * 10 + dval(s[j - 1])
    }
}

/// Ten to the `n`.
pub open spec fn pow10(n: nat) -> nat
    decreases n,
{
    if n == 0 {
        1
    } else {
        pow10((n - 1) as nat) * 10
    }
}

pub proof fn lemma_pow10_le(a: nat, b: nat)
    requires
        a <= b,
    ensures
        1 <= pow10(a) <= pow10(b),
    decreases b,
{
    if a < b {
        lemma_pow10_le(a, (b - 1) as nat);
        assert(pow10(b) == pow10((b - 1) as nat) * 10);
    } else if b == 0 {
    } else {
        lemma_pow10_le(0, (b - 1) as nat);
    }
}

pub proof fn lemma_pow10_add(a: nat, b: nat)
    ensures
        pow10(a + b) == pow10(a) * pow10(b),
    decreases b,
{
    if b == 0 {
        assert(pow10(0) == 1);
    } else {
        lemma_pow10_add(a, (b - 1) as nat);
        assert(pow10(a + b) == pow10((a + b - 1) as nat) * 10);
        assert((a + b - 1) as nat == a + ((b - 1) as nat));
        assert(pow10(b) == pow10((b - 1) as nat) * 10);
        assert((pow10(a) * pow10((b - 1) as nat)) * 10 == pow10(a) * (pow10((b - 1) as nat) * 10))
            by (nonlinear_arith);
    }
}

pub proof fn lemma_sdig_val_bound(s: Seq<char>, i: int, j: int)
    requires
        0 <= i <= j <= s.len(),
        forall|k: int| i <= k < j ==> is_digit(s[k]),
    ensures
        sdig_val(s, i, j) < pow10((j - i) as nat),
    decreases j - i,
{
    if i < j {
        lemma_sdig_val_bound(s, i, j - 1);
        assert(dval(s[j - 1]) <= 9);
        assert(sdig_val(s, i, j - 1) * 10 <= (pow10((j - i - 1) as nat) - 1) * 10) by (nonlinear_arith)
            requires
                sdig_val(s, i, j - 1) < pow10((j - i - 1) as nat),
        ;
    }
}

/// The digit run `s[i..j)` splits at `k`: high digits scaled, low digits added.
pub proof fn lemma_sdig_val_split(s: Seq<char>, i: int, k: int, j: int)
    requires
        0 <= i <= k <= j <= s.len(),
    ensures
        sdig_val(s, i, j) == sdig_val(s, i, k) * pow10((j - k) as nat) + sdig_val(s, k, j),
    decreases j - k,
{
    if j == k {
        assert(sdig_val(s, k, j) == 0);
        assert((j - k) as nat == 0);
        assert(pow10(0) == 1);
        assert(sdig_val(s, i, k) * 1 == sdig_val(s, i, k)) by (nonlinear_arith);
        assert(sdig_val(s, i, j) == sdig_val(s, i, k) * pow10((j - k) as nat) + sdig_val(s, k, j));
    } else {
        lemma_sdig_val_split(s, i, k, j - 1);
        assert(sdig_val(s, i, j) == sdig_val(s, i, j - 1) * 10 + dval(s[j - 1]));
        assert(sdig_val(s, k, j) == sdig_val(s, k, j - 1) * 10 + dval(s[j - 1]));
        let p1 = pow10((j - 1 - k) as nat);
        assert(pow10((j - k) as nat) == p1 * 10);
        assert(sdig_val(s, i, j) == (sdig_val(s, i, k) * p1 + sdig_val(s, k, j - 1)) * 10 + dval(
            s[j - 1],
        ));
        assert(sdig_val(s, i, j) == sdig_val(s, i, k) * (p1 * 10) + (sdig_val(s, k, j - 1) * 10
            + dval(s[j - 1]))) by (nonlinear_arith)
            requires
                sdig_val(s, i, j) == (sdig_val(s, i, k) * p1 + sdig_val(s, k, j - 1)) * 10 + dval(
                    s[j - 1],
                ),
        ;
        assert(sdig_val(s, i, k) * (p1 * 10) == sdig_val(s, i, k) * pow10((j - k) as nat));
        assert(sdig_val(s, i, j) == sdig_val(s, i, k) * pow10((j - k) as nat) + sdig_val(s, k, j));
    }
}

/// A leading '0' adds nothing to a digit run's value.
pub proof fn lemma_sdig_val_drop_zero(s: Seq<char>, i: int, j: int)
    requires
        0 <= i < j <= s.len(),
        s[i] == '0',
    ensures
        sdig_val(s, i, j) == sdig_val(s, i + 1, j),
    decreases j - i,
{
    if j == i + 1 {
        assert(sdig_val(s, i, j) == sdig_val(s, i, i) * 10 + dval(s[i]));
        assert(sdig_val(s, i, i) == 0);
        assert(sdig_val(s, i + 1, j) == 0);
    } else {
        lemma_sdig_val_drop_zero(s, i, j - 1);
        assert(sdig_val(s, i, j) == sdig_val(s, i, j - 1) * 10 + dval(s[j - 1]));
        assert(sdig_val(s, i + 1, j) == sdig_val(s, i + 1, j - 1) * 10 + dval(s[j - 1]));
    }
}

/// Stripping every leading '0' leaves a digit run's value unchanged.
pub proof fn lemma_strip_zeros(s: Seq<char>, i: int, j: int)
    requires
        0 <= i <= j <= s.len(),
    ensures
        sdig_val(s, i, j) == sdig_val(s, szeros_end(s, i, j), j),
    decreases j - i,
{
    if i < j && s[i] == '0' {
        lemma_sdig_val_drop_zero(s, i, j);
        lemma_strip_zeros(s, i + 1, j);
    }
}

/// A digit run is zero exactly when it is all '0'.
pub proof fn lemma_sdig_val_zero(s: Seq<char>, i: int, j: int)
    requires
        0 <= i <= j <= s.len(),
        forall|k: int| i <= k < j ==> is_digit(s[k]),
    ensures
        (sdig_val(s, i, j) == 0) <==> (szeros_end(s, i, j) == j),
{
    lemma_szeros_bounds(s, i, j);
    lemma_strip_zeros(s, i, j);
    let z = szeros_end(s, i, j);
    if z < j {
        lemma_sdig_val_lower(s, z, j);
        lemma_pow10_le(0, (j - z - 1) as nat);
    }
}

/// A digit run whose first digit is not '0' is at least ten to its
/// remaining length.
pub proof fn lemma_sdig_val_lower(s: Seq<char>, z: int, j: int)
    requires
        0 <= z < j <= s.len(),
        forall|k: int| z <= k < j ==> is_digit(s[k]),
        s[z] != '0',
    ensures
        sdig_val(s, z, j) >= pow10((j - z - 1) as nat),
{
    lemma_sdig_val_split(s, z, z + 1, j);
    assert(sdig_val(s, z, z + 1) == sdig_val(s, z, z) * 10 + dval(s[z]));
    assert(sdig_val(s, z, z) == 0);
    assert(sdig_val(s, z, z + 1) == dval(s[z]));
    assert(dval(s[z]) >= 1);
    assert(sdig_val(s, z, z + 1) * pow10((j - z - 1) as nat) >= pow10((j - z - 1) as nat))
        by (nonlinear_arith)
        requires
            sdig_val(s, z, z + 1) >= 1,
    ;
}

/// The digit value of the integer and fraction runs read together.
pub open spec fn mantissa(s: Seq<char>, a: int, b: int, f0: int, f1: int) -> nat {
    sdig_val(s, a, b) * pow10((f1 - f0) as nat) + sdig_val(s, f0, f1)
}

/// The whole milliseconds a JSON number encodes, read as seconds: the
/// digits of the integer run `[a, b)` and the fraction run `[f0, f1)`,
/// scaled by the exponent run `[e0, e1)` (negative when `eneg`) and by a
/// thousand, truncating below the millisecond. Absent when the number is
/// negative and nonzero, or past `u64` milliseconds, and — conservatively,
/// for encodings no playback position uses — when a nonzero number carries
/// more than twenty integer digits, or a positive exponent above 9999
/// (reachable only beside a fraction thousands of digits long; a negative
/// one that large truncates to zero exactly).
pub open spec fn num_millis(
    s: Seq<char>,
    neg: bool,
    a: int,
    b: int,
    f0: int,
    f1: int,
    eneg: bool,
    e0: int,
    e1: int,
) -> Option<u64> {
    let dv = mantissa(s, a, b, f0, f1);
    let l = (b - a) + (f1 - f0);
    let e = sdig_val(s, e0, e1);
    if neg && dv != 0 {
        None
    } else if dv == 0 {
        Some(0u64)
    } else if b - a > 20 {
        None
    } else if e > 9999 {
        if eneg {
            Some(0u64)
        } else {
            None
        }
    } else {
        let q = (b - a) + 3 + (if eneg {
            -(e as int)
        } else {
            e as int
        });
        let m = if q >= l {
            dv * pow10((q - l) as nat)
        } else {
            dv / pow10((l - q) as nat)
        };
        if m > u64::MAX {
            None
        } else {
            Some(m as u64)
        }
    }
}

/// A number at `i` in the JSON grammar — optional minus, an integer part
/// without leading zeros, an optional fraction, an optional exponent — as
/// its milliseconds (see `num_millis`) and the index just past it; nothing
/// when the grammar is broken.
pub open spec fn snum(s: Seq<char>, i: int) -> Option<(Option<u64>, int)>
    recommends
        0 <= i <= s.len(),
{
    let neg = i < s.len() && s[i] == '-';
    let a = if neg {
        i + 1
    } else {
        i
    };
    let b = sdig_end(s, a);
    if b == a {
        None
    } else if s[a] == '0' && b - a > 1 {
        None
    } else if b < s.len() && s[b] == '.' {
        let c = sdig_end(s, b + 1);
        if c == b + 1 {
            None
        } else {
            snum_exp(s, neg, a, b, b + 1, c)
        }
    } else {
        snum_exp(s, neg, a, b, b, b)
    }
}

/// The optional exponent of a number whose digit runs end at `f1`.
pub open spec fn snum_exp(s: Seq<char>, neg: bool, a: int, b: int, f0: int, f1: int) -> Option<
    (Option<u64>, int),
> {
    if f1 < s.len() && (s[f1] == 'e' || s[f1] == 'E') {
        if f1 + 1 < s.len() && s[f1 + 1] == '-' {
            snum_tail(s, neg, a, b, f0, f1, true, f1 + 2)
        } else if f1 + 1 < s.len() && s[f1 + 1] == '+' {
            snum_tail(s, neg, a, b, f0, f1, false, f1 + 2)
        } else {
            snum_tail(s, neg, a, b, f0, f1, false, f1 + 1)
        }
    } else {
        Some((num_millis(s, neg, a, b, f0, f1, false, f1, f1), f1))
    }
}

/// The exponent digits of a number, which must not be empty.
pub open spec fn snum_tail(
    s: Seq<char>,
    neg: bool,
    a: int,
    b: int,
    f0: int,
    f1: int,
    eneg: bool,
    e0: int,
) -> Option<(Option<u64>, int)> {
    let e1 = sdig_end(s, e0);
    if e1 == e0 {
        None
    } else {
        Some((num_millis(s, neg, a, b, f0, f1, eneg, e0, e1), e1))
    }
}

pub proof fn lemma_snum_bounds(s: Seq<char>, i: int)
    requires
        0 <= i <= s.len(),
    ensures
        snum(s, i) matches Some(p) ==> i < p.1 <= s.len(),
{
    let neg = i < s.len() && s[i] == '-';
    let a = if neg {
        i + 1
    } else {
        i
    };
    if a <= s.len() {
        lemma_sdig_end_bounds(s, a);
        let b = sdig_end(s, a);
        lemma_snum_exp_bounds(s, neg, a, b, b, b);
        if b < s.len() && s[b] == '.' {
            lemma_sdig_end_bounds(s, b + 1);
            lemma_snum_exp_bounds(s, neg, a, b, b + 1, sdig_end(s, b + 1));
        }
    }
}

pub proof fn lemma_snum_exp_bounds(s: Seq<char>, neg: bool, a: int, b: int, f0: int, f1: int)
    requires
        0 <= f1 <= s.len(),
    ensures
        snum_exp(s, neg, a, b, f0, f1) matches Some(p) ==> f1 <= p.1 <= s.len(),
{
    if f1 < s.len() && (s[f1] == 'e' || s[f1] == 'E') {
        if f1 + 1 < s.len() && s[f1 + 1] == '-' {
            lemma_sdig_end_bounds(s, f1 + 2);
        } else if f1 + 1 < s.len() && s[f1 + 1] == '+' {
            lemma_sdig_end_bounds(s, f1 + 2);
        } else {
            lemma_sdig_end_bounds(s, f1 + 1);
        }
    }
}

/// Whether the word `w` stands at `i` in `s`.
pub open spec fn slit(s: Seq<char>, i: int, w: Seq<char>) -> bool {
    0 <= i && i + w.len() <= s.len() && s.subrange(i, i + w.len()) == w
}

/// The decoded contents of a JSON string whose interior starts at `i`,
/// together with the index just past the closing quote. Escapes become the
/// characters they stand for, a surrogate pair becomes one character, and
/// the string is malformed on a bad or lone escape, a raw control
/// character, or a missing closing quote.
pub open spec fn sstr(s: Seq<char>, i: int) -> Option<(Seq<char>, int)>
    decreases s.len() - i
        when 0 <= i <= s.len()
{
    if i >= s.len() {
        None
    } else if s[i] == '"' {
        Some((Seq::empty(), i + 1))
    } else if s[i] == '\\' {
        if i + 1 >= s.len() {
            None
        } else if s[i + 1] == 'u' {
            if i + 6 <= s.len() && is_hex(s[i + 2]) && is_hex(s[i + 3]) && is_hex(s[i + 4])
                && is_hex(s[i + 5]) {
                let code = hex4(s, i + 2);
                if 0xD800 <= code < 0xDC00 {
                    if i + 12 <= s.len() && s[i + 6] == '\\' && s[i + 7] == 'u' && is_hex(s[i + 8])
                        && is_hex(s[i + 9]) && is_hex(s[i + 10]) && is_hex(s[i + 11]) {
                        let lo = hex4(s, i + 8);
                        if 0xDC00 <= lo < 0xE000 {
                            match sstr(s, i + 12) {
                                Some((t, e)) => Some(
                                    (
                                        seq![
                                            char_of(
                                                0x10000 + (code - 0xD800) * 0x400 + (lo - 0xDC00),
                                            ),
                                        ] + t,
                                        e,
                                    ),
                                ),
                                None => None,
                            }
                        } else {
                            None
                        }
                    } else {
                        None
                    }
                } else if 0xDC00 <= code < 0xE000 {
                    None
                } else {
                    match sstr(s, i + 6) {
                        Some((t, e)) => Some((seq![char_of(code)] + t, e)),
                        None => None,
                    }
                }
            } else {
                None
            }
        } else {
            match esc_of(s[i + 1]) {
                Some(d) => match sstr(s, i + 2) {
                    Some((t, e)) => Some((seq![d] + t, e)),
                    None => None,
                },
                None => None,
            }
        }
    } else if is_ctl(s[i]) {
        None
    } else {
        match sstr(s, i + 1) {
            Some((t, e)) => Some((seq![s[i]] + t, e)),
            None => None,
        }
    }
}

pub proof fn lemma_sstr_bounds(s: Seq<char>, i: int)
    requires
        0 <= i <= s.len(),
    ensures
        sstr(s, i) matches Some(p) ==> i < p.1 <= s.len(),
    decreases s.len() - i,
{
    if i < s.len() && s[i] == '\\' && i + 1 < s.len() {
        if s[i + 1] == 'u' {
            if i + 6 <= s.len() {
                lemma_sstr_bounds(s, i + 6);
                if i + 12 <= s.len() {
                    lemma_sstr_bounds(s, i + 12);
                }
            }
        } else {
            if i + 2 <= s.len() {
                lemma_sstr_bounds(s, i + 2);
            }
        }
    } else if i < s.len() && s[i] != '"' {
        lemma_sstr_bounds(s, i + 1);
    }
}

/// The index just past any JSON value starting at `i`: a string, a number,
/// a word, or a whole nested object or array. Nothing when the value is
/// malformed.
pub open spec fn sval_end(s: Seq<char>, i: int) -> Option<int>
    decreases s.len() - i, 0int
        when 0 <= i <= s.len()
{
    if i >= s.len() {
        None
    } else if s[i] == '"' {
        match sstr(s, i + 1) {
            Some((t, e)) => Some(e),
            None => None,
        }
    } else if s[i] == '-' || is_digit(s[i]) {
        match snum(s, i) {
            Some((m, e)) => Some(e),
            None => None,
        }
    } else if s[i] == 't' {
        if slit(s, i, seq!['t', 'r', 'u', 'e']) {
            Some(i + 4)
        } else {
            None
        }
    } else if s[i] == 'f' {
        if slit(s, i, seq!['f', 'a', 'l', 's', 'e']) {
            Some(i + 5)
        } else {
            None
        }
    } else if s[i] == 'n' {
        if slit(s, i, seq!['n', 'u', 'l', 'l']) {
            Some(i + 4)
        } else {
            None
        }
    } else if s[i] == '{' {
        let j = sskip(s, i + 1);
        proof {
            lemma_sskip_bounds(s, i + 1);
        }
        if j < s.len() && s[j] == '}' {
            Some(j + 1)
        } else {
            smembers(s, j)
        }
    } else if s[i] == '[' {
        let j = sskip(s, i + 1);
        proof {
            lemma_sskip_bounds(s, i + 1);
        }
        if j < s.len() && s[j] == ']' {
            Some(j + 1)
        } else {
            sitems(s, j)
        }
    } else {
        None
    }
}

/// The index just past the `}` closing a run of `"key": value` members
/// whose first key starts at `i`.
pub open spec fn smembers(s: Seq<char>, i: int) -> Option<int>
    decreases s.len() - i, 2int
        when 0 <= i <= s.len()
{
    if i < s.len() && s[i] == '"' {
        match sstr(s, i + 1) {
            Some((k, m)) => {
                proof {
                    lemma_sstr_bounds(s, i + 1);
                }
                let c = sskip(s, m);
                proof {
                    lemma_sskip_bounds(s, m);
                }
                if c < s.len() && s[c] == ':' {
                    let v = sskip(s, c + 1);
                    proof {
                        lemma_sskip_bounds(s, c + 1);
                    }
                    match sval_end(s, v) {
                        Some(e) => {
                            let e2 = if e > v {
                                e
                            } else {
                                v + 1
                            };
                            let e3 = if e2 <= s.len() {
                                e2
                            } else {
                                s.len() as int
                            };
                            let t = sskip(s, e3);
                            proof {
                                lemma_sskip_bounds(s, e3);
                            }
                            if t < s.len() && s[t] == ',' {
                                let w = sskip(s, t + 1);
                                proof {
                                    lemma_sskip_bounds(s, t + 1);
                                }
                                smembers(s, w)
                            } else if t < s.len() && s[t] == '}' {
                                Some(t + 1)
                            } else {
                                None
                            }
                        },
                        None => None,
                    }
                } else {
                    None
                }
            },
            None => None,
        }
    } else {
        None
    }
}

/// The index just past the `]` closing a run of array items whose first
/// item starts at `i`.
pub open spec fn sitems(s: Seq<char>, i: int) -> Option<int>
    decreases s.len() - i, 1int
        when 0 <= i <= s.len()
{
    match sval_end(s, i) {
        Some(e) => {
            let e2 = if e > i {
                e
            } else {
                i + 1
            };
            let e3 = if e2 <= s.len() {
                e2
            } else {
                s.len() as int
            };
            let t = sskip(s, e3);
            proof {
                lemma_sskip_bounds(s, e3);
            }
            if t < s.len() && s[t] == ',' {
                let w = sskip(s, t + 1);
                proof {
                    lemma_sskip_bounds(s, t + 1);
                }
                sitems(s, w)
            } else if t < s.len() && s[t] == ']' {
                Some(t + 1)
            } else {
                None
            }
        },
        None => None,
    }
}

pub proof fn lemma_sval_bounds(s: Seq<char>, i: int)
    requires
        0 <= i <= s.len(),
    ensures
        sval_end(s, i) matches Some(e) ==> i < e <= s.len(),
    decreases s.len() - i, 0int,
{
    if i < s.len() {
        if s[i] == '"' {
            lemma_sstr_bounds(s, i + 1);
        } else if s[i] == '-' || is_digit(s[i]) {
            lemma_snum_bounds(s, i);
        } else if s[i] == '{' {
            lemma_sskip_bounds(s, i + 1);
            let j = sskip(s, i + 1);
            if !(j < s.len() && s[j] == '}') {
                lemma_smembers_bounds(s, j);
            }
        } else if s[i] == '[' {
            lemma_sskip_bounds(s, i + 1);
            let j = sskip(s, i + 1);
            if !(j < s.len() && s[j] == ']') {
                lemma_sitems_bounds(s, j);
            }
        }
    }
}

pub proof fn lemma_smembers_bounds(s: Seq<char>, i: int)
    requires
        0 <= i <= s.len(),
    ensures
        smembers(s, i) matches Some(e) ==> i < e <= s.len(),
    decreases s.len() - i, 2int,
{
    if i < s.len() && s[i] == '"' {
        lemma_sstr_bounds(s, i + 1);
        if let Some((k, m)) = sstr(s, i + 1) {
            lemma_sskip_bounds(s, m);
            let c = sskip(s, m);
            if c < s.len() && s[c] == ':' {
                lemma_sskip_bounds(s, c + 1);
                let v = sskip(s, c + 1);
                lemma_sval_bounds(s, v);
                if let Some(e) = sval_end(s, v) {
                    let e2 = if e > v {
                        e
                    } else {
                        v + 1
                    };
                    let e3 = if e2 <= s.len() {
                        e2
                    } else {
                        s.len() as int
                    };
                    lemma_sskip_bounds(s, e3);
                    let t = sskip(s, e3);
                    if t < s.len() && s[t] == ',' {
                        lemma_sskip_bounds(s, t + 1);
                        lemma_smembers_bounds(s, sskip(s, t + 1));
                    }
                }
            }
        }
    }
}

pub proof fn lemma_sitems_bounds(s: Seq<char>, i: int)
    requires
        0 <= i <= s.len(),
    ensures
        sitems(s, i) matches Some(e) ==> i < e <= s.len(),
    decreases s.len() - i, 1int,
{
    lemma_sval_bounds(s, i);
    if let Some(e) = sval_end(s, i) {
        let e2 = if e > i {
            e
        } else {
            i + 1
        };
        let e3 = if e2 <= s.len() {
            e2
        } else {
            s.len() as int
        };
        lemma_sskip_bounds(s, e3);
        let t = sskip(s, e3);
        if t < s.len() && s[t] == ',' {
            lemma_sskip_bounds(s, t + 1);
            lemma_sitems_bounds(s, sskip(s, t + 1));
        }
    }
}

/// A scalar value of the wire format, as the field model keeps it: a
/// string's decoded characters, a number's milliseconds (absent when it
/// does not fit the model), a word, or an opaque nested composite.
#[verifier::ext_equal]
pub enum ScalarV {
    Text(Seq<char>),
    Num(Option<u64>),
    Flag(bool),
    Null,
    Composite,
}

/// A value starting at `i`, as the field model keeps it, together with the
/// index just past it.
pub open spec fn sscalar(s: Seq<char>, i: int) -> Option<(ScalarV, int)>
    recommends
        0 <= i <= s.len(),
{
    if i >= s.len() {
        None
    } else if s[i] == '"' {
        match sstr(s, i + 1) {
            Some((t, e)) => Some((ScalarV::Text(t), e)),
            None => None,
        }
    } else if s[i] == '-' || is_digit(s[i]) {
        match snum(s, i) {
            Some((m, e)) => Some((ScalarV::Num(m), e)),
            None => None,
        }
    } else if s[i] == 't' {
        if slit(s, i, seq!['t', 'r', 'u', 'e']) {
            Some((ScalarV::Flag(true), i + 4))
        } else {
            None
        }
    } else if s[i] == 'f' {
        if slit(s, i, seq!['f', 'a', 'l', 's', 'e']) {
            Some((ScalarV::Flag(false), i + 5))
        } else {
            None
        }
    } else if s[i] == 'n' {
        if slit(s, i, seq!['n', 'u', 'l', 'l']) {
            Some((ScalarV::Null, i + 4))
        } else {
            None
        }
    } else if s[i] == '{' || s[i] == '[' {
        match sval_end(s, i) {
            Some(e) => Some((ScalarV::Composite, e)),
            None => None,
        }
    } else {
        None
    }
}

pub proof fn lemma_sscalar_bounds(s: Seq<char>, i: int)
    requires
        0 <= i <= s.len(),
    ensures
        sscalar(s, i) matches Some(p) ==> i < p.1 <= s.len(),
{
    if i < s.len() {
        if s[i] == '"' {
            lemma_sstr_bounds(s, i + 1);
        } else if s[i] == '-' || is_digit(s[i]) {
            lemma_snum_bounds(s, i);
        } else if s[i] == '{' || s[i] == '[' {
            lemma_sval_bounds(s, i);
        }
    }
}

/// The fields of a payload that this supervisor reads, as mathematical
/// values. A missing or wrongly shaped field is nothing.
#[verifier::ext_equal]
pub struct FieldsV {
    pub kind: Option<Seq<char>>,
    pub action: Option<Seq<char>>,
    pub position: Option<u64>,
    pub time: Option<u64>,
    pub path: Option<Seq<char>>,
}

/// A payload with every field absent.
pub open spec fn empty_fields() -> FieldsV {
    FieldsV { kind: None, action: None, position: None, time: None, path: None }
}

pub open spec fn key_type() -> Seq<char> {
    seq!['t', 'y', 'p', 'e']
}

pub open spec fn key_action() -> Seq<char> {
    seq!['a', 'c', 't', 'i', 'o', 'n']
}

pub open spec fn key_position() -> Seq<char> {
    seq!['p', 'o', 's', 'i', 't', 'i', 'o', 'n']
}

pub open spec fn key_time() -> Seq<char> {
    seq!['t', 'i', 'm', 'e']
}

pub open spec fn key_path() -> Seq<char> {
    seq!['p', 'a', 't', 'h']
}

/// The fields after one `key: value` pair. A known key takes the value when
/// the value has the right shape and becomes absent otherwise (a later
/// duplicate replaces an earlier value); an unknown key changes nothing.
pub open spec fn supd(f: FieldsV, key: Seq<char>, v: ScalarV) -> FieldsV {
    if key == key_type() {
        FieldsV {
            kind: match v {
                ScalarV::Text(t) => Some(t),
                _ => None,
            },
            ..f
        }
    } else if key == key_action() {
        FieldsV {
            action: match v {
                ScalarV::Text(t) => Some(t),
                _ => None,
            },
            ..f
        }
    } else if key == key_position() {
        FieldsV {
            position: match v {
                ScalarV::Num(p) => p,
                _ => None,
            },
            ..f
        }
    } else if key == key_time() {
        FieldsV {
            time: match v {
                ScalarV::Num(p) => p,
                _ => None,
            },
            ..f
        }
    } else if key == key_path() {
        FieldsV {
            path: match v {
                ScalarV::Text(t) => Some(t),
                _ => None,
            },
            ..f
        }
    } else {
        f
    }
}

/// One `"key" : value` pair starting at `i`: the updated fields and the
/// index just past the value.
pub open spec fn spair(s: Seq<char>, i: int, f: FieldsV) -> Option<(FieldsV, int)>
    recommends
        0 <= i <= s.len(),
{
    if i < s.len() && s[i] == '"' {
        match sstr(s, i + 1) {
            Some((key, j)) => {
                let c = sskip(s, j);
                if c < s.len() && s[c] == ':' {
                    match sscalar(s, sskip(s, c + 1)) {
                        Some((v, n)) => Some((supd(f, key, v), n)),
                        None => None,
                    }
                } else {
                    None
                }
            },
            None => None,
        }
    } else {
        None
    }
}

pub proof fn lemma_spair_bounds(s: Seq<char>, i: int, f: FieldsV)
    requires
        0 <= i <= s.len(),
    ensures
        spair(s, i, f) matches Some(p) ==> i < p.1 <= s.len(),
{
    if i < s.len() && s[i] == '"' {
        lemma_sstr_bounds(s, i + 1);
        if let Some((key, j)) = sstr(s, i + 1) {
            lemma_sskip_bounds(s, j);
            let c = sskip(s, j);
            if c < s.len() && s[c] == ':' {
                lemma_sskip_bounds(s, c + 1);
                lemma_sscalar_bounds(s, sskip(s, c + 1));
            }
        }
    }
}

/// A comma-separated run of pairs starting at `i`, folded into `f`: the
/// final fields and the first non-whitespace index after the run.
pub open spec fn spairs(s: Seq<char>, i: int, f: FieldsV) -> Option<(FieldsV, int)>
    decreases s.len() - i
        when 0 <= i <= s.len()
{
    match spair(s, i, f) {
        Some((f2, n)) => {
            proof {
                lemma_spair_bounds(s, i, f);
            }
            let c = sskip(s, n);
            proof {
                lemma_sskip_bounds(s, n);
            }
            if c < s.len() && s[c] == ',' {
                proof {
                    lemma_sskip_bounds(s, c + 1);
                }
                spairs(s, sskip(s, c + 1), f2)
            } else {
                Some((f2, c))
            }
        },
        None => None,
    }
}

pub proof fn lemma_spairs_bounds(s: Seq<char>, i: int, f: FieldsV)
    requires
        0 <= i <= s.len(),
    ensures
        spairs(s, i, f) matches Some(p) ==> i < p.1 <= s.len(),
    decreases s.len() - i,
{
    lemma_spair_bounds(s, i, f);
    if let Some((f2, n)) = spair(s, i, f) {
        lemma_sskip_bounds(s, n);
        let c = sskip(s, n);
        if c < s.len() && s[c] == ',' {
            lemma_sskip_bounds(s, c + 1);
            lemma_spairs_bounds(s, sskip(s, c + 1), f2);
        }
    }
}

/// The fields of a whole payload: a single object, possibly empty,
/// surrounded by nothing but whitespace. Nothing when the payload is
/// malformed.
pub open spec fn sparse(s: Seq<char>) -> Option<FieldsV> {
    let i = sskip(s, 0);
    if i < s.len() && s[i] == '{' {
        let j = sskip(s, i + 1);
        if j < s.len() && s[j] == '}' {
            if sskip(s, j + 1) == s.len() {
                Some(empty_fields())
            } else {
                None
            }
        } else {
            match spairs(s, j, empty_fields()) {
                Some((f, n)) => {
                    if n < s.len() && s[n] == '}' && sskip(s, n + 1) == s.len() {
                        Some(f)
                    } else {
                        None
                    }
                },
                None => None,
            }
        }
    } else {
        None
    }
}

/// A scalar value as read: a string as its decoded characters, a number as
/// its whole milliseconds where it fits the model.
pub enum Scalar {
    Text(Vec<char>),
    Num(Option<u64>),
    Flag(bool),
    Null,
    Composite,
}

impl View for Scalar {
    type V = ScalarV;

    open spec fn view(&self) -> ScalarV {
        match self {
            Scalar::Text(v) => ScalarV::Text(v@),
            Scalar::Num(x) => ScalarV::Num(*x),
            Scalar::Flag(b) => ScalarV::Flag(*b),
            Scalar::Null => ScalarV::Null,
            Scalar::Composite => ScalarV::Composite,
        }
    }
}

/// The fields of a payload as read.
pub struct Fields {
    pub kind: Option<Vec<char>>,
    pub action: Option<Vec<char>>,
    pub position: Option<u64>,
    pub time: Option<u64>,
    pub path: Option<Vec<char>>,
}

impl View for Fields {
    type V = FieldsV;

    open spec fn view(&self) -> FieldsV {
        FieldsV {
            kind: match &self.kind {
                Some(v) => Some(v@),
                None => None,
            },
            action: match &self.action {
                Some(v) => Some(v@),
                None => None,
            },
            position: self.position,
            time: self.time,
            path: match &self.path {
                Some(v) => Some(v@),
                None => None,
            },
        }
    }
}

impl Fields {
    /// A payload with every field absent.
    pub fn empty() -> (r: Fields)
        ensures
            r@ == empty_fields(),
    {
        Fields { kind: None, action: None, position: None, time: None, path: None }
    }
}

/// First index at or after `i` holding no whitespace.
fn skip_ws(s: &str, n: usize, i: usize) -> (j: usize)
    requires
        n == s@.len(),
        i <= n,
    ensures
        j as int == sskip(s@, i as int),
        i <= j <= n,
    decreases n - i,
{
    if i < n {
        let c = s.get_char(i);
        if c == ' ' || c == '\t' || c == '\n' || c == '\r' {
            return skip_ws(s, n, i + 1);
        }
    }
    i
}

/// First index at or after `i` holding no digit.
fn dig_end(s: &str, n: usize, i: usize) -> (j: usize)
    requires
        n == s@.len(),
        i <= n,
    ensures
        j as int == sdig_end(s@, i as int),
        i <= j <= n,
    decreases n - i,
{
    if i < n {
        let d = digit_val(s.get_char(i));
        if d < 10 {
            return dig_end(s, n, i + 1);
        }
    }
    i
}

/// First index in `[i, j)` holding no '0', or `j`.
fn zeros_end(s: &str, n: usize, i: usize, j: usize) -> (z: usize)
    requires
        n == s@.len(),
        i <= j <= n,
    ensures
        z as int == szeros_end(s@, i as int, j as int),
        i <= z <= j,
    decreases j - i,
{
    if i < j && s.get_char(i) == '0' {
        zeros_end(s, n, i + 1, j)
    } else {
        i
    }
}

/// The value of a digit character, or 10 for any other character.
fn digit_val(c: char) -> (d: u64)
    ensures
        d as nat == dval(c),
{
    if c == '0' {
        0
    } else if c == '1' {
        1
    } else if c == '2' {
        2
    } else if c == '3' {
        3
    } else if c == '4' {
        4
    } else if c == '5' {
        5
    } else if c == '6' {
        6
    } else if c == '7' {
        7
    } else if c == '8' {
        8
    } else if c == '9' {
        9
    } else {
        10
    }
}

/// The value of a hexadecimal digit character, or 16 for any other.
fn hex_digit_val(c: char) -> (d: u32)
    ensures
        d as nat == hval(c),
{
    let v = digit_val(c);
    if v < 10 {
        v as u32
    } else if c == 'a' || c == 'A' {
        10
    } else if c == 'b' || c == 'B' {
        11
    } else if c == 'c' || c == 'C' {
        12
    } else if c == 'd' || c == 'D' {
        13
    } else if c == 'e' || c == 'E' {
        14
    } else if c == 'f' || c == 'F' {
        15
    } else {
        16
    }
}

/// Relies on std's char::from_u32: the character with the given code
/// point, absent exactly for surrogate codes and codes above 0x10FFFF.
#[verifier::external_body]
fn char_from_code(code: u32) -> (r: Option<char>)
    ensures
        r is Some <==> (code < 0xD800 || (0xE000 <= code && code <= 0x10FFFF)),
        match r {
            Some(c) => c as int == code as int,
            None => true,
        },
{
    char::from_u32(code)
}

/// The value of the digit run `s[i..j)`, which must be short.
fn digits_value(s: &str, n: usize, i: usize, j: usize) -> (v: u64)
    requires
        n == s@.len(),
        i <= j <= n,
        j - i <= 13,
        forall|k: int| i <= k < j ==> is_digit(s@[k]),
    ensures
        v as nat == sdig_val(s@, i as int, j as int),
{
    let mut v: u64 = 0;
    let mut k: usize = i;
    while k < j
        invariant
            n == s@.len(),
            i <= k <= j <= n,
            j - i <= 13,
            forall|t: int| i <= t < j ==> is_digit(s@[t]),
            v as nat == sdig_val(s@, i as int, k as int),
        decreases j - k,
    {
        proof {
            lemma_sdig_val_bound(s@, i as int, k as int);
            lemma_pow10_le((k - i) as nat, 12);
            assert(pow10(12) == 1000000000000) by {
                reveal_with_fuel(pow10, 13);
            }
        }
        let d = digit_val(s.get_char(k));
        v = v * 10 + d;
        k += 1;
    }
    v
}

/// The value of the digit run `s[i..j)`, or nothing when it passes `u64`.
fn digits_value_checked(s: &str, n: usize, i: usize, j: usize) -> (r: Option<u64>)
    requires
        n == s@.len(),
        i <= j <= n,
        forall|k: int| i <= k < j ==> is_digit(s@[k]),
    ensures
        match r {
            Some(v) => v as nat == sdig_val(s@, i as int, j as int),
            None => sdig_val(s@, i as int, j as int) > u64::MAX,
        },
{
    let mut v: u64 = 0;
    let mut k: usize = i;
    while k < j
        invariant
            n == s@.len(),
            i <= k <= j <= n,
            forall|t: int| i <= t < j ==> is_digit(s@[t]),
            v as nat == sdig_val(s@, i as int, k as int),
        decreases j - k,
    {
        let d = digit_val(s.get_char(k));
        if v > (u64::MAX - d) / 10 {
            proof {
                lemma_sdig_val_split(s@, i as int, k as int + 1, j as int);
                lemma_pow10_le(0, (j - k - 1) as nat);
                assert(sdig_val(s@, i as int, k as int + 1) * pow10((j - k - 1) as nat) >= sdig_val(
                    s@,
                    i as int,
                    k as int + 1,
                )) by (nonlinear_arith)
                    requires
                        pow10((j - k - 1) as nat) >= 1,
                ;
            }
            return None;
        }
        v = v * 10 + d;
        k += 1;
    }
    Some(v)
}

/// The mantissa over the integer run `[a, b)` and fraction run `[f0, f1)`,
/// or nothing when it passes `u64`.
fn mantissa_checked(s: &str, n: usize, a: usize, b: usize, f0: usize, f1: usize) -> (r: Option<
    u64,
>)
    requires
        n == s@.len(),
        a <= b <= n,
        f0 <= f1 <= n,
        forall|k: int| a <= k < b ==> is_digit(s@[k]),
        forall|k: int| f0 <= k < f1 ==> is_digit(s@[k]),
    ensures
        match r {
            Some(v) => v as nat == mantissa(s@, a as int, b as int, f0 as int, f1 as int),
            None => mantissa(s@, a as int, b as int, f0 as int, f1 as int) > u64::MAX,
        },
{
    let ghost iv_g = sdig_val(s@, a as int, b as int);
    let ghost fv_g = sdig_val(s@, f0 as int, f1 as int);
    let ghost fl_g = (f1 - f0) as nat;
    proof {
        lemma_pow10_le(0, fl_g);
        assert(iv_g * pow10(fl_g) >= iv_g) by (nonlinear_arith)
            requires
                pow10(fl_g) >= 1,
        ;
    }
    let iv = match digits_value_checked(s, n, a, b) {
        Some(v) => v,
        None => {
            return None;
        },
    };
    let fv = match digits_value_checked(s, n, f0, f1) {
        Some(v) => v,
        None => {
            return None;
        },
    };
    let mut acc = iv;
    let mut t: usize = 0;
    while t < f1 - f0
        invariant
            acc as nat == iv_g * pow10(t as nat),
            t <= f1 - f0,
            iv_g == sdig_val(s@, a as int, b as int),
            fv as nat == sdig_val(s@, f0 as int, f1 as int),
            fl_g == f1 - f0,
            a <= b,
            f0 <= f1,
        decreases f1 - f0 - t,
    {
        proof {
            lemma_pow10_add((t + 1) as nat, (fl_g - t - 1) as nat);
            assert(pow10((t + 1) as nat) == pow10(t as nat) * 10);
        }
        if acc > u64::MAX / 10 {
            proof {
                lemma_pow10_le(0, (fl_g - t - 1) as nat);
                assert(iv_g * pow10(fl_g) >= iv_g * pow10((t + 1) as nat)) by (nonlinear_arith)
                    requires
                        pow10(fl_g) == pow10((t + 1) as nat) * pow10((fl_g - t - 1) as nat),
                        pow10((fl_g - t - 1) as nat) >= 1,
                        iv_g >= 0,
                ;
                assert(iv_g * pow10((t + 1) as nat) == (iv_g * pow10(t as nat)) * 10)
                    by (nonlinear_arith)
                    requires
                        pow10((t + 1) as nat) == pow10(t as nat) * 10,
                ;
            }
            return None;
        }
        proof {
            assert(iv_g * pow10((t + 1) as nat) == (iv_g * pow10(t as nat)) * 10)
                by (nonlinear_arith)
                requires
                    pow10((t + 1) as nat) == pow10(t as nat) * 10,
            ;
        }
        acc = acc * 10;
        t += 1;
    }
    if acc > u64::MAX - fv {
        return None;
    }
    proof {
        assert(acc + fv == mantissa(s@, a as int, b as int, f0 as int, f1 as int));
    }
    Some(acc + fv)
}


/// Cutting a number's digit run after its first `q` digits — inside the
/// integer part — is division: the cut value is the whole mantissa with
/// the remaining digits truncated away.
proof fn lemma_prefix_int(s: Seq<char>, a: int, b: int, f0: int, f1: int, q: int)
    requires
        0 <= a <= b <= s.len(),
        0 <= f0 <= f1 <= s.len(),
        0 <= q,
        a + q <= b,
        q < (b - a) + (f1 - f0),
        forall|k: int| a <= k < b ==> is_digit(s[k]),
        forall|k: int| f0 <= k < f1 ==> is_digit(s[k]),
    ensures
        mantissa(s, a, a + q, f0, f0) == mantissa(s, a, b, f0, f1) / pow10(
            ((b - a) + (f1 - f0) - q) as nat,
        ),
{
    let dv = mantissa(s, a, b, f0, f1);
    let kk = ((b - a) + (f1 - f0) - q) as nat;
    let pv = mantissa(s, a, a + q, f0, f0);
    assert(sdig_val(s, f0, f0) == 0);
    assert((f0 - f0) as nat == 0);
    assert(pow10(0) == 1);
    assert(sdig_val(s, a, a + q) * 1 == sdig_val(s, a, a + q)) by (nonlinear_arith);
    assert(pv == sdig_val(s, a, a + q));
    lemma_sdig_val_split(s, a, a + q, b);
    lemma_sdig_val_bound(s, a + q, b);
    lemma_sdig_val_bound(s, f0, f1);
    lemma_pow10_add((b - a - q) as nat, (f1 - f0) as nat);
    assert(dv == pv * pow10(kk) + (sdig_val(s, a + q, b) * pow10((f1 - f0) as nat) + sdig_val(
        s,
        f0,
        f1,
    ))) by (nonlinear_arith)
        requires
            dv == sdig_val(s, a, b) * pow10((f1 - f0) as nat) + sdig_val(s, f0, f1),
            sdig_val(s, a, b) == sdig_val(s, a, a + q) * pow10((b - a - q) as nat) + sdig_val(
                s,
                a + q,
                b,
            ),
            pow10(kk) == pow10((b - a - q) as nat) * pow10((f1 - f0) as nat),
            pv == sdig_val(s, a, a + q),
    ;
    lemma_pow10_le(0, (f1 - f0) as nat);
    lemma_pow10_le(0, (b - a - q) as nat);
    assert(sdig_val(s, a + q, b) * pow10((f1 - f0) as nat) + sdig_val(s, f0, f1) < pow10(kk))
        by (nonlinear_arith)
        requires
            sdig_val(s, a + q, b) < pow10((b - a - q) as nat),
            sdig_val(s, f0, f1) < pow10((f1 - f0) as nat),
            pow10(kk) == pow10((b - a - q) as nat) * pow10((f1 - f0) as nat),
            pow10((f1 - f0) as nat) >= 1,
            pow10((b - a - q) as nat) >= 1,
    ;
    lemma_fundamental_div_mod_converse_div(
        dv as int,
        pow10(kk) as int,
        pv as int,
        (dv - pv * pow10(kk)) as int,
    );
}

/// Cutting a number's digit run after its first `q` digits — past the
/// integer part — is division likewise.
proof fn lemma_prefix_frac(s: Seq<char>, a: int, b: int, f0: int, f1: int, q: int)
    requires
        0 <= a <= b <= s.len(),
        0 <= f0 <= f1 <= s.len(),
        b - a < q,
        f0 + (q - (b - a)) <= f1,
        q < (b - a) + (f1 - f0),
        forall|k: int| a <= k < b ==> is_digit(s[k]),
        forall|k: int| f0 <= k < f1 ==> is_digit(s[k]),
    ensures
        mantissa(s, a, b, f0, f0 + (q - (b - a))) == mantissa(s, a, b, f0, f1) / pow10(
            ((b - a) + (f1 - f0) - q) as nat,
        ),
{
    let dv = mantissa(s, a, b, f0, f1);
    let d = q - (b - a);
    let kk = ((b - a) + (f1 - f0) - q) as nat;
    let pv = mantissa(s, a, b, f0, f0 + d);
    lemma_sdig_val_split(s, f0, f0 + d, f1);
    lemma_sdig_val_bound(s, f0 + d, f1);
    lemma_pow10_add(d as nat, (f1 - f0 - d) as nat);
    assert(kk == (f1 - f0 - d) as nat);
    assert(dv == pv * pow10(kk) + sdig_val(s, f0 + d, f1)) by (nonlinear_arith)
        requires
            dv == sdig_val(s, a, b) * pow10((f1 - f0) as nat) + sdig_val(s, f0, f1),
            sdig_val(s, f0, f1) == sdig_val(s, f0, f0 + d) * pow10((f1 - f0 - d) as nat)
                + sdig_val(s, f0 + d, f1),
            pow10((f1 - f0) as nat) == pow10(d as nat) * pow10((f1 - f0 - d) as nat),
            pv == sdig_val(s, a, b) * pow10(d as nat) + sdig_val(s, f0, f0 + d),
            kk == (f1 - f0 - d) as nat,
    ;
    lemma_pow10_le(0, kk);
    lemma_fundamental_div_mod_converse_div(
        dv as int,
        pow10(kk) as int,
        pv as int,
        sdig_val(s, f0 + d, f1) as int,
    );
}

/// The milliseconds a scanned number encodes; see `num_millis`.
#[verifier::rlimit(60)]
#[verifier::loop_isolation(false)]
fn number_value(
    s: &str,
    n: usize,
    neg: bool,
    a: usize,
    b: usize,
    f0: usize,
    f1: usize,
    eneg: bool,
    e0: usize,
    e1: usize,
) -> (r: Option<u64>)
    requires
        n == s@.len(),
        a <= b <= n,
        f0 <= f1 <= n,
        e0 <= e1 <= n,
        forall|k: int| a <= k < b ==> is_digit(s@[k]),
        forall|k: int| f0 <= k < f1 ==> is_digit(s@[k]),
        forall|k: int| e0 <= k < e1 ==> is_digit(s@[k]),
    ensures
        r == num_millis(
            s@,
            neg,
            a as int,
            b as int,
            f0 as int,
            f1 as int,
            eneg,
            e0 as int,
            e1 as int,
        ),
{
    let ghost dv_g = mantissa(s@, a as int, b as int, f0 as int, f1 as int);
    let ghost l_g = (b - a) + (f1 - f0);
    let ghost e_g = sdig_val(s@, e0 as int, e1 as int);
    let zint = zeros_end(s, n, a, b);
    let zfrac = zeros_end(s, n, f0, f1);
    let dv_zero = zint == b && zfrac == f1;
    proof {
        lemma_sdig_val_zero(s@, a as int, b as int);
        lemma_sdig_val_zero(s@, f0 as int, f1 as int);
        lemma_pow10_le(0, (f1 - f0) as nat);
        assert(dv_zero ==> dv_g == 0) by (nonlinear_arith)
            requires
                dv_g == sdig_val(s@, a as int, b as int) * pow10((f1 - f0) as nat) + sdig_val(
                    s@,
                    f0 as int,
                    f1 as int,
                ),
                dv_zero ==> (sdig_val(s@, a as int, b as int) == 0 && sdig_val(
                    s@,
                    f0 as int,
                    f1 as int,
                ) == 0),
        ;
        assert(!dv_zero ==> dv_g != 0) by (nonlinear_arith)
            requires
                dv_g == sdig_val(s@, a as int, b as int) * pow10((f1 - f0) as nat) + sdig_val(
                    s@,
                    f0 as int,
                    f1 as int,
                ),
                pow10((f1 - f0) as nat) >= 1,
                !dv_zero ==> (sdig_val(s@, a as int, b as int) != 0 || sdig_val(
                    s@,
                    f0 as int,
                    f1 as int,
                ) != 0),
        ;
    }
    if neg && !dv_zero {
        return None;
    }
    if dv_zero {
        return Some(0);
    }
    if b - a > 20 {
        return None;
    }
    let ez = zeros_end(s, n, e0, e1);
    proof {
        lemma_strip_zeros(s@, e0 as int, e1 as int);
        lemma_szeros_bounds(s@, e0 as int, e1 as int);
    }
    if e1 - ez > 4 {
        proof {
            lemma_sdig_val_lower(s@, ez as int, e1 as int);
            lemma_pow10_le(4, (e1 - ez - 1) as nat);
            assert(pow10(4) == 10000) by {
                reveal_with_fuel(pow10, 5);
            }
        }
        if eneg {
            return Some(0);
        } else {
            return None;
        }
    }
    let e = if e1 == ez {
        0
    } else {
        digits_value(s, n, ez, e1)
    };
    proof {
        lemma_sdig_val_bound(s@, ez as int, e1 as int);
        lemma_pow10_le((e1 - ez) as nat, 4);
        assert(pow10(4) == 10000) by {
            reveal_with_fuel(pow10, 5);
        }
        assert(e as nat == e_g);
    }
    let il = b - a;
    let fl = f1 - f0;
    let ghost q_g = il + 3 + (if eneg {
        -(e_g as int)
    } else {
        e_g as int
    });
    if eneg && e as usize >= il + 3 {
        proof {
            lemma_sdig_val_bound(s@, a as int, b as int);
            lemma_sdig_val_bound(s@, f0 as int, f1 as int);
            lemma_pow10_add((b - a) as nat, (f1 - f0) as nat);
            assert(dv_g < pow10(l_g as nat)) by (nonlinear_arith)
                requires
                    dv_g == sdig_val(s@, a as int, b as int) * pow10((f1 - f0) as nat) + sdig_val(
                        s@,
                        f0 as int,
                        f1 as int,
                    ),
                    sdig_val(s@, a as int, b as int) < pow10((b - a) as nat),
                    sdig_val(s@, f0 as int, f1 as int) < pow10((f1 - f0) as nat),
                    pow10(l_g as nat) == pow10((b - a) as nat) * pow10((f1 - f0) as nat),
                    l_g == (b - a) + (f1 - f0),
            ;
            lemma_pow10_le(l_g as nat, (l_g - q_g) as nat);
            lemma_fundamental_div_mod_converse_div(
                dv_g as int,
                pow10((l_g - q_g) as nat) as int,
                0,
                dv_g as int,
            );
            assert(dv_g / pow10((l_g - q_g) as nat) == 0);
        }
        return Some(0);
    }
    let q: usize = if eneg {
        il + 3 - (e as usize)
    } else {
        il + 3 + (e as usize)
    };
    if q >= il && fl <= q - il {
        let k = q - il - fl;
        proof {
            assert(q_g - l_g == k);
        }
        if k > 19 {
            proof {
                lemma_pow10_le(20, k as nat);
                assert(pow10(20) > u64::MAX) by {
                    reveal_with_fuel(pow10, 21);
                }
                assert(dv_g * pow10(k as nat) >= pow10(k as nat)) by (nonlinear_arith)
                    requires
                        dv_g >= 1,
                ;
            }
            return None;
        }
        let dvv = match mantissa_checked(s, n, a, b, f0, f1) {
            Some(v) => v,
            None => {
                proof {
                    lemma_pow10_le(0, k as nat);
                    assert(dv_g * pow10(k as nat) >= dv_g) by (nonlinear_arith)
                        requires
                            pow10(k as nat) >= 1,
                    ;
                }
                return None;
            },
        };
        let mut acc = dvv;
        let mut t: usize = 0;
        while t < k
            invariant
                acc as nat == dv_g * pow10(t as nat),
                t <= k,
                k <= 19,
                dv_g == mantissa(s@, a as int, b as int, f0 as int, f1 as int),
            decreases k - t,
        {
            proof {
                lemma_pow10_add((t + 1) as nat, (k - t - 1) as nat);
                assert(pow10((t + 1) as nat) == pow10(t as nat) * 10);
            }
            if acc > u64::MAX / 10 {
                proof {
                    lemma_pow10_le(0, (k - t - 1) as nat);
                    assert(dv_g * pow10(k as nat) >= dv_g * pow10((t + 1) as nat))
                        by (nonlinear_arith)
                        requires
                            pow10(k as nat) == pow10((t + 1) as nat) * pow10((k - t - 1) as nat),
                            pow10((k - t - 1) as nat) >= 1,
                            dv_g >= 0,
                    ;
                    assert(dv_g * pow10((t + 1) as nat) == (dv_g * pow10(t as nat)) * 10)
                        by (nonlinear_arith)
                        requires
                            pow10((t + 1) as nat) == pow10(t as nat) * 10,
                    ;
                }
                return None;
            }
            proof {
                assert(dv_g * pow10((t + 1) as nat) == (dv_g * pow10(t as nat)) * 10)
                    by (nonlinear_arith)
                    requires
                        pow10((t + 1) as nat) == pow10(t as nat) * 10,
                ;
            }
            acc = acc * 10;
            t += 1;
        }
        Some(acc)
    } else {
        // The point lands inside the digit run: the milliseconds are the
        // first q digits, the rest truncate away.
        proof {
            assert(q_g == q);
            assert(q_g < l_g);
        }
        let p = if q <= il {
            mantissa_checked(s, n, a, a + q, f0, f0)
        } else {
            mantissa_checked(s, n, a, b, f0, f0 + (q - il))
        };
        proof {
            if q <= il {
                lemma_prefix_int(s@, a as int, b as int, f0 as int, f1 as int, q as int);
            } else {
                lemma_prefix_frac(s@, a as int, b as int, f0 as int, f1 as int, q as int);
            }
        }
        match p {
            Some(v) => Some(v),
            None => None,
        }
    }
}

/// A number at `i` in the JSON grammar, as its milliseconds and the index
/// just past it.
fn number(s: &str, n: usize, i: usize) -> (r: Option<(Option<u64>, usize)>)
    requires
        n == s@.len(),
        i <= n,
    ensures
        match snum(s@, i as int) {
            Some(p) => r matches Some(x) && x.0 == p.0 && x.1 as int == p.1,
            None => r is None,
        },
{
    let neg = i < n && s.get_char(i) == '-';
    let a = if neg {
        i + 1
    } else {
        i
    };
    let b = dig_end(s, n, a);
    proof {
        lemma_sdig_end_bounds(s@, a as int);
    }
    if b == a {
        return None;
    }
    if s.get_char(a) == '0' && b - a > 1 {
        return None;
    }
    if b < n && s.get_char(b) == '.' {
        let c = dig_end(s, n, b + 1);
        proof {
            lemma_sdig_end_bounds(s@, (b + 1) as int);
        }
        if c == b + 1 {
            None
        } else {
            number_exp(s, n, neg, a, b, b + 1, c)
        }
    } else {
        number_exp(s, n, neg, a, b, b, b)
    }
}

/// The optional exponent of a number whose digit runs end at `f1`.
fn number_exp(s: &str, n: usize, neg: bool, a: usize, b: usize, f0: usize, f1: usize) -> (r:
    Option<(Option<u64>, usize)>)
    requires
        n == s@.len(),
        a <= b <= n,
        f0 <= f1 <= n,
        forall|k: int| a <= k < b ==> is_digit(s@[k]),
        forall|k: int| f0 <= k < f1 ==> is_digit(s@[k]),
    ensures
        match snum_exp(s@, neg, a as int, b as int, f0 as int, f1 as int) {
            Some(p) => r matches Some(x) && x.0 == p.0 && x.1 as int == p.1,
            None => r is None,
        },
{
    if f1 < n && (s.get_char(f1) == 'e' || s.get_char(f1) == 'E') {
        if f1 + 1 < n && s.get_char(f1 + 1) == '-' {
            number_tail(s, n, neg, a, b, f0, f1, true, f1 + 2)
        } else if f1 + 1 < n && s.get_char(f1 + 1) == '+' {
            number_tail(s, n, neg, a, b, f0, f1, false, f1 + 2)
        } else {
            number_tail(s, n, neg, a, b, f0, f1, false, f1 + 1)
        }
    } else {
        Some((number_value(s, n, neg, a, b, f0, f1, false, f1, f1), f1))
    }
}

/// The exponent digits of a number, which must not be empty.
fn number_tail(
    s: &str,
    n: usize,
    neg: bool,
    a: usize,
    b: usize,
    f0: usize,
    f1: usize,
    eneg: bool,
    e0: usize,
) -> (r: Option<(Option<u64>, usize)>)
    requires
        n == s@.len(),
        a <= b <= n,
        f0 <= f1 <= n,
        e0 <= n,
        forall|k: int| a <= k < b ==> is_digit(s@[k]),
        forall|k: int| f0 <= k < f1 ==> is_digit(s@[k]),
    ensures
        match snum_tail(s@, neg, a as int, b as int, f0 as int, f1 as int, eneg, e0 as int) {
            Some(p) => r matches Some(x) && x.0 == p.0 && x.1 as int == p.1,
            None => r is None,
        },
{
    let e1 = dig_end(s, n, e0);
    proof {
        lemma_sdig_end_bounds(s@, e0 as int);
    }
    if e1 == e0 {
        None
    } else {
        Some((number_value(s, n, neg, a, b, f0, f1, eneg, e0, e1), e1))
    }
}

/// The decoded contents of a JSON string whose interior starts at `i`.
fn parse_string_body(s: &str, n: usize, i: usize) -> (r: Option<(Vec<char>, usize)>)
    requires
        n == s@.len(),
        i <= n,
    ensures
        match sstr(s@, i as int) {
            Some(p) => r matches Some(x) && x.0@ == p.0 && x.1 as int == p.1,
            None => r is None,
        },
{
    let mut acc: Vec<char> = Vec::new();
    let mut k = i;
    proof {
        assert(acc@ + sstr(s@, i as int).unwrap().0 =~= sstr(s@, i as int).unwrap().0);
    }
    loop
        invariant
            n == s@.len(),
            i <= k <= n,
            match sstr(s@, k as int) {
                Some(p) => sstr(s@, i as int) matches Some(q) && q.0 == acc@ + p.0 && q.1 == p.1,
                None => sstr(s@, i as int) is None,
            },
        decreases n - k,
    {
        if k >= n {
            return None;
        }
        let c = s.get_char(k);
        if c == '"' {
            proof {
                assert(acc@ + Seq::<char>::empty() =~= acc@);
            }
            return Some((acc, k + 1));
        } else if c == '\\' {
            if k + 1 >= n {
                return None;
            }
            let d = s.get_char(k + 1);
            if d == 'u' {
                if n - k < 6 {
                    return None;
                }
                let h0 = hex_digit_val(s.get_char(k + 2));
                let h1 = hex_digit_val(s.get_char(k + 3));
                let h2 = hex_digit_val(s.get_char(k + 4));
                let h3 = hex_digit_val(s.get_char(k + 5));
                if h0 >= 16 || h1 >= 16 || h2 >= 16 || h3 >= 16 {
                    return None;
                }
                let code: u32 = h0 * 4096 + h1 * 256 + h2 * 16 + h3;
                if 0xD800 <= code && code < 0xDC00 {
                    if n - k < 12 || s.get_char(k + 6) != '\\' || s.get_char(k + 7) != 'u' {
                        return None;
                    }
                    let g0 = hex_digit_val(s.get_char(k + 8));
                    let g1 = hex_digit_val(s.get_char(k + 9));
                    let g2 = hex_digit_val(s.get_char(k + 10));
                    let g3 = hex_digit_val(s.get_char(k + 11));
                    if g0 >= 16 || g1 >= 16 || g2 >= 16 || g3 >= 16 {
                        return None;
                    }
                    let lo: u32 = g0 * 4096 + g1 * 256 + g2 * 16 + g3;
                    if !(0xDC00 <= lo && lo < 0xE000) {
                        return None;
                    }
                    let cp: u32 = 0x10000 + (code - 0xD800) * 0x400 + (lo - 0xDC00);
                    let ghost old_acc = acc@;
                    let ghost old_k = k as int;
                    match char_from_code(cp) {
                        Some(ch) => {
                            proof {
                                assert(code_of(ch) == cp as int);
                                assert(char_of(cp as int) as int == cp as int);
                                assert(ch == char_of(cp as int));
                            }
                            acc.push(ch);
                            k = k + 12;
                            proof {
                                step_assoc(s@, old_k, old_acc, seq![ch], k as int, i as int);
                            }
                        },
                        None => {
                            return None;
                        },
                    }
                } else if 0xDC00 <= code && code < 0xE000 {
                    return None;
                } else {
                    let ghost old_acc = acc@;
                    let ghost old_k = k as int;
                    match char_from_code(code) {
                        Some(ch) => {
                            proof {
                                assert(code_of(ch) == code as int);
                                assert(char_of(code as int) as int == code as int);
                                assert(ch == char_of(code as int));
                            }
                            acc.push(ch);
                            k = k + 6;
                            proof {
                                step_assoc(s@, old_k, old_acc, seq![ch], k as int, i as int);
                            }
                        },
                        None => {
                            return None;
                        },
                    }
                }
            } else {
                let mapped = if d == '"' {
                    Some('"')
                } else if d == '\\' {
                    Some('\\')
                } else if d == '/' {
                    Some('/')
                } else if d == 'b' {
                    Some('\u{8}')
                } else if d == 'f' {
                    Some('\u{c}')
                } else if d == 'n' {
                    Some('\n')
                } else if d == 'r' {
                    Some('\r')
                } else if d == 't' {
                    Some('\t')
                } else {
                    None
                };
                proof {
                    assert(mapped == esc_of(s@[k as int + 1]));
                }
                match mapped {
                    Some(ch) => {
                        let ghost old_acc = acc@;
                        let ghost old_k = k as int;
                        acc.push(ch);
                        k = k + 2;
                        proof {
                            step_assoc(s@, old_k, old_acc, seq![ch], k as int, i as int);
                        }
                    },
                    None => {
                        return None;
                    },
                }
            }
        } else if (c as u32) < 32 {
            return None;
        } else {
            let ghost old_acc = acc@;
            let ghost old_k = k as int;
            acc.push(c);
            k = k + 1;
            proof {
                step_assoc(s@, old_k, old_acc, seq![c], k as int, i as int);
            }
        }
    }
}

/// One decoding step extends the accumulated text and keeps the whole
/// string's decoding in agreement.
proof fn step_assoc(s: Seq<char>, old_k: int, old_acc: Seq<char>, piece: Seq<char>, k: int, i: int)
    requires
        match sstr(s, k) {
            Some(p) => sstr(s, old_k) == Some::<(Seq<char>, int)>((piece + p.0, p.1)),
            None => sstr(s, old_k) is None,
        },
        match sstr(s, old_k) {
            Some(p) => sstr(s, i) matches Some(q) && q.0 == old_acc + p.0 && q.1 == p.1,
            None => sstr(s, i) is None,
        },
    ensures
        match sstr(s, k) {
            Some(p) => sstr(s, i) matches Some(q) && q.0 == (old_acc + piece) + p.0 && q.1 == p.1,
            None => sstr(s, i) is None,
        },
{
    if let Some(p) = sstr(s, k) {
        assert(old_acc + (piece + p.0) =~= (old_acc + piece) + p.0);
    }
}

/// Whether the four characters `a b c d` stand at `i` in `s`.
fn lit4(s: &str, n: usize, i: usize, a: char, b: char, c: char, d: char) -> (r: bool)
    requires
        n == s@.len(),
        i <= n,
    ensures
        r == slit(s@, i as int, seq![a, b, c, d]),
{
    if n - i >= 4 {
        let r = s.get_char(i) == a && s.get_char(i + 1) == b && s.get_char(i + 2) == c
            && s.get_char(i + 3) == d;
        proof {
            let w = seq![a, b, c, d];
            let sub = s@.subrange(i as int, i as int + 4);
            assert(sub[0] == s@[i as int] && sub[1] == s@[i as int + 1] && sub[2] == s@[i as int
                + 2] && sub[3] == s@[i as int + 3]);
            if r {
                assert(sub =~= w);
            } else {
                if sub == w {
                    assert(s@[i as int] == a && s@[i as int + 1] == b && s@[i as int + 2] == c
                        && s@[i as int + 3] == d);
                    assert(false);
                }
            }
        }
        r
    } else {
        false
    }
}

/// Whether the five characters `a b c d e` stand at `i` in `s`.
fn lit5(s: &str, n: usize, i: usize, a: char, b: char, c: char, d: char, e: char) -> (r: bool)
    requires
        n == s@.len(),
        i <= n,
    ensures
        r == slit(s@, i as int, seq![a, b, c, d, e]),
{
    if n - i >= 5 {
        let r = s.get_char(i) == a && s.get_char(i + 1) == b && s.get_char(i + 2) == c
            && s.get_char(i + 3) == d && s.get_char(i + 4) == e;
        proof {
            let w = seq![a, b, c, d, e];
            let sub = s@.subrange(i as int, i as int + 5);
            assert(sub[0] == s@[i as int] && sub[1] == s@[i as int + 1] && sub[2] == s@[i as int
                + 2] && sub[3] == s@[i as int + 3] && sub[4] == s@[i as int + 4]);
            if r {
                assert(sub =~= w);
            } else {
                if sub == w {
                    assert(s@[i as int] == a && s@[i as int + 1] == b && s@[i as int + 2] == c
                        && s@[i as int + 3] == d && s@[i as int + 4] == e);
                    assert(false);
                }
            }
        }
        r
    } else {
        false
    }
}

/// The index just past any JSON value starting at `i`.
fn skip_value(s: &str, n: usize, i: usize) -> (r: Option<usize>)
    requires
        n == s@.len(),
        i <= n,
    ensures
        match sval_end(s@, i as int) {
            Some(e) => r matches Some(x) && x as int == e,
            None => r is None,
        },
    decreases n - i, 0int,
{
    if i >= n {
        return None;
    }
    let c0 = s.get_char(i);
    if c0 == '"' {
        match parse_string_body(s, n, i + 1) {
            Some((t, e)) => Some(e),
            None => None,
        }
    } else if c0 == '-' || digit_val(c0) < 10 {
        match number(s, n, i) {
            Some((m, e)) => Some(e),
            None => None,
        }
    } else if c0 == 't' {
        if lit4(s, n, i, 't', 'r', 'u', 'e') {
            Some(i + 4)
        } else {
            None
        }
    } else if c0 == 'f' {
        if lit5(s, n, i, 'f', 'a', 'l', 's', 'e') {
            Some(i + 5)
        } else {
            None
        }
    } else if c0 == 'n' {
        if lit4(s, n, i, 'n', 'u', 'l', 'l') {
            Some(i + 4)
        } else {
            None
        }
    } else if c0 == '{' {
        let j = skip_ws(s, n, i + 1);
        if j < n && s.get_char(j) == '}' {
            Some(j + 1)
        } else {
            skip_members(s, n, j)
        }
    } else if c0 == '[' {
        let j = skip_ws(s, n, i + 1);
        if j < n && s.get_char(j) == ']' {
            Some(j + 1)
        } else {
            skip_items(s, n, j)
        }
    } else {
        None
    }
}

/// The index just past the `}` closing a run of members starting at `i`.
fn skip_members(s: &str, n: usize, i: usize) -> (r: Option<usize>)
    requires
        n == s@.len(),
        i <= n,
    ensures
        match smembers(s@, i as int) {
            Some(e) => r matches Some(x) && x as int == e,
            None => r is None,
        },
    decreases n - i, 2int,
{
    if i < n && s.get_char(i) == '"' {
        match parse_string_body(s, n, i + 1) {
            Some((key, m)) => {
                proof {
                    lemma_sstr_bounds(s@, i as int + 1);
                }
                let c = skip_ws(s, n, m);
                if c < n && s.get_char(c) == ':' {
                    let v = skip_ws(s, n, c + 1);
                    match skip_value(s, n, v) {
                        Some(e) => {
                            let e2 = if e > v {
                                e
                            } else {
                                v + 1
                            };
                            let e3 = if e2 <= n {
                                e2
                            } else {
                                n
                            };
                            let t = skip_ws(s, n, e3);
                            if t < n && s.get_char(t) == ',' {
                                let w = skip_ws(s, n, t + 1);
                                skip_members(s, n, w)
                            } else if t < n && s.get_char(t) == '}' {
                                Some(t + 1)
                            } else {
                                None
                            }
                        },
                        None => None,
                    }
                } else {
                    None
                }
            },
            None => None,
        }
    } else {
        None
    }
}

/// The index just past the `]` closing a run of array items starting at `i`.
fn skip_items(s: &str, n: usize, i: usize) -> (r: Option<usize>)
    requires
        n == s@.len(),
        i <= n,
    ensures
        match sitems(s@, i as int) {
            Some(e) => r matches Some(x) && x as int == e,
            None => r is None,
        },
    decreases n - i, 1int,
{
    match skip_value(s, n, i) {
        Some(e) => {
            proof {
                lemma_sval_bounds(s@, i as int);
            }
            let e2 = if e > i {
                e
            } else {
                i + 1
            };
            let e3 = if e2 <= n {
                e2
            } else {
                n
            };
            let t = skip_ws(s, n, e3);
            if t < n && s.get_char(t) == ',' {
                let w = skip_ws(s, n, t + 1);
                skip_items(s, n, w)
            } else if t < n && s.get_char(t) == ']' {
                Some(t + 1)
            } else {
                None
            }
        },
        None => None,
    }
}

/// A value starting at `i`, as the field model keeps it.
fn scalar(s: &str, n: usize, i: usize) -> (r: Option<(Scalar, usize)>)
    requires
        n == s@.len(),
        i <= n,
    ensures
        match sscalar(s@, i as int) {
            Some(p) => r matches Some(q) && q.0@ == p.0 && q.1 as int == p.1,
            None => r is None,
        },
{
    if i >= n {
        return None;
    }
    let c0 = s.get_char(i);
    if c0 == '"' {
        match parse_string_body(s, n, i + 1) {
            Some((t, e)) => Some((Scalar::Text(t), e)),
            None => None,
        }
    } else if c0 == '-' || digit_val(c0) < 10 {
        match number(s, n, i) {
            Some((m, e)) => Some((Scalar::Num(m), e)),
            None => None,
        }
    } else if c0 == 't' {
        if lit4(s, n, i, 't', 'r', 'u', 'e') {
            Some((Scalar::Flag(true), i + 4))
        } else {
            None
        }
    } else if c0 == 'f' {
        if lit5(s, n, i, 'f', 'a', 'l', 's', 'e') {
            Some((Scalar::Flag(false), i + 5))
        } else {
            None
        }
    } else if c0 == 'n' {
        if lit4(s, n, i, 'n', 'u', 'l', 'l') {
            Some((Scalar::Null, i + 4))
        } else {
            None
        }
    } else if c0 == '{' || c0 == '[' {
        match skip_value(s, n, i) {
            Some(e) => Some((Scalar::Composite, e)),
            None => None,
        }
    } else {
        None
    }
}

fn key_type_chars() -> (r: Vec<char>)
    ensures
        r@ == key_type(),
{
    let mut v: Vec<char> = Vec::new();
    v.push('t');
    v.push('y');
    v.push('p');
    v.push('e');
    proof {
        assert(v@ =~= key_type());
    }
    v
}

fn key_action_chars() -> (r: Vec<char>)
    ensures
        r@ == key_action(),
{
    let mut v: Vec<char> = Vec::new();
    v.push('a');
    v.push('c');
    v.push('t');
    v.push('i');
    v.push('o');
    v.push('n');
    proof {
        assert(v@ =~= key_action());
    }
    v
}

fn key_position_chars() -> (r: Vec<char>)
    ensures
        r@ == key_position(),
{
    let mut v: Vec<char> = Vec::new();
    v.push('p');
    v.push('o');
    v.push('s');
    v.push('i');
    v.push('t');
    v.push('i');
    v.push('o');
    v.push('n');
    proof {
        assert(v@ =~= key_position());
    }
    v
}

fn key_time_chars() -> (r: Vec<char>)
    ensures
        r@ == key_time(),
{
    let mut v: Vec<char> = Vec::new();
    v.push('t');
    v.push('i');
    v.push('m');
    v.push('e');
    proof {
        assert(v@ =~= key_time());
    }
    v
}

fn key_path_chars() -> (r: Vec<char>)
    ensures
        r@ == key_path(),
{
    let mut v: Vec<char> = Vec::new();
    v.push('p');
    v.push('a');
    v.push('t');
    v.push('h');
    proof {
        assert(v@ =~= key_path());
    }
    v
}

/// Folds one `key: value` pair into the fields.
fn apply_pair(f: &mut Fields, key: &Vec<char>, v: Scalar)
    ensures
        final(f)@ == supd(old(f)@, key@, v@),
{
    let pat_type = key_type_chars();
    let pat_action = key_action_chars();
    let pat_position = key_position_chars();
    let pat_time = key_time_chars();
    let pat_path = key_path_chars();
    if crate::text::chars_eq(key, &pat_type) {
        f.kind = match v {
            Scalar::Text(t) => Some(t),
            _ => None,
        };
    } else if crate::text::chars_eq(key, &pat_action) {
        f.action = match v {
            Scalar::Text(t) => Some(t),
            _ => None,
        };
    } else if crate::text::chars_eq(key, &pat_position) {
        f.position = match v {
            Scalar::Num(p) => p,
            _ => None,
        };
    } else if crate::text::chars_eq(key, &pat_time) {
        f.time = match v {
            Scalar::Num(p) => p,
            _ => None,
        };
    } else if crate::text::chars_eq(key, &pat_path) {
        f.path = match v {
            Scalar::Text(t) => Some(t),
            _ => None,
        };
    }
}

/// One `"key" : value` pair starting at `i`, folded into `f`.
fn parse_pair(s: &str, n: usize, i: usize, f: &mut Fields) -> (r: Option<usize>)
    requires
        n == s@.len(),
        i <= n,
    ensures
        match spair(s@, i as int, old(f)@) {
            Some(p) => r matches Some(j) && j as int == p.1 && final(f)@ == p.0,
            None => r is None && *final(f) == *old(f),
        },
{
    if i < n && s.get_char(i) == '"' {
        match parse_string_body(s, n, i + 1) {
            Some((key, j)) => {
                proof {
                    lemma_sstr_bounds(s@, i as int + 1);
                }
                let c = skip_ws(s, n, j);
                if c < n && s.get_char(c) == ':' {
                    let vs = skip_ws(s, n, c + 1);
                    match scalar(s, n, vs) {
                        Some((v, ni)) => {
                            proof {
                                lemma_sscalar_bounds(s@, vs as int);
                            }
                            apply_pair(f, &key, v);
                            Some(ni)
                        },
                        None => None,
                    }
                } else {
                    None
                }
            },
            None => None,
        }
    } else {
        None
    }
}

/// A comma-separated run of pairs starting at `i`, folded into `f`.
fn parse_pairs(s: &str, n: usize, i: usize, f: &mut Fields) -> (r: Option<usize>)
    requires
        n == s@.len(),
        i <= n,
    ensures
        match spairs(s@, i as int, old(f)@) {
            Some(p) => r matches Some(j) && j as int == p.1 && final(f)@ == p.0,
            None => r is None,
        },
    decreases n - i,
{
    match parse_pair(s, n, i, f) {
        Some(ni) => {
            proof {
                lemma_spair_bounds(s@, i as int, old(f)@);
            }
            let c = skip_ws(s, n, ni);
            if c < n && s.get_char(c) == ',' {
                let v = skip_ws(s, n, c + 1);
                parse_pairs(s, n, v, f)
            } else {
                Some(c)
            }
        },
        None => None,
    }
}

/// The fields of a whole payload, or nothing when it is malformed: not a
/// single JSON object surrounded by nothing but whitespace.
pub fn parse_message(s: &str) -> (r: Option<Fields>)
    ensures
        match sparse(s@) {
            Some(fv) => r matches Some(f) && f@ == fv,
            None => r is None,
        },
{
    let n = s.unicode_len();
    let i = skip_ws(s, n, 0);
    if i < n && s.get_char(i) == '{' {
        let j = skip_ws(s, n, i + 1);
        if j < n && s.get_char(j) == '}' {
            let e = skip_ws(s, n, j + 1);
            if e == n {
                Some(Fields::empty())
            } else {
                None
            }
        } else {
            let mut f = Fields::empty();
            match parse_pairs(s, n, j, &mut f) {
                Some(ni) => {
                    proof {
                        lemma_spairs_bounds(s@, j as int, empty_fields());
                    }
                    if ni < n && s.get_char(ni) == '}' {
                        let e = skip_ws(s, n, ni + 1);
                        if e == n {
                            Some(f)
                        } else {
                            None
                        }
                    } else {
                        None
                    }
                },
                None => None,
            }
        }
    } else {
        None
    }
}

} // verus!
