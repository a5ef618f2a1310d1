//! Character-level building blocks of the on-disk JSON records: canonical
//! decimal numerals and escaped string bodies, with encoders, strict parsers
//! and the determinism lemmas that make the record format invertible.

use vstd::prelude::*;

verus! {

use vstd::string::StrSliceExecFns;

// ---------------------------------------------------------------------------
// Decimal numerals
// ---------------------------------------------------------------------------

/// The character for one decimal digit.
pub open spec fn dec_digit_char(d: nat) -> char {
    if d == 0 {
        '0'
    } else if d == 1 {
        '1'
    } else if d == 2 {
        '2'
    } else if d == 3 {
        '3'
    } else if d == 4 {
        '4'
    } else if d == 5 {
        '5'
    } else if d == 6 {
        '6'
    } else if d == 7 {
        '7'
    } else if d == 8 {
        '8'
    } else {
        '9'
    }
}

/// Whether `c` is a decimal digit.
pub open spec fn is_dec_digit(c: char) -> bool {
    exists|d: nat| d < 10 && c == dec_digit_char(d)
}

/// The numeric value of a digit character (meaningful only on digits).
pub open spec fn dec_digit_val(c: char) -> nat {
    choose|d: nat| d < 10 && c == dec_digit_char(d)
}

/// The canonical decimal numeral of `n`: no sign, no leading zero.
pub open spec fn dec_chars(n: nat) -> Seq<char>
    decreases n,
{
    if n < 10 {
        seq![dec_digit_char(n)]
    } else {
        dec_chars(n / 10).push(dec_digit_char(n % 10))
    }
}

/// The value of a digit string, most significant digit first.
pub open spec fn dec_value(s: Seq<char>) -> nat
    decreases s.len(),
{
    if s.len() == 0 {
        0
    } else {
        dec_value(s.drop_last()) * 10 + dec_digit_val(s.last())
    }
}

/// Whether every character of `s` is a decimal digit.
pub open spec fn all_dec_digits(s: Seq<char>) -> bool {
    forall|k: int| 0 <= k < s.len() ==> is_dec_digit(#[trigger] s[k])
}

/// Whether `s` is a canonical numeral: nonempty, all digits, and without a
/// leading zero unless it is exactly "0".
pub open spec fn is_canonical_numeral(s: Seq<char>) -> bool {
    &&& s.len() >= 1
    &&& all_dec_digits(s)
    &&& (s[0] == dec_digit_char(0) ==> s.len() == 1)
}

proof fn lemma_dec_digit_char_injective(d1: nat, d2: nat)
    requires
        d1 < 10,
        d2 < 10,
        dec_digit_char(d1) == dec_digit_char(d2),
    ensures
        d1 == d2,
{
}

proof fn lemma_dec_digit_val_of_char(d: nat)
    requires
        d < 10,
    ensures
        is_dec_digit(dec_digit_char(d)),
        dec_digit_val(dec_digit_char(d)) == d,
{
    assert(is_dec_digit(dec_digit_char(d)));
    let d2 = choose|d2: nat| d2 < 10 && dec_digit_char(d) == dec_digit_char(d2);
    lemma_dec_digit_char_injective(d, d2);
}

/// The canonical numeral of `n` really is canonical and has value `n`.
proof fn lemma_dec_chars_canonical(n: nat)
    ensures
        is_canonical_numeral(dec_chars(n)),
        dec_value(dec_chars(n)) == n,
        n < 10 <==> dec_chars(n).len() == 1,
    decreases n,
{
    if n < 10 {
        lemma_dec_digit_val_of_char(n);
        let s = dec_chars(n);
        assert(s =~= seq![dec_digit_char(n)]);
        assert(s.drop_last() =~= Seq::<char>::empty());
        assert(s.last() == dec_digit_char(n));
        assert(dec_value(s) == dec_value(s.drop_last()) * 10 + dec_digit_val(s.last()));
        assert(dec_value(s.drop_last()) == 0);
        assert(s[0] == dec_digit_char(n));
        assert(forall|k: int| 0 <= k < s.len() ==> is_dec_digit(#[trigger] s[k]));
    } else {
        lemma_dec_chars_canonical(n / 10);
        lemma_dec_digit_val_of_char(n % 10);
        let s = dec_chars(n);
        let p = dec_chars(n / 10);
        assert(s == p.push(dec_digit_char(n % 10)));
        assert(s.drop_last() =~= p);
        assert(s.last() == dec_digit_char(n % 10));
        assert(dec_value(s) == (n / 10) * 10 + n % 10);
        assert((n / 10) * 10 + n % 10 == n) by (nonlinear_arith);
        assert(s[0] == p[0]);
        assert(p[0] == dec_digit_char(0) ==> p.len() == 1);
        if p[0] == dec_digit_char(0) {
            assert(p.len() == 1);
            assert(n / 10 < 10);
            assert(dec_value(p) == n / 10);
            assert(n / 10 == 0);
            assert(n < 10);
        }
        assert(forall|k: int| 0 <= k < s.len() ==> is_dec_digit(#[trigger] s[k])) by {
            assert(forall|k: int| 0 <= k < p.len() ==> is_dec_digit(#[trigger] p[k]));
            assert(s.len() == p.len() + 1);
            assert(forall|k: int| 0 <= k < p.len() ==> s[k] == #[trigger] p[k]);
            assert(is_dec_digit(s[s.len() - 1]));
        }
    }
}

/// A canonical numeral is determined by its value.
proof fn lemma_canonical_numeral_unique(s: Seq<char>)
    requires
        is_canonical_numeral(s),
    ensures
        s == dec_chars(dec_value(s)),
    decreases s.len(),
{
    let n = dec_value(s);
    if s.len() == 1 {
        assert(is_dec_digit(s[0]));
        let d = choose|d: nat| d < 10 && s[0] == dec_digit_char(d);
        assert(s.drop_last() =~= Seq::<char>::empty());
        assert(s.last() == s[0]);
        lemma_dec_digit_val_of_char(d);
        assert(dec_value(s) == dec_value(s.drop_last()) * 10 + dec_digit_val(s.last()));
        assert(dec_value(s.drop_last()) == 0);
        assert(n == d);
        assert(s =~= dec_chars(n));
    } else {
        let p = s.drop_last();
        let c = s.last();
        let d = choose|d: nat| d < 10 && c == dec_digit_char(d);
        assert(is_dec_digit(c));
        lemma_dec_digit_val_of_char(d);
        assert(forall|k: int| 0 <= k < p.len() ==> p[k] == #[trigger] s[k]);
        assert(is_canonical_numeral(p));
        lemma_canonical_numeral_unique(p);
        let m = dec_value(p);
        assert(n == m * 10 + d);
        assert(d == n % 10 && m == n / 10) by (nonlinear_arith)
            requires
                n == m * 10 + d,
                d < 10,
        ;
        assert(p[0] != dec_digit_char(0));
        if m < 10 {
            assert(dec_chars(m).len() == 1) by {
                lemma_dec_chars_canonical(m);
            }
            assert(p.len() == 1);
            assert(dec_value(p) == dec_digit_val(p[0]) * 1) by {
                assert(p.drop_last() =~= Seq::<char>::empty());
                assert(p.last() == p[0]);
            }
            let d0 = choose|dd: nat| dd < 10 && p[0] == dec_digit_char(dd);
            lemma_dec_digit_val_of_char(d0);
            assert(m == d0);
            if d0 == 0 {
                assert(p[0] == dec_digit_char(0));
            }
            assert(m != 0);
            assert(n >= 10);
        } else {
            assert(n >= m * 10) by (nonlinear_arith)
                requires
                    n == m * 10 + d,
            ;
            assert(n >= 10);
        }
        assert(dec_chars(n) == dec_chars(n / 10).push(dec_digit_char(n % 10)));
        assert(s =~= p.push(c));
        assert(s =~= dec_chars(n));
    }
}

/// Two canonical numerals followed by non-digit boundaries in the same text
/// are the same numeral.
pub proof fn lemma_numeral_prefix_deterministic(s: Seq<char>, i: int, n1: nat, j1: int, n2: nat, j2: int)
    requires
        0 <= i <= j1 <= s.len(),
        0 <= i <= j2 <= s.len(),
        s.subrange(i, j1) == dec_chars(n1),
        s.subrange(i, j2) == dec_chars(n2),
        j1 == s.len() || !is_dec_digit(s[j1]),
        j2 == s.len() || !is_dec_digit(s[j2]),
    ensures
        n1 == n2,
        j1 == j2,
{
    lemma_dec_chars_canonical(n1);
    lemma_dec_chars_canonical(n2);
    if j1 < j2 {
        assert(is_dec_digit(s.subrange(i, j2)[j1 - i]));
        assert(s.subrange(i, j2)[j1 - i] == s[j1]);
        assert(j1 < s.len());
        assert(false);
    } else if j2 < j1 {
        assert(is_dec_digit(s.subrange(i, j1)[j2 - i]));
        assert(s.subrange(i, j1)[j2 - i] == s[j2]);
        assert(false);
    }
    assert(dec_chars(n1) == dec_chars(n2));
    assert(dec_value(dec_chars(n1)) == dec_value(dec_chars(n2)));
}

/// One digit as a character.
pub fn dec_digit(d: u64) -> (c: char)
    requires
        d < 10,
    ensures
        c == dec_digit_char(d as nat),
{
    match d {
        0 => '0',
        1 => '1',
        2 => '2',
        3 => '3',
        4 => '4',
        5 => '5',
        6 => '6',
        7 => '7',
        8 => '8',
        _ => '9',
    }
}

/// The value of a digit character, or `None` when `c` is not a digit.
pub fn dec_val(c: char) -> (r: Option<u64>)
    ensures
        match r {
            Some(d) => d < 10 && is_dec_digit(c) && dec_digit_val(c) == d,
            None => !is_dec_digit(c),
        },
{
    let r: Option<u64> = match c {
        '0' => Some(0),
        '1' => Some(1),
        '2' => Some(2),
        '3' => Some(3),
        '4' => Some(4),
        '5' => Some(5),
        '6' => Some(6),
        '7' => Some(7),
        '8' => Some(8),
        '9' => Some(9),
        _ => None,
    };
    proof {
        match r {
            Some(d) => {
                lemma_dec_digit_val_of_char(d as nat);
            },
            None => {
                if is_dec_digit(c) {
                    let d = choose|d: nat| d < 10 && c == dec_digit_char(d);
                    assert(c == dec_digit_char(d));
                    assert(false);
                }
            },
        }
    }
    r
}

/// Appends the canonical decimal numeral of `n` to `out`.
pub fn push_dec(n: u64, out: &mut Vec<char>)
    ensures
        final(out)@ == old(out)@ + dec_chars(n as nat),
    decreases n,
{
    if n >= 10 {
        push_dec(n / 10, out);
        let c = dec_digit(n % 10);
        out.push(c);
        proof {
            assert(final(out)@ =~= old(out)@ + dec_chars(n as nat));
        }
    } else {
        let c = dec_digit(n);
        out.push(c);
        proof {
            assert(final(out)@ =~= old(out)@ + dec_chars(n as nat));
        }
    }
}

/// Whether a canonical numeral with value fitting `u64` stands at `i`,
/// ending at a non-digit boundary.
pub open spec fn numeral_at(s: Seq<char>, i: int, n: u64, j: int) -> bool {
    &&& i <= j <= s.len()
    &&& s.subrange(i, j) == dec_chars(n as nat)
    &&& (j == s.len() || !is_dec_digit(s[j]))
}

/// Strict parse of a canonical `u64` numeral at position `i`: the digit run
/// must be canonical (no leading zero) and its value must fit in a `u64`.
pub fn parse_u64(s: &Vec<char>, i: usize) -> (r: Option<(u64, usize)>)
    requires
        i <= s@.len(),
    ensures
        match r {
            Some((n, j)) => i < j <= s@.len() && numeral_at(s@, i as int, n, j as int),
            None => forall|n: u64, j: int| !numeral_at(s@, i as int, n, j),
        },
{
    let len = s.len();
    // find the end of the digit run
    let mut e = i;
    while e < len && dec_val(s[e]).is_some()
        invariant
            i <= e <= len,
            len == s@.len(),
            forall|k: int| i <= k < e ==> is_dec_digit(#[trigger] s@[k]),
        decreases len - e,
    {
        e += 1;
    }
    assert(e == len || !is_dec_digit(s@[e as int]));
    if e == i {
        proof {
            assert forall|n: u64, j: int| !numeral_at(s@, i as int, n, j) by {
                if numeral_at(s@, i as int, n, j) {
                    lemma_dec_chars_canonical(n as nat);
                    assert(dec_chars(n as nat).len() >= 1);
                    assert(j > i);
                    assert(s@.subrange(i as int, j)[0] == s@[i as int]);
                    assert(is_dec_digit(s@[i as int]));
                }
            }
        }
        return None;
    }
    // reject a leading zero on a longer run
    if e > i + 1 {
        let c0 = s[i];
        if c0 == '0' {
            proof {
                assert(dec_digit_char(0) == '0');
                assert forall|n: u64, j: int| !numeral_at(s@, i as int, n, j) by {
                    if numeral_at(s@, i as int, n, j) {
                        lemma_dec_chars_canonical(n as nat);
                        assert(s@.subrange(i as int, j)[0] == s@[i as int]);
                        assert(dec_chars(n as nat)[0] == dec_digit_char(0));
                        assert(dec_chars(n as nat).len() == 1);
                        assert(j == i + 1);
                        assert(j < s@.len() && is_dec_digit(s@[j]));
                    }
                }
            }
            return None;
        }
    }
    // accumulate the value, watching for overflow
    let mut v: u64 = 0;
    let mut k = i;
    while k < e
        invariant
            i <= k <= e <= len,
            len == s@.len(),
            forall|kk: int| i <= kk < e ==> is_dec_digit(#[trigger] s@[kk]),
            dec_value(s@.subrange(i as int, k as int)) == v as nat,
        decreases e - k,
    {
        let d = match dec_val(s[k]) {
            Some(d) => d,
            None => {
                proof {
                    assert(false);
                }
                0
            },
        };
        let ghost pre = s@.subrange(i as int, k as int);
        if v > (u64::MAX - d) / 10 {
            // the run's value exceeds u64: no canonical u64 numeral can end
            // at a non-digit boundary inside or at the end of the run
            proof {
                assert((v as nat) * 10 + d > u64::MAX as nat) by (nonlinear_arith)
                    requires
                        v > (u64::MAX - d) / 10,
                        d < 10,
                ;
                let cur = s@.subrange(i as int, k as int + 1);
                assert(cur.drop_last() =~= pre);
                assert(cur.last() == s@[k as int]);
                assert(dec_value(cur) == (v as nat) * 10 + d);
                assert forall|n: u64, j: int| !numeral_at(s@, i as int, n, j) by {
                    if numeral_at(s@, i as int, n, j) {
                        lemma_dec_chars_canonical(n as nat);
                        // the numeral is the full digit run
                        if j <= k as int {
                            // boundary inside the run is a digit
                            assert(is_dec_digit(s@[j]));
                            assert(false);
                        }
                        // the run through k+1 is a prefix of the numeral
                        let num = s@.subrange(i as int, j);
                        assert(num == dec_chars(n as nat));
                        assert forall|kk: int| i <= kk < j implies is_dec_digit(
                            #[trigger] s@[kk],
                        ) by {
                            assert(num[kk - i] == s@[kk]);
                            assert(is_dec_digit(num[kk - i]));
                        }
                        lemma_dec_value_prefix_le(s@, i as int, k as int + 1, j);
                        assert(dec_value(cur) <= dec_value(num));
                        assert(dec_value(num) == n as nat);
                        assert(false);
                    }
                }
            }
            return None;
        }
        assert((v as nat) * 10 + d <= u64::MAX as nat) by (nonlinear_arith)
            requires
                v <= (u64::MAX - d) / 10,
                d < 10,
        ;
        v = v * 10 + d;
        k += 1;
        proof {
            let cur = s@.subrange(i as int, k as int);
            assert(cur.drop_last() =~= pre);
            assert(cur.last() == s@[k - 1]);
        }
    }
    proof {
        let run = s@.subrange(i as int, e as int);
        assert(is_canonical_numeral(run)) by {
            assert(run.len() >= 1);
            assert(forall|kk: int| 0 <= kk < run.len() ==> is_dec_digit(#[trigger] run[kk]));
            if run[0] == dec_digit_char(0) && run.len() != 1 {
                assert(s@[i as int] == '0');
                assert(e > i + 1);
            }
        }
        lemma_canonical_numeral_unique(run);
        assert(run == dec_chars(v as nat));
    }
    Some((v, e))
}

/// The value of a digit string is monotone in extension: a digit string's
/// prefix has a value no greater than the whole.
proof fn lemma_dec_value_prefix_le(s: Seq<char>, i: int, m: int, j: int)
    requires
        0 <= i <= m <= j <= s.len(),
        forall|k: int| i <= k < j ==> is_dec_digit(#[trigger] s[k]),
    ensures
        dec_value(s.subrange(i, m)) <= dec_value(s.subrange(i, j)),
    decreases j - m,
{
    if m < j {
        lemma_dec_value_prefix_le(s, i, m + 1, j);
        let a = s.subrange(i, m);
        let b = s.subrange(i, m + 1);
        assert(b.drop_last() =~= a);
        assert(b.last() == s[m]);
        assert(is_dec_digit(s[m]));
        let d = choose|d: nat| d < 10 && s[m] == dec_digit_char(d);
        lemma_dec_digit_val_of_char(d);
        assert(dec_value(b) == dec_value(a) * 10 + d);
        assert(dec_value(a) <= dec_value(a) * 10) by (nonlinear_arith);
    }
}

// ---------------------------------------------------------------------------
// Escaped string bodies
// ---------------------------------------------------------------------------

/// The character for one lower-case hexadecimal digit.
pub open spec fn hex_digit_char(d: nat) -> char {
    if d < 10 {
        dec_digit_char(d)
    } else if d == 10 {
        'a'
    } else if d == 11 {
        'b'
    } else if d == 12 {
        'c'
    } else if d == 13 {
        'd'
    } else if d == 14 {
        'e'
    } else {
        'f'
    }
}

/// Whether `c` is a lower-case hexadecimal digit.
pub open spec fn is_hex_digit(c: char) -> bool {
    exists|d: nat| d < 16 && c == hex_digit_char(d)
}

/// The numeric value of a hexadecimal digit character.
pub open spec fn hex_digit_val(c: char) -> nat {
    choose|d: nat| d < 16 && c == hex_digit_char(d)
}

proof fn lemma_hex_digit_val_of_char(d: nat)
    requires
        d < 16,
    ensures
        is_hex_digit(hex_digit_char(d)),
        hex_digit_val(hex_digit_char(d)) == d,
{
    assert(is_hex_digit(hex_digit_char(d)));
    let d2 = choose|d2: nat| d2 < 16 && hex_digit_char(d) == hex_digit_char(d2);
    assert(hex_digit_char(d) == hex_digit_char(d2));
    assert(d == d2);
}

/// The control characters that JSON writes with a two-character escape.
pub open spec fn is_short_escaped(c: char) -> bool {
    c == '\u{8}' || c == '\u{9}' || c == '\u{a}' || c == '\u{c}' || c == '\u{d}'
}

/// The letter after the backslash for a short-escaped control character.
pub open spec fn short_escape_mark(c: char) -> char {
    if c == '\u{8}' {
        'b'
    } else if c == '\u{9}' {
        't'
    } else if c == '\u{a}' {
        'n'
    } else if c == '\u{c}' {
        'f'
    } else {
        'r'
    }
}

/// The character a short escape mark stands for.
pub open spec fn unescape_mark(m: char) -> char {
    if m == '"' {
        '"'
    } else if m == '\\' {
        '\\'
    } else if m == 'b' {
        '\u{8}'
    } else if m == 't' {
        '\u{9}'
    } else if m == 'n' {
        '\u{a}'
    } else if m == 'f' {
        '\u{c}'
    } else {
        '\u{d}'
    }
}

/// The control character with code `v` (meaningful only for `v < 0x20`).
pub open spec fn control_char_of(v: nat) -> char {
    if v == 0x0 {
        '\u{0}'
    } else if v == 0x1 {
        '\u{1}'
    } else if v == 0x2 {
        '\u{2}'
    } else if v == 0x3 {
        '\u{3}'
    } else if v == 0x4 {
        '\u{4}'
    } else if v == 0x5 {
        '\u{5}'
    } else if v == 0x6 {
        '\u{6}'
    } else if v == 0x7 {
        '\u{7}'
    } else if v == 0x8 {
        '\u{8}'
    } else if v == 0x9 {
        '\u{9}'
    } else if v == 0xa {
        '\u{a}'
    } else if v == 0xb {
        '\u{b}'
    } else if v == 0xc {
        '\u{c}'
    } else if v == 0xd {
        '\u{d}'
    } else if v == 0xe {
        '\u{e}'
    } else if v == 0xf {
        '\u{f}'
    } else if v == 0x10 {
        '\u{10}'
    } else if v == 0x11 {
        '\u{11}'
    } else if v == 0x12 {
        '\u{12}'
    } else if v == 0x13 {
        '\u{13}'
    } else if v == 0x14 {
        '\u{14}'
    } else if v == 0x15 {
        '\u{15}'
    } else if v == 0x16 {
        '\u{16}'
    } else if v == 0x17 {
        '\u{17}'
    } else if v == 0x18 {
        '\u{18}'
    } else if v == 0x19 {
        '\u{19}'
    } else if v == 0x1a {
        '\u{1a}'
    } else if v == 0x1b {
        '\u{1b}'
    } else if v == 0x1c {
        '\u{1c}'
    } else if v == 0x1d {
        '\u{1d}'
    } else if v == 0x1e {
        '\u{1e}'
    } else {
        '\u{1f}'
    }
}

/// The code of [`control_char_of`] is its argument.
proof fn lemma_control_char_val(v: nat)
    requires
        v < 0x20,
    ensures
        control_char_of(v) as u32 == v,
{
}

/// A control character is recovered from its code.
proof fn lemma_control_char_of_code(c: char)
    requires
        (c as u32) < 0x20,
    ensures
        control_char_of((c as u32) as nat) == c,
{
    let v: u32 = c as u32;
    vstd::utf8::char_u32_cast(c, v);
    let l = control_char_of(v as nat);
    lemma_control_char_val(v as nat);
    vstd::utf8::char_u32_cast(l, v);
}

/// The canonical JSON escape of one character: quote and backslash take a
/// backslash, the five named control characters take their letter, the
/// remaining control characters take a `\u00..` form with lower-case hex,
/// and every other character stands for itself.
pub open spec fn esc_char(c: char) -> Seq<char> {
    if c == '"' {
        seq!['\\', '"']
    } else if c == '\\' {
        seq!['\\', '\\']
    } else if is_short_escaped(c) {
        seq!['\\', short_escape_mark(c)]
    } else if (c as u32) < 0x20 {
        seq![
            '\\',
            'u',
            '0',
            '0',
            hex_digit_char(((c as u32) / 16) as nat),
            hex_digit_char(((c as u32) % 16) as nat),
        ]
    } else {
        seq![c]
    }
}

/// The canonical escape of a whole string body.
pub open spec fn esc_string(s: Seq<char>) -> Seq<char>
    decreases s.len(),
{
    if s.len() == 0 {
        Seq::empty()
    } else {
        esc_char(s[0]) + esc_string(s.drop_first())
    }
}

proof fn lemma_esc_string_cons(s: Seq<char>)
    requires
        s.len() > 0,
    ensures
        esc_string(s) == esc_char(s[0]) + esc_string(s.drop_first()),
{
}

/// Escaping commutes with appending one character at the end.
proof fn lemma_esc_string_snoc(s: Seq<char>, c: char)
    ensures
        esc_string(s.push(c)) == esc_string(s) + esc_char(c),
    decreases s.len(),
{
    if s.len() == 0 {
        assert(s.push(c)[0] == c);
        assert(s.push(c).drop_first() =~= Seq::<char>::empty());
        assert(esc_string(s.push(c)) == esc_char(c) + esc_string(Seq::<char>::empty()));
        assert(esc_char(c) + Seq::<char>::empty() =~= esc_char(c));
        assert(esc_string(s) + esc_char(c) =~= esc_char(c));
    } else {
        lemma_esc_string_snoc(s.drop_first(), c);
        assert(s.push(c)[0] == s[0]);
        assert(s.push(c).drop_first() =~= s.drop_first().push(c));
        assert(esc_string(s.push(c)) == esc_char(s[0]) + (esc_string(s.drop_first()) + esc_char(
            c,
        )));
        assert(esc_char(s[0]) + (esc_string(s.drop_first()) + esc_char(c)) =~= (esc_char(s[0])
            + esc_string(s.drop_first())) + esc_char(c));
    }
}

/// The strict parse of an escaped string body starting at `i`: on success it
/// yields the decoded characters and the position of the closing quote. It
/// accepts exactly the text [`esc_string`] writes: canonical escapes only,
/// and no raw control characters.
pub open spec fn spec_parse_body(s: Seq<char>, i: int) -> Option<(Seq<char>, int)>
    decreases s.len() - i,
    when 0 <= i <= s.len()
{
    if i >= s.len() {
        None
    } else if s[i] == '"' {
        Some((Seq::empty(), i))
    } else if s[i] == '\\' {
        if i + 1 >= s.len() {
            None
        } else {
            let m = s[i + 1];
            if m == '"' || m == '\\' || m == 'b' || m == 't' || m == 'n' || m == 'f' || m == 'r' {
                match spec_parse_body(s, i + 2) {
                    Some(p) => Some((seq![unescape_mark(m)] + p.0, p.1)),
                    None => None,
                }
            } else if m == 'u' {
                if i + 6 <= s.len() && s[i + 2] == '0' && s[i + 3] == '0' && is_hex_digit(s[i + 4])
                    && is_hex_digit(s[i + 5]) {
                    let v: nat = hex_digit_val(s[i + 4]) * 16 + hex_digit_val(s[i + 5]);
                    let c: char = control_char_of(v);
                    if v < 0x20 && !is_short_escaped(c) {
                        match spec_parse_body(s, i + 6) {
                            Some(p) => Some((seq![c] + p.0, p.1)),
                            None => None,
                        }
                    } else {
                        None
                    }
                } else {
                    None
                }
            } else {
                None
            }
        }
    } else if (s[i] as u32) >= 0x20 {
        match spec_parse_body(s, i + 1) {
            Some(p) => Some((seq![s[i]] + p.0, p.1)),
            None => None,
        }
    } else {
        None
    }
}

/// Soundness of the body parse: what it consumed is the canonical escape of
/// what it decoded, and it stops at a quote.
pub proof fn lemma_parse_body_sound(s: Seq<char>, i: int)
    requires
        0 <= i <= s.len(),
    ensures
        match spec_parse_body(s, i) {
            Some(p) => {
                &&& i <= p.1 < s.len()
                &&& s[p.1] == '"'
                &&& s.subrange(i, p.1) == esc_string(p.0)
            },
            None => true,
        },
    decreases s.len() - i,
{
    if i >= s.len() {
    } else if s[i] == '"' {
        assert(s.subrange(i, i) =~= Seq::<char>::empty());
    } else if s[i] == '\\' {
        if i + 1 < s.len() {
            let m = s[i + 1];
            if m == '"' || m == '\\' || m == 'b' || m == 't' || m == 'n' || m == 'f' || m == 'r' {
                lemma_parse_body_sound(s, i + 2);
                if spec_parse_body(s, i + 2) is Some {
                    let p = spec_parse_body(s, i + 2)->Some_0;
                    let c = unescape_mark(m);
                    let t = seq![c] + p.0;
                    assert(t[0] == c);
                    assert(t.drop_first() =~= p.0);
                    assert(esc_char(c) =~= seq!['\\', m]);
                    assert(s.subrange(i, p.1) =~= esc_char(c) + s.subrange(i + 2, p.1));
                }
            } else if m == 'u' {
                if i + 6 <= s.len() && s[i + 2] == '0' && s[i + 3] == '0' && is_hex_digit(s[i + 4])
                    && is_hex_digit(s[i + 5]) {
                    let v: nat = hex_digit_val(s[i + 4]) * 16 + hex_digit_val(s[i + 5]);
                    let c: char = control_char_of(v);
                    if v < 0x20 && !is_short_escaped(c) {
                        lemma_parse_body_sound(s, i + 6);
                        if spec_parse_body(s, i + 6) is Some {
                            let p = spec_parse_body(s, i + 6)->Some_0;
                            let t = seq![c] + p.0;
                            assert(t[0] == c);
                            assert(t.drop_first() =~= p.0);
                            let hv = hex_digit_val(s[i + 4]);
                            let lv = hex_digit_val(s[i + 5]);
                            assert(hv < 16 && lv < 16) by {
                                let dh = choose|d: nat| d < 16 && s[i + 4] == hex_digit_char(d);
                                let dl = choose|d: nat| d < 16 && s[i + 5] == hex_digit_char(d);
                                lemma_hex_digit_val_of_char(dh);
                                lemma_hex_digit_val_of_char(dl);
                            }
                            assert(c as u32 == v) by {
                                lemma_control_char_val(v);
                            }
                            assert(v / 16 == hv && v % 16 == lv) by (nonlinear_arith)
                                requires
                                    v == hv * 16 + lv,
                                    hv < 16,
                                    lv < 16,
                            ;
                            assert(esc_char(c) =~= seq![
                                '\\',
                                'u',
                                '0',
                                '0',
                                hex_digit_char(hv),
                                hex_digit_char(lv),
                            ]);
                            assert(s.subrange(i, p.1) =~= esc_char(c) + s.subrange(i + 6, p.1));
                        }
                    }
                }
            }
        }
    } else if (s[i] as u32) >= 0x20 {
        lemma_parse_body_sound(s, i + 1);
        if spec_parse_body(s, i + 1) is Some {
            let p = spec_parse_body(s, i + 1)->Some_0;
            let t = seq![s[i]] + p.0;
            assert(t[0] == s[i]);
            assert(t.drop_first() =~= p.0);
            assert(esc_char(s[i]) =~= seq![s[i]]);
            assert(s.subrange(i, p.1) =~= esc_char(s[i]) + s.subrange(i + 1, p.1));
        }
    }
}

/// Completeness of the body parse: on the canonical escape of `t` followed
/// by a quote, the parse succeeds and decodes `t`.
pub proof fn lemma_parse_body_complete(s: Seq<char>, i: int, t: Seq<char>)
    requires
        0 <= i,
        i + esc_string(t).len() < s.len(),
        s.subrange(i, i + esc_string(t).len()) == esc_string(t),
        s[i + esc_string(t).len()] == '"',
    ensures
        spec_parse_body(s, i) == Some((t, i + esc_string(t).len())),
    decreases t.len(),
{
    if t.len() == 0 {
        assert(s[i] == '"');
        assert(spec_parse_body(s, i) == Some((Seq::<char>::empty(), i)));
        assert(Seq::<char>::empty() =~= t);
    } else {
        let c = t[0];
        let e = esc_char(c);
        let t1 = t.drop_first();
        lemma_esc_string_cons(t);
        let full = esc_string(t);
        assert(full == e + esc_string(t1));
        assert(e.len() >= 1);
        assert forall|k: int| 0 <= k < e.len() implies s[i + k] == #[trigger] e[k] by {
            assert(s.subrange(i, i + full.len())[k] == full[k]);
            assert(full[k] == e[k]);
            assert(s.subrange(i, i + full.len())[k] == s[i + k]);
        }
        let i1 = i + e.len();
        assert(s.subrange(i1, i1 + esc_string(t1).len()) =~= esc_string(t1)) by {
            assert forall|k: int|
                0 <= k < esc_string(t1).len() implies #[trigger] s.subrange(
                i1,
                i1 + esc_string(t1).len(),
            )[k] == esc_string(t1)[k] by {
                assert(esc_string(t1)[k] == full[e.len() + k]);
                assert(s.subrange(i, i + full.len())[e.len() + k] == full[e.len() + k]);
                assert(s.subrange(i, i + full.len())[e.len() + k] == s[i + e.len() + k]);
                assert(s.subrange(i1, i1 + esc_string(t1).len())[k] == s[i1 + k]);
            }
        }
        assert(s[i1 + esc_string(t1).len()] == '"');
        lemma_parse_body_complete(s, i1, t1);
        assert(spec_parse_body(s, i1) == Some((t1, i1 + esc_string(t1).len())));
        if c == '"' {
            assert(e =~= seq!['\\', '"']);
            assert(s[i] == '\\' && s[i + 1] == '"');
            assert(unescape_mark('"') == c);
            assert(spec_parse_body(s, i) == Some((seq![c] + t1, i1 + esc_string(t1).len())));
        } else if c == '\\' {
            assert(e =~= seq!['\\', '\\']);
            assert(s[i] == '\\' && s[i + 1] == '\\');
            assert(unescape_mark('\\') == c);
        } else if is_short_escaped(c) {
            let m = short_escape_mark(c);
            assert(e =~= seq!['\\', m]);
            assert(s[i] == '\\' && s[i + 1] == m);
            assert(m == 'b' || m == 't' || m == 'n' || m == 'f' || m == 'r');
            assert(unescape_mark(m) == c);
        } else if (c as u32) < 0x20 {
            let hv = ((c as u32) / 16) as nat;
            let lv = ((c as u32) % 16) as nat;
            assert(e =~= seq!['\\', 'u', '0', '0', hex_digit_char(hv), hex_digit_char(lv)]);
            assert(s[i] == '\\' && s[i + 1] == 'u' && s[i + 2] == '0' && s[i + 3] == '0');
            assert(s[i + 4] == hex_digit_char(hv) && s[i + 5] == hex_digit_char(lv));
            assert(hv < 16 && lv < 16);
            lemma_hex_digit_val_of_char(hv);
            lemma_hex_digit_val_of_char(lv);
            assert(hex_digit_char(hv) != '"' && hex_digit_char(hv) != '\\');
            let v: nat = hex_digit_val(s[i + 4]) * 16 + hex_digit_val(s[i + 5]);
            assert(v == hv * 16 + lv);
            assert(v == c as u32) by (nonlinear_arith)
                requires
                    v == hv * 16 + lv,
                    hv == ((c as u32) / 16) as nat,
                    lv == ((c as u32) % 16) as nat,
                    (c as u32) < 0x20,
            ;
            assert(control_char_of(v) == c) by {
                lemma_control_char_of_code(c);
            }
            assert('u' != '"' && 'u' != '\\' && 'u' != 'b' && 'u' != 't' && 'u' != 'n' && 'u'
                != 'f' && 'u' != 'r');
        } else {
            assert(e =~= seq![c]);
            assert(s[i + 0] == e[0]);
            assert(e[0] == c);
            assert(s[i] == c);
            assert(c != '"' && c != '\\' && (c as u32) >= 0x20);
        }
        assert(seq![c] + t1 =~= t);
    }
}

/// The control character with code `v`.
fn control_char(v: u64) -> (c: char)
    requires
        v < 0x20,
    ensures
        c == control_char_of(v as nat),
{
    match v {
        0 => '\u{0}',
        1 => '\u{1}',
        2 => '\u{2}',
        3 => '\u{3}',
        4 => '\u{4}',
        5 => '\u{5}',
        6 => '\u{6}',
        7 => '\u{7}',
        8 => '\u{8}',
        9 => '\u{9}',
        10 => '\u{a}',
        11 => '\u{b}',
        12 => '\u{c}',
        13 => '\u{d}',
        14 => '\u{e}',
        15 => '\u{f}',
        16 => '\u{10}',
        17 => '\u{11}',
        18 => '\u{12}',
        19 => '\u{13}',
        20 => '\u{14}',
        21 => '\u{15}',
        22 => '\u{16}',
        23 => '\u{17}',
        24 => '\u{18}',
        25 => '\u{19}',
        26 => '\u{1a}',
        27 => '\u{1b}',
        28 => '\u{1c}',
        29 => '\u{1d}',
        30 => '\u{1e}',
        _ => '\u{1f}',
    }
}

/// One escape mark decoded.
fn unescape_mark_exec(m: char) -> (c: char)
    requires
        m == '"' || m == '\\' || m == 'b' || m == 't' || m == 'n' || m == 'f' || m == 'r',
    ensures
        c == unescape_mark(m),
{
    match m {
        '"' => '"',
        '\\' => '\\',
        'b' => '\u{8}',
        't' => '\u{9}',
        'n' => '\u{a}',
        'f' => '\u{c}',
        _ => '\u{d}',
    }
}

/// The value of a lower-case hexadecimal digit, or `None`.
fn hex_val(c: char) -> (r: Option<u64>)
    ensures
        match r {
            Some(d) => d < 16 && is_hex_digit(c) && hex_digit_val(c) == d,
            None => !is_hex_digit(c),
        },
{
    let r: Option<u64> = match c {
        '0' => Some(0),
        '1' => Some(1),
        '2' => Some(2),
        '3' => Some(3),
        '4' => Some(4),
        '5' => Some(5),
        '6' => Some(6),
        '7' => Some(7),
        '8' => Some(8),
        '9' => Some(9),
        'a' => Some(10),
        'b' => Some(11),
        'c' => Some(12),
        'd' => Some(13),
        'e' => Some(14),
        'f' => Some(15),
        _ => None,
    };
    proof {
        match r {
            Some(d) => {
                lemma_hex_digit_val_of_char(d as nat);
            },
            None => {
                if is_hex_digit(c) {
                    let d = choose|d: nat| d < 16 && c == hex_digit_char(d);
                    assert(c == hex_digit_char(d));
                    assert(false);
                }
            },
        }
    }
    r
}

/// One lower-case hexadecimal digit as a character.
fn hex_digit(d: u64) -> (c: char)
    requires
        d < 16,
    ensures
        c == hex_digit_char(d as nat),
{
    match d {
        0 => '0',
        1 => '1',
        2 => '2',
        3 => '3',
        4 => '4',
        5 => '5',
        6 => '6',
        7 => '7',
        8 => '8',
        9 => '9',
        10 => 'a',
        11 => 'b',
        12 => 'c',
        13 => 'd',
        14 => 'e',
        _ => 'f',
    }
}

/// Appends the canonical escape of one character to `out`.
fn push_esc_char(c: char, out: &mut Vec<char>)
    ensures
        final(out)@ == old(out)@ + esc_char(c),
{
    if c == '"' {
        out.push('\\');
        out.push('"');
        assert(final(out)@ =~= old(out)@ + esc_char(c));
    } else if c == '\\' {
        out.push('\\');
        out.push('\\');
        assert(final(out)@ =~= old(out)@ + esc_char(c));
    } else if c == '\u{8}' {
        out.push('\\');
        out.push('b');
        assert(final(out)@ =~= old(out)@ + esc_char(c));
    } else if c == '\u{9}' {
        out.push('\\');
        out.push('t');
        assert(final(out)@ =~= old(out)@ + esc_char(c));
    } else if c == '\u{a}' {
        out.push('\\');
        out.push('n');
        assert(final(out)@ =~= old(out)@ + esc_char(c));
    } else if c == '\u{c}' {
        out.push('\\');
        out.push('f');
        assert(final(out)@ =~= old(out)@ + esc_char(c));
    } else if c == '\u{d}' {
        out.push('\\');
        out.push('r');
        assert(final(out)@ =~= old(out)@ + esc_char(c));
    } else if (c as u32) < 0x20 {
        let v = c as u32;
        out.push('\\');
        out.push('u');
        out.push('0');
        out.push('0');
        let h = hex_digit((v / 16) as u64);
        out.push(h);
        let l = hex_digit((v % 16) as u64);
        out.push(l);
        assert(final(out)@ =~= old(out)@ + esc_char(c));
    } else {
        out.push(c);
        assert(final(out)@ =~= old(out)@ + esc_char(c));
    }
}

/// Appends the canonical escape of a whole string to `out`.
pub fn push_escaped(s: &str, out: &mut Vec<char>)
    ensures
        final(out)@ == old(out)@ + esc_string(s@),
{
    let n = s.unicode_len();
    let mut i: usize = 0;
    proof {
        assert(s@.subrange(0, 0) =~= Seq::<char>::empty());
    }
    while i < n
        invariant
            i <= n,
            n == s@.len(),
            out@ == old(out)@ + esc_string(s@.subrange(0, i as int)),
        decreases n - i,
    {
        let c = s.get_char(i);
        push_esc_char(c, out);
        proof {
            lemma_esc_string_snoc(s@.subrange(0, i as int), c);
            assert(s@.subrange(0, i + 1) =~= s@.subrange(0, i as int).push(s@[i as int]));
            assert(out@ + esc_string(s@.subrange(0, i as int)) + esc_char(c) =~= out@ + (esc_string(
                s@.subrange(0, i as int),
            ) + esc_char(c)));
        }
        i += 1;
    }
    proof {
        assert(s@.subrange(0, s@.len() as int) =~= s@);
    }
}

/// Parses an escaped string body starting at `i`; on success returns the
/// decoded characters and the position of the closing quote.
pub fn parse_string_body(s: &Vec<char>, i: usize) -> (r: Option<(Vec<char>, usize)>)
    requires
        i <= s@.len(),
    ensures
        match r {
            Some(p) => i <= p.1 < s@.len() && spec_parse_body(s@, i as int) == Some((
                p.0@,
                p.1 as int,
            )),
            None => spec_parse_body(s@, i as int) is None,
        },
{
    let len = s.len();
    let mut k = i;
    let mut dec: Vec<char> = Vec::new();
    loop
        invariant
            i <= k <= len,
            len == s@.len(),
            spec_parse_body(s@, i as int) == (match spec_parse_body(s@, k as int) {
                Some(p) => Some::<(Seq<char>, int)>((dec@ + p.0, p.1)),
                None => None::<(Seq<char>, int)>,
            }),
        decreases len - k,
    {
        if k == len {
            return None;
        }
        let c = s[k];
        if c == '"' {
            proof {
                assert(spec_parse_body(s@, k as int) == Some((Seq::<char>::empty(), k as int)));
                assert(dec@ + Seq::<char>::empty() =~= dec@);
            }
            return Some((dec, k));
        }
        if c == '\\' {
            if k + 1 == len {
                return None;
            }
            let m = s[k + 1];
            if m == '"' || m == '\\' || m == 'b' || m == 't' || m == 'n' || m == 'f' || m == 'r' {
                let u = unescape_mark_exec(m);
                let ghost pre = dec@;
                dec.push(u);
                proof {
                    assert(forall|p: (Seq<char>, int)|
                        pre + (seq![unescape_mark(m)] + p.0) =~= (pre + seq![unescape_mark(m)])
                            + p.0);
                }
                k += 2;
            } else if m == 'u' {
                if len - k < 6 {
                    return None;
                }
                if !(s[k + 2] == '0' && s[k + 3] == '0') {
                    return None;
                }
                let ho = hex_val(s[k + 4]);
                let lo = hex_val(s[k + 5]);
                match (ho, lo) {
                    (Some(h), Some(l)) => {
                        let v = h * 16 + l;
                        proof {
                            assert(v == hex_digit_val(s@[k + 4]) * 16 + hex_digit_val(s@[k + 5]));
                        }
                        if v >= 0x20 {
                            return None;
                        }
                        let c2 = control_char(v);
                        if !(c2 == '\u{8}' || c2 == '\u{9}' || c2 == '\u{a}' || c2 == '\u{c}'
                            || c2 == '\u{d}') {
                            let ghost pre = dec@;
                            dec.push(c2);
                            proof {
                                assert(forall|p: (Seq<char>, int)|
                                    pre + (seq![c2] + p.0) =~= (pre + seq![c2]) + p.0);
                            }
                            k += 6;
                        } else {
                            return None;
                        }
                    },
                    _ => {
                        return None;
                    },
                }
            } else {
                return None;
            }
        } else if (c as u32) >= 0x20 {
            let ghost pre = dec@;
            dec.push(c);
            proof {
                assert(forall|p: (Seq<char>, int)| pre + (seq![c] + p.0) =~= (pre + seq![c]) + p.0);
            }
            k += 1;
        } else {
            return None;
        }
    }
}

// ---------------------------------------------------------------------------
// Strings and literals
// ---------------------------------------------------------------------------

/// The characters of a string slice, in order.
pub fn str_chars(s: &str) -> (v: Vec<char>)
    ensures
        v@ == s@,
{
    let n = s.unicode_len();
    let mut v: Vec<char> = Vec::new();
    let mut i: usize = 0;
    while i < n
        invariant
            i <= n,
            n == s@.len(),
            v@ == s@.subrange(0, i as int),
        decreases n - i,
    {
        let c = s.get_char(i);
        v.push(c);
        proof {
            assert(s@.subrange(0, i + 1) =~= s@.subrange(0, i as int).push(s@[i as int]));
        }
        i += 1;
    }
    proof {
        assert(s@.subrange(0, s@.len() as int) =~= s@);
    }
    v
}

/// Relies on `String::from_iter`: collects the characters in order.
#[verifier::external_body]
pub fn chars_to_string(v: &Vec<char>) -> (r: String)
    ensures
        r@ == v@,
{
    String::from_iter(v.iter().copied())
}

/// Appends the characters of a literal to `out`.
pub fn push_lit(lit: &str, out: &mut Vec<char>)
    ensures
        final(out)@ == old(out)@ + lit@,
{
    let n = lit.unicode_len();
    let mut i: usize = 0;
    proof {
        assert(old(out)@ + lit@.subrange(0, 0) =~= old(out)@);
    }
    while i < n
        invariant
            i <= n,
            n == lit@.len(),
            out@ == old(out)@ + lit@.subrange(0, i as int),
        decreases n - i,
    {
        let c = lit.get_char(i);
        out.push(c);
        proof {
            assert(lit@.subrange(0, i + 1) =~= lit@.subrange(0, i as int).push(lit@[i as int]));
            assert(old(out)@ + lit@.subrange(0, i as int).push(lit@[i as int]) =~= (old(out)@
                + lit@.subrange(0, i as int)).push(lit@[i as int]));
        }
        i += 1;
    }
    proof {
        assert(lit@.subrange(0, lit@.len() as int) =~= lit@);
    }
}

/// Matches a literal at position `i`; on success returns the position just
/// after it.
pub fn parse_lit(s: &Vec<char>, i: usize, lit: &str) -> (r: Option<usize>)
    requires
        i <= s@.len(),
    ensures
        match r {
            Some(j) => j == i + lit@.len() && j <= s@.len() && s@.subrange(i as int, j as int)
                == lit@,
            None => !(i + lit@.len() <= s@.len() && s@.subrange(i as int, i + lit@.len()) == lit@),
        },
{
    let n = lit.unicode_len();
    if n > s.len() - i {
        proof {
            if i + lit@.len() <= s@.len() {
                assert(false);
            }
        }
        return None;
    }
    let mut k: usize = 0;
    while k < n
        invariant
            k <= n,
            n == lit@.len(),
            i + n <= s@.len(),
            i + n <= usize::MAX,
            forall|q: int| 0 <= q < k ==> s@[i + q] == #[trigger] lit@[q],
        decreases n - k,
    {
        let c = lit.get_char(k);
        if s[i + k] != c {
            proof {
                if s@.subrange(i as int, i + lit@.len()) == lit@ {
                    assert(s@.subrange(i as int, i + lit@.len())[k as int] == s@[i + k]);
                    assert(false);
                }
            }
            return None;
        }
        k += 1;
    }
    proof {
        assert(s@.subrange(i as int, i + lit@.len()) =~= lit@);
    }
    Some(i + n)
}

/// Splits a known two-part segment of a text into its parts.
pub proof fn lemma_seg(s: Seq<char>, i: int, a: Seq<char>, b: Seq<char>)
    requires
        0 <= i,
        i + a.len() + b.len() <= s.len(),
        s.subrange(i, i + a.len() + b.len()) == a + b,
    ensures
        s.subrange(i, i + a.len()) == a,
        s.subrange(i + a.len(), i + a.len() + b.len()) == b,
{
    let w = s.subrange(i, i + a.len() + b.len());
    assert forall|k: int| 0 <= k < a.len() implies #[trigger] s.subrange(i, i + a.len())[k]
        == a[k] by {
        assert(s.subrange(i, i + a.len())[k] == s[i + k]);
        assert(w[k] == s[i + k]);
        assert(w[k] == (a + b)[k]);
    }
    assert(s.subrange(i, i + a.len()) =~= a);
    assert forall|k: int| 0 <= k < b.len() implies #[trigger] s.subrange(
        i + a.len(),
        i + a.len() + b.len(),
    )[k] == b[k] by {
        assert(s.subrange(i + a.len(), i + a.len() + b.len())[k] == s[i + a.len() + k]);
        assert(w[a.len() + k] == s[i + a.len() + k]);
        assert(w[a.len() + k] == (a + b)[a.len() + k]);
    }
    assert(s.subrange(i + a.len(), i + a.len() + b.len()) =~= b);
}

/// Joins two adjacent known segments of a text.
pub proof fn lemma_seg_join(s: Seq<char>, i: int, a: Seq<char>, b: Seq<char>)
    requires
        0 <= i,
        i + a.len() + b.len() <= s.len(),
        s.subrange(i, i + a.len()) == a,
        s.subrange(i + a.len(), i + a.len() + b.len()) == b,
    ensures
        s.subrange(i, i + a.len() + b.len()) == a + b,
{
    assert forall|k: int| 0 <= k < a.len() + b.len() implies #[trigger] s.subrange(
        i,
        i + a.len() + b.len(),
    )[k] == (a + b)[k] by {
        assert(s.subrange(i, i + a.len() + b.len())[k] == s[i + k]);
        if k < a.len() {
            assert(s.subrange(i, i + a.len())[k] == s[i + k]);
        } else {
            assert(s.subrange(i + a.len(), i + a.len() + b.len())[k - a.len()] == s[i + k]);
        }
    }
    assert(s.subrange(i, i + a.len() + b.len()) =~= a + b);
}

} // verus!
