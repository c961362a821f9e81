//! Decimal numbers as the line protocol writes them: unsigned and signed
//! 64-bit integers, and the literals that std's float parser accepts.
use vstd::prelude::*;

verus! {

pub open spec fn is_digit(c: char) -> bool {
    '0' <= c && c <= '9'
}

pub open spec fn digit_value(c: char) -> nat {
    (c as u32 - '0' as u32) as nat
}

pub open spec fn digit_char(d: nat) -> char {
    ((d + '0' as u32) as u32) as char
}

pub open spec fn all_digits(s: Seq<char>) -> bool {
    forall|i: int| 0 <= i < s.len() ==> is_digit(#[trigger] s[i])
}

/// The number that a string of decimal digits denotes.
pub open spec fn decimal_value(s: Seq<char>) -> nat
    decreases s.len(),
{
    if s.len() == 0 {
        0
    } else {
        decimal_value(s.drop_last()) * 10 + digit_value(s.last())
    }
}

/// The decimal digits of `n`, without leading zeros.
pub open spec fn decimal_digits(n: nat) -> Seq<char>
    decreases n,
{
    if n < 10 {
        seq![digit_char(n)]
    } else {
        decimal_digits(n / 10).push(digit_char(n % 10))
    }
}

/// What `u64::from_str` gives on a string of digits: one digit at least, and
/// a value that fits.
pub open spec fn parse_u64_spec(s: Seq<char>) -> Option<u64> {
    if s.len() > 0 && all_digits(s) && decimal_value(s) <= u64::MAX {
        Some(decimal_value(s) as u64)
    } else {
        None
    }
}

pub open spec fn is_sign(c: char) -> bool {
    c == '+' || c == '-'
}

/// What `i64::from_str` gives: an optional sign, one digit at least, and a
/// value that fits.
pub open spec fn parse_i64_spec(s: Seq<char>) -> Option<i64> {
    let signed = s.len() > 0 && is_sign(s[0]);
    let digits = if signed { s.drop_first() } else { s };
    let value: int = if signed && s[0] == '-' { -decimal_value(digits) } else { decimal_value(digits) as int };
    if digits.len() > 0 && all_digits(digits) && i64::MIN <= value <= i64::MAX {
        Some(value as i64)
    } else {
        None
    }
}

/// The decimal text of a signed integer.
pub open spec fn int_text(n: i64) -> Seq<char> {
    if n < 0 {
        seq!['-'] + decimal_digits((-n) as nat)
    } else {
        decimal_digits(n as nat)
    }
}

/// `c` is the letter `w`, in lower or upper case (`w` is a lowercase ASCII letter).
pub open spec fn same_letter(c: char, w: char) -> bool {
    c == w || c as u32 + 32 == w as u32
}

/// `s` spells `word` in any case.
pub open spec fn spells(s: Seq<char>, word: Seq<char>) -> bool {
    s.len() == word.len() && forall|i: int| 0 <= i < s.len() ==> same_letter(#[trigger] s[i], word[i])
}

/// Digits with at most one point, and one digit at least.
pub open spec fn is_mantissa(m: Seq<char>) -> bool {
    &&& m.len() > 0
    &&& forall|i: int| 0 <= i < m.len() ==> is_digit(#[trigger] m[i]) || m[i] == '.'
    &&& forall|i: int, k: int| 0 <= i < k < m.len() && #[trigger] m[i] == '.' ==> #[trigger] m[k] != '.'
    &&& !(m.len() == 1 && m[0] == '.')
}

pub open spec fn is_exp_mark(c: char) -> bool {
    c == 'e' || c == 'E'
}

/// Empty, or `e` with an optional sign and one digit at least.
pub open spec fn is_exponent(x: Seq<char>) -> bool {
    ||| x.len() == 0
    ||| x.len() >= 2 && is_exp_mark(x[0]) && !is_sign(x[1]) && all_digits(x.skip(1))
    ||| x.len() >= 3 && is_exp_mark(x[0]) && is_sign(x[1]) && all_digits(x.skip(2))
}

pub open spec fn is_number(b: Seq<char>) -> bool {
    exists|j: int| 0 <= j <= b.len() && is_mantissa(#[trigger] b.take(j)) && is_exponent(b.skip(j))
}

/// The grammar that std documents for `f64::from_str`: an optional sign, then
/// `inf`, `infinity` or `nan` in any case, or a mantissa with an optional
/// exponent.
pub open spec fn is_float_literal(s: Seq<char>) -> bool {
    let body = if s.len() > 0 && is_sign(s[0]) { s.drop_first() } else { s };
    ||| spells(body, seq!['i', 'n', 'f'])
    ||| spells(body, seq!['i', 'n', 'f', 'i', 'n', 'i', 't', 'y'])
    ||| spells(body, seq!['n', 'a', 'n'])
    ||| is_number(body)
}

/// The boolean that a field value token names, if any.
pub open spec fn bool_literal(s: Seq<char>) -> Option<bool> {
    if s == seq!['t'] || s == seq!['T'] || s == seq!['t', 'r', 'u', 'e'] || s == seq!['T', 'r', 'u', 'e']
        || s == seq!['T', 'R', 'U', 'E'] {
        Some(true)
    } else if s == seq!['f'] || s == seq!['F'] || s == seq!['f', 'a', 'l', 's', 'e'] || s == seq![
        'F',
        'a',
        'l',
        's',
        'e',
    ] || s == seq!['F', 'A', 'L', 'S', 'E'] {
        Some(false)
    } else {
        None
    }
}

proof fn lemma_decimal_value_prefix(s: Seq<char>, i: int, j: int)
    requires
        0 <= i <= j <= s.len(),
    ensures
        decimal_value(s.take(i)) <= decimal_value(s.take(j)),
    decreases j - i,
{
    if i < j {
        lemma_decimal_value_prefix(s, i, j - 1);
        assert(s.take(j).drop_last() =~= s.take(j - 1));
    }
}

/// Parses `s[lo..hi]` as an unsigned decimal number.
pub fn parse_u64_range(s: &Vec<char>, lo: usize, hi: usize) -> (r: Option<u64>)
    requires
        lo <= hi <= s@.len(),
    ensures
        r == parse_u64_spec(s@.subrange(lo as int, hi as int)),
{
    let ghost t = s@.subrange(lo as int, hi as int);
    if lo == hi {
        return None;
    }
    let mut v: u64 = 0;
    let mut i: usize = lo;
    while i < hi
        invariant
            lo <= i <= hi <= s@.len(),
            t == s@.subrange(lo as int, hi as int),
            all_digits(t.take(i - lo)),
            v == decimal_value(t.take(i - lo)),
        decreases hi - i,
    {
        let c = s[i];
        assert(t.take(i - lo + 1).drop_last() =~= t.take(i - lo));
        if !('0' <= c && c <= '9') {
            assert(t[i - lo] == c);
            return None;
        }
        let d = (c as u32 - '0' as u32) as u64;
        let next = match v.checked_mul(10) {
            Some(x) => x.checked_add(d),
            None => None,
        };
        match next {
            Some(n) => {
                v = n;
            },
            None => {
                proof {
                    lemma_decimal_value_prefix(t, i - lo + 1, t.len() as int);
                    assert(t.take(t.len() as int) =~= t);
                }
                return None;
            },
        }
        i = i + 1;
        assert(all_digits(t.take(i - lo)));
    }
    assert(t.take(hi - lo) =~= t);
    Some(v)
}

/// Parses `s` as a signed decimal number, as `i64::from_str` does.
pub fn parse_i64(s: &Vec<char>) -> (r: Option<i64>)
    ensures
        r == parse_i64_spec(s@),
{
    let signed = s.len() > 0 && (s[0] == '+' || s[0] == '-');
    let start: usize = if signed { 1 } else { 0 };
    let negative = signed && s[0] == '-';
    proof {
        let digits = if signed { s@.drop_first() } else { s@ };
        assert(s@.subrange(start as int, s@.len() as int) =~= digits);
    }
    match parse_u64_range(s, start, s.len()) {
        None => None,
        Some(m) => {
            if negative {
                if m <= 9223372036854775807 {
                    Some(-(m as i64))
                } else if m == 9223372036854775808 {
                    Some(i64::MIN)
                } else {
                    None
                }
            } else if m <= 9223372036854775807 {
                Some(m as i64)
            } else {
                None
            }
        },
    }
}

proof fn lemma_digit_char(d: nat)
    requires
        d < 10,
    ensures
        is_digit(digit_char(d)),
        digit_value(digit_char(d)) == d,
{
    assert(((d + '0' as u32) as u32) < 0xD800);
    assert((((d + '0' as u32) as u32) as char) as u32 == (d + '0' as u32) as u32);
}

pub proof fn lemma_decimal_digits(n: nat)
    ensures
        decimal_digits(n).len() > 0,
        all_digits(decimal_digits(n)),
        decimal_value(decimal_digits(n)) == n,
    decreases n,
{
    if n >= 10 {
        lemma_decimal_digits(n / 10);
        lemma_digit_char(n % 10);
        let d = decimal_digits(n);
        assert(d.drop_last() =~= decimal_digits(n / 10));
        assert(d.last() == digit_char(n % 10));
        assert(n == (n / 10) * 10 + n % 10);
        assert(decimal_value(d) == decimal_value(d.drop_last()) * 10 + digit_value(d.last()));
        assert(decimal_value(d) == n);
    } else {
        lemma_digit_char(n);
        let d = decimal_digits(n);
        assert(d.drop_last() =~= Seq::<char>::empty());
        assert(decimal_value(d.drop_last()) == 0);
        assert(d.last() == digit_char(n));
    }
}

/// Reading back the digits of `n` gives `n`.
pub proof fn lemma_parse_u64_digits(n: u64)
    ensures
        parse_u64_spec(decimal_digits(n as nat)) == Some(n),
{
    lemma_decimal_digits(n as nat);
}

/// Reading back the text of `n` gives `n`.
pub proof fn lemma_parse_i64_text(n: i64)
    ensures
        parse_i64_spec(int_text(n)) == Some(n),
        int_text(n).len() > 0,
        forall|i: int| 0 <= i < int_text(n).len() ==> is_digit(#[trigger] int_text(n)[i]) || int_text(n)[i] == '-',
{
    if n < 0 {
        lemma_decimal_digits((-n) as nat);
        assert((seq!['-'] + decimal_digits((-n) as nat)).drop_first() =~= decimal_digits((-n) as nat));
        assert forall|i: int| 0 <= i < int_text(n).len() implies is_digit(#[trigger] int_text(n)[i]) || int_text(n)[i] == '-' by {
            if i > 0 {
                assert(int_text(n)[i] == decimal_digits((-n) as nat)[i - 1]);
            }
        }
    } else {
        lemma_decimal_digits(n as nat);
    }
}

/// Appends the decimal digits of `n`.
pub fn push_decimal(out: &mut Vec<char>, n: u64)
    ensures
        final(out)@ == old(out)@ + decimal_digits(n as nat),
    decreases n,
{
    if n >= 10 {
        push_decimal(out, n / 10);
    }
    let d = (n % 10) as u32;
    proof {
        assert(d < 10);
    }
    out.push(char_of_digit(d));
    proof {
        if n >= 10 {
            assert(decimal_digits(n as nat) == decimal_digits((n / 10) as nat).push(digit_char((n % 10) as nat)));
        }
    }
}

fn char_of_digit(d: u32) -> (c: char)
    requires
        d < 10,
    ensures
        c == digit_char(d as nat),
{
    match d {
        0 => '0',
        1 => '1',
        2 => '2',
        3 => '3',
        4 => '4',
        5 => '5',
        6 => '6',
        7 => '7',
        8 => '8',
        _ => '9',
    }
}

/// Appends the decimal text of `n`.
pub fn push_int(out: &mut Vec<char>, n: i64)
    ensures
        final(out)@ == old(out)@ + int_text(n),
{
    if n < 0 {
        out.push('-');
        let m: u64 = if n == i64::MIN { 9223372036854775808 } else { (-n) as u64 };
        push_decimal(out, m);
    } else {
        push_decimal(out, n as u64);
    }
}

fn same_letter_exec(c: char, w: char) -> (r: bool)
    requires
        'a' <= w <= 'z',
    ensures
        r == same_letter(c, w),
{
    c == w || (c as u32) == (w as u32) - 32
}

/// Whether `s[lo..]` spells the lowercase word `w` in any case.
fn spells_from(s: &Vec<char>, lo: usize, w: &Vec<char>) -> (r: bool)
    requires
        lo <= s@.len(),
        forall|i: int| 0 <= i < w@.len() ==> 'a' <= #[trigger] w@[i] <= 'z',
    ensures
        r == spells(s@.skip(lo as int), w@),
{
    if s.len() - lo != w.len() {
        return false;
    }
    let mut i: usize = 0;
    while i < w.len()
        invariant
            lo <= s@.len(),
            s.len() - lo == w.len(),
            forall|k: int| 0 <= k < w@.len() ==> 'a' <= #[trigger] w@[k] <= 'z',
            i <= w@.len(),
            forall|k: int| 0 <= k < i ==> same_letter(#[trigger] s@.skip(lo as int)[k], w@[k]),
        decreases w@.len() - i,
    {
        if !same_letter_exec(s[lo + i], w[i]) {
            assert(s@.skip(lo as int)[i as int] == s@[lo + i]);
            return false;
        }
        i = i + 1;
    }
    true
}

/// Whether `s[lo..hi]` is a mantissa.
fn mantissa_ok(s: &Vec<char>, lo: usize, hi: usize) -> (r: bool)
    requires
        lo <= hi <= s@.len(),
    ensures
        r == is_mantissa(s@.subrange(lo as int, hi as int)),
{
    let ghost m = s@.subrange(lo as int, hi as int);
    if lo == hi {
        return false;
    }
    if hi - lo == 1 && s[lo] == '.' {
        return false;
    }
    let mut seen_dot = false;
    let mut i: usize = lo;
    while i < hi
        invariant
            lo <= i <= hi <= s@.len(),
            m == s@.subrange(lo as int, hi as int),
            forall|k: int| 0 <= k < i - lo ==> is_digit(#[trigger] m[k]) || m[k] == '.',
            forall|a: int, b: int| 0 <= a < b < i - lo && #[trigger] m[a] == '.' ==> #[trigger] m[b] != '.',
            seen_dot <==> exists|k: int| 0 <= k < i - lo && #[trigger] m[k] == '.',
        decreases hi - i,
    {
        let c = s[i];
        assert(m[i - lo] == c);
        if c == '.' {
            if seen_dot {
                return false;
            }
            seen_dot = true;
        } else if !('0' <= c && c <= '9') {
            return false;
        }
        i = i + 1;
    }
    true
}

/// Whether `s[lo..]` is an exponent.
fn exponent_ok(s: &Vec<char>, lo: usize) -> (r: bool)
    requires
        lo <= s@.len(),
    ensures
        r == is_exponent(s@.skip(lo as int)),
{
    let ghost x = s@.skip(lo as int);
    let n = s.len();
    if lo == n {
        return true;
    }
    if !(s[lo] == 'e' || s[lo] == 'E') || n - lo < 2 {
        return false;
    }
    let start: usize = if s[lo + 1] == '+' || s[lo + 1] == '-' { lo + 2 } else { lo + 1 };
    if start == n {
        return false;
    }
    let r = parse_digits_only(s, start);
    proof {
        assert(s@.subrange(start as int, n as int) =~= x.skip(start - lo));
    }
    r
}

/// Whether `s[lo..]` holds digits only.
fn parse_digits_only(s: &Vec<char>, lo: usize) -> (r: bool)
    requires
        lo <= s@.len(),
    ensures
        r == all_digits(s@.subrange(lo as int, s@.len() as int)),
{
    let mut i: usize = lo;
    while i < s.len()
        invariant
            lo <= i <= s@.len(),
            forall|k: int| lo <= k < i ==> is_digit(#[trigger] s@[k]),
        decreases s@.len() - i,
    {
        if !('0' <= s[i] && s[i] <= '9') {
            assert(s@.subrange(lo as int, s@.len() as int)[i - lo] == s@[i as int]);
            return false;
        }
        i = i + 1;
    }
    true
}

proof fn lemma_number_split(b: Seq<char>, j: int)
    requires
        0 <= j <= b.len(),
        forall|k: int| 0 <= k < j ==> !is_exp_mark(#[trigger] b[k]),
        j < b.len() ==> is_exp_mark(b[j]),
    ensures
        is_number(b) <==> is_mantissa(b.take(j)) && is_exponent(b.skip(j)),
{
    if is_number(b) {
        let j2 = choose|j2: int| 0 <= j2 <= b.len() && is_mantissa(#[trigger] b.take(j2)) && is_exponent(b.skip(j2));
        if j2 < j {
            assert(b.skip(j2)[0] == b[j2]);
            assert(!is_exp_mark(b[j2]));
        } else if j2 > j {
            assert(b.take(j2)[j] == b[j]);
            assert(is_digit(b.take(j2)[j]) || b.take(j2)[j] == '.');
        }
    }
}

/// Whether `s` is a literal that std's float parser accepts.
pub fn float_literal_ok(s: &Vec<char>) -> (r: bool)
    ensures
        r == is_float_literal(s@),
{
    let n = s.len();
    let lo: usize = if n > 0 && (s[0] == '+' || s[0] == '-') { 1 } else { 0 };
    let ghost body = if s@.len() > 0 && is_sign(s@[0]) { s@.drop_first() } else { s@ };
    assert(body =~= s@.skip(lo as int));
    if spells_from(s, lo, &vec!['i', 'n', 'f']) || spells_from(s, lo, &vec!['i', 'n', 'f', 'i', 'n', 'i', 't', 'y'])
        || spells_from(s, lo, &vec!['n', 'a', 'n']) {
        return true;
    }
    let mut j: usize = lo;
    while j < n && !(s[j] == 'e' || s[j] == 'E')
        invariant
            lo <= j <= n == s@.len(),
            forall|k: int| lo <= k < j ==> !is_exp_mark(#[trigger] s@[k]),
        decreases n - j,
    {
        j = j + 1;
    }
    let r = mantissa_ok(s, lo, j) && exponent_ok(s, j);
    proof {
        assert forall|k: int| 0 <= k < j - lo implies !is_exp_mark(#[trigger] body[k]) by {
            assert(body[k] == s@[lo + k]);
        }
        lemma_number_split(body, j - lo);
        assert(body.take(j - lo) =~= s@.subrange(lo as int, j as int));
        assert(body.skip(j - lo) =~= s@.skip(j as int));
    }
    r
}

/// The boolean that a field value token names, if any.
pub fn bool_literal_exec(s: &Vec<char>) -> (r: Option<bool>)
    ensures
        r == bool_literal(s@),
{
    let n = s.len();
    let t = n == 1 && (s[0] == 't' || s[0] == 'T') || n == 4 && (s[0] == 't' || s[0] == 'T') && (
    s[1] == 'r' && s[2] == 'u' && s[3] == 'e' || s[0] == 'T' && s[1] == 'R' && s[2] == 'U' && s[3] == 'E');
    let f = n == 1 && (s[0] == 'f' || s[0] == 'F') || n == 5 && (s[0] == 'f' || s[0] == 'F') && (
    s[1] == 'a' && s[2] == 'l' && s[3] == 's' && s[4] == 'e' || s[0] == 'F' && s[1] == 'A' && s[2] == 'L'
        && s[3] == 'S' && s[4] == 'E');
    proof {
        if n == 1 {
            assert(s@ =~= seq![s@[0]]);
        } else if n == 4 {
            assert(s@ =~= seq![s@[0], s@[1], s@[2], s@[3]]);
        } else if n == 5 {
            assert(s@ =~= seq![s@[0], s@[1], s@[2], s@[3], s@[4]]);
        }
    }
    if t {
        Some(true)
    } else if f {
        Some(false)
    } else {
        None
    }
}

} // verus!
