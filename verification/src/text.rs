//! Text helpers: character sequences, decimal formatting and parsing,
//! whitespace trimming.

use vstd::prelude::*;
use crate::rat::{Rat, reduce, fits_i64};

verus! {

/// The characters of a string slice.
pub fn chars_of(s: &str) -> (r: Vec<char>)
    ensures
        r@ == s@,
{
    let n = s.unicode_len();
    let mut r: Vec<char> = Vec::new();
    let mut i: usize = 0;
    while i < n
        invariant
            n == s@.len(),
            i <= n,
            r@ == s@.subrange(0, i as int),
        decreases n - i,
    {
        r.push(s.get_char(i));
        i = i + 1;
    }
    r
}

/// Collects characters into a `String` (`String::from_iter`).
#[verifier::external_body]
pub fn string_of(v: &Vec<char>) -> (s: String)
    ensures
        s@ == v@,
{
    String::from_iter(v.iter())
}

/// Appends the characters of `s`.
pub fn push_str(v: &mut Vec<char>, s: &str)
    ensures
        final(v)@ == old(v)@ + s@,
{
    let n = s.unicode_len();
    let ghost start = v@;
    let mut i: usize = 0;
    while i < n
        invariant
            n == s@.len(),
            i <= n,
            v@ == start + s@.subrange(0, i as int),
        decreases n - i,
    {
        v.push(s.get_char(i));
        i = i + 1;
        proof {
            assert(s@.subrange(0, i as int) =~= s@.subrange(0, i - 1).push(s@[i - 1]));
        }
    }
    proof {
        assert(s@.subrange(0, n as int) =~= s@);
    }
}

/// Appends the characters of `w`.
pub fn push_chars(v: &mut Vec<char>, w: &Vec<char>)
    ensures
        final(v)@ == old(v)@ + w@,
{
    let ghost start = v@;
    let mut i: usize = 0;
    while i < w.len()
        invariant
            i <= w@.len(),
            v@ == start + w@.subrange(0, i as int),
        decreases w.len() - i,
    {
        v.push(w[i]);
        i = i + 1;
        proof {
            assert(w@.subrange(0, i as int) =~= w@.subrange(0, i - 1).push(w@[i - 1]));
        }
    }
    proof {
        assert(w@.subrange(0, w@.len() as int) =~= w@);
    }
}

/// Whether the characters equal the string slice.
pub fn chars_eq(v: &Vec<char>, s: &str) -> (b: bool)
    ensures
        b == (v@ == s@),
{
    let n = s.unicode_len();
    if v.len() != n {
        return false;
    }
    let mut i: usize = 0;
    while i < n
        invariant
            n == s@.len(),
            n == v@.len(),
            i <= n,
            forall|k: int| 0 <= k < i ==> v@[k] == s@[k],
        decreases n - i,
    {
        if v[i] != s.get_char(i) {
            return false;
        }
        i = i + 1;
    }
    proof {
        assert(v@ =~= s@);
    }
    true
}

/// Whether two character vectors are equal.
pub fn chars_equal(a: &Vec<char>, b: &Vec<char>) -> (r: bool)
    ensures
        r == (a@ == b@),
{
    if a.len() != b.len() {
        return false;
    }
    let mut i: usize = 0;
    while i < a.len()
        invariant
            a@.len() == b@.len(),
            i <= a@.len(),
            forall|k: int| 0 <= k < i ==> a@[k] == b@[k],
        decreases a.len() - i,
    {
        if a[i] != b[i] {
            return false;
        }
        i = i + 1;
    }
    proof {
        assert(a@ =~= b@);
    }
    true
}

/// A copy of the characters.
pub fn copy_chars(v: &Vec<char>) -> (r: Vec<char>)
    ensures
        r@ == v@,
{
    let mut r: Vec<char> = Vec::new();
    push_chars(&mut r, v);
    r
}

/// `char::is_whitespace`: the Unicode White_Space property.
pub open spec fn is_space(c: char) -> bool {
    ||| c == '\t' || c == '\n' || c == '\u{0B}' || c == '\u{0C}' || c == '\r' || c == ' '
    ||| c == '\u{85}' || c == '\u{A0}' || c == '\u{1680}'
    ||| ('\u{2000}' <= c && c <= '\u{200A}')
    ||| c == '\u{2028}' || c == '\u{2029}' || c == '\u{202F}' || c == '\u{205F}' || c == '\u{3000}'
}

pub fn is_space_char(c: char) -> (b: bool)
    ensures
        b == is_space(c),
{
    c == '\t' || c == '\n' || c == '\u{0B}' || c == '\u{0C}' || c == '\r' || c == ' '
        || c == '\u{85}' || c == '\u{A0}' || c == '\u{1680}'
        || ('\u{2000}' <= c && c <= '\u{200A}')
        || c == '\u{2028}' || c == '\u{2029}' || c == '\u{202F}' || c == '\u{205F}' || c == '\u{3000}'
}

/// Leading whitespace count.
pub open spec fn lead_ws(s: Seq<char>) -> nat
    decreases s.len(),
{
    if s.len() > 0 && is_space(s[0]) {
        1 + lead_ws(s.drop_first())
    } else {
        0
    }
}

/// Trailing whitespace count.
pub open spec fn trail_ws(s: Seq<char>) -> nat
    decreases s.len(),
{
    if s.len() > 0 && is_space(s.last()) {
        1 + trail_ws(s.drop_last())
    } else {
        0
    }
}

/// `str::trim`: the text without leading and trailing whitespace.
pub open spec fn trim(s: Seq<char>) -> Seq<char> {
    let a = lead_ws(s);
    let rest = s.subrange(a as int, s.len() as int);
    rest.subrange(0, rest.len() - trail_ws(rest))
}

proof fn lemma_lead_ws(s: Seq<char>, i: int)
    requires
        0 <= i <= s.len(),
        forall|k: int| 0 <= k < i ==> is_space(s[k]),
        i == s.len() || !is_space(s[i]),
    ensures
        lead_ws(s) == i,
    decreases i,
{
    if i > 0 {
        lemma_lead_ws(s.drop_first(), i - 1);
    }
}

proof fn lemma_trail_ws(s: Seq<char>, j: int)
    requires
        0 <= j <= s.len(),
        forall|k: int| j <= k < s.len() ==> is_space(s[k]),
        j == 0 || !is_space(s[j - 1]),
    ensures
        trail_ws(s) == s.len() - j,
    decreases s.len() - j,
{
    if j < s.len() {
        lemma_trail_ws(s.drop_last(), j);
    }
}

pub proof fn lemma_trail_bound(s: Seq<char>)
    ensures
        trail_ws(s) <= s.len(),
    decreases s.len(),
{
    if s.len() > 0 && is_space(s.last()) {
        lemma_trail_bound(s.drop_last());
    }
}

/// Trims leading and trailing whitespace.
pub fn trimmed(v: &Vec<char>) -> (r: Vec<char>)
    ensures
        r@ == trim(v@),
{
    let n = v.len();
    let mut a: usize = 0;
    while a < n && is_space_char(v[a])
        invariant
            n == v@.len(),
            a <= n,
            forall|k: int| 0 <= k < a ==> is_space(v@[k]),
        decreases n - a,
    {
        a = a + 1;
    }
    let mut b: usize = n;
    while b > a && is_space_char(v[b - 1])
        invariant
            n == v@.len(),
            a <= b <= n,
            forall|k: int| b <= k < n ==> is_space(v@[k]),
        decreases b,
    {
        b = b - 1;
    }
    let mut r: Vec<char> = Vec::new();
    let mut i: usize = a;
    while i < b
        invariant
            a <= i <= b,
            b <= n,
            n == v@.len(),
            r@ == v@.subrange(a as int, i as int),
        decreases b - i,
    {
        r.push(v[i]);
        i = i + 1;
    }
    proof {
        lemma_lead_ws(v@, a as int);
        let rest = v@.subrange(a as int, n as int);
        if a < n {
            assert(!is_space(v@[a as int]));
        }
        lemma_trail_ws(rest, (b - a) as int);
        assert(r@ =~= trim(v@));
    }
    r
}

pub open spec fn is_digit(c: char) -> bool {
    '0' <= c && c <= '9'
}

pub open spec fn digit_value(c: char) -> int {
    (c as int) - ('0' as int)
}

/// Value of a string of decimal digits (most significant first).
pub open spec fn digits_value(s: Seq<char>) -> int
    decreases s.len(),
{
    if s.len() == 0 {
        0
    } else {
        digits_value(s.drop_last()) * 10 + digit_value(s.last())
    }
}

pub open spec fn all_digits(s: Seq<char>) -> bool {
    forall|i: int| 0 <= i < s.len() ==> is_digit(#[trigger] s[i])
}

/// `str::parse::<i64>`: an optional sign and at least one decimal digit,
/// and a value in range.
pub open spec fn parse_i64_spec(s: Seq<char>) -> Option<int> {
    let (neg, body) = if s.len() > 0 && (s[0] == '+' || s[0] == '-') {
        (s[0] == '-', s.drop_first())
    } else {
        (false, s)
    };
    if body.len() > 0 && all_digits(body) {
        let v = if neg { -digits_value(body) } else { digits_value(body) };
        if fits_i64(v) { Some(v) } else { None }
    } else {
        None
    }
}

/// `str::parse::<u32>`: an optional `+` and at least one decimal digit, and
/// a value in range.
pub open spec fn parse_u32_spec(s: Seq<char>) -> Option<int> {
    let body = if s.len() > 0 && s[0] == '+' { s.drop_first() } else { s };
    if body.len() > 0 && all_digits(body) && digits_value(body) <= u32::MAX {
        Some(digits_value(body))
    } else {
        None
    }
}

proof fn lemma_digits_nonneg(s: Seq<char>)
    requires
        all_digits(s),
    ensures
        digits_value(s) >= 0,
    decreases s.len(),
{
    if s.len() > 0 {
        lemma_digits_nonneg(s.drop_last());
    }
}

proof fn lemma_digits_monotone(s: Seq<char>, i: int)
    requires
        all_digits(s),
        0 <= i <= s.len(),
    ensures
        digits_value(s.subrange(0, i)) <= digits_value(s),
    decreases s.len() - i,
{
    if i < s.len() {
        let t = s.subrange(0, i + 1);
        assert(t.drop_last() =~= s.subrange(0, i));
        lemma_digits_nonneg(s.subrange(0, i));
        assert(all_digits(t));
        lemma_digits_monotone(s, i + 1);
    } else {
        assert(s.subrange(0, i) =~= s);
    }
}

/// Accumulates decimal digits `body[from..]`, giving up (`None`) as soon as
/// the value exceeds `limit`.
fn digits_upto(body: &Vec<char>, from: usize, limit: u128) -> (r: Option<u128>)
    requires
        from <= body@.len(),
        all_digits(body@.subrange(from as int, body@.len() as int)),
        limit <= u128::MAX / 10 - 10,
    ensures
        ({
            let d = body@.subrange(from as int, body@.len() as int);
            match r {
                Some(v) => v == digits_value(d) && v <= limit,
                None => digits_value(d) > limit,
            }
        }),
{
    let ghost d = body@.subrange(from as int, body@.len() as int);
    let mut v: u128 = 0;
    let mut i: usize = from;
    proof {
        assert(d.subrange(0, 0) =~= Seq::<char>::empty());
    }
    while i < body.len()
        invariant
            from <= i <= body@.len(),
            d == body@.subrange(from as int, body@.len() as int),
            all_digits(d),
            v == digits_value(d.subrange(0, i - from)),
            v <= limit,
            limit <= u128::MAX / 10 - 10,
        decreases body.len() - i,
    {
        let c = body[i];
        proof {
            assert(d[i - from] == c);
            assert(is_digit(d[i - from]));
            assert(d.subrange(0, i - from + 1).drop_last() =~= d.subrange(0, i - from));
        }
        let dv = (c as u32 - '0' as u32) as u128;
        v = v * 10 + dv;
        i = i + 1;
        if v > limit {
            proof {
                lemma_digits_monotone(d, i - from);
            }
            return None;
        }
    }
    proof {
        assert(d.subrange(0, body@.len() - from) =~= d);
    }
    Some(v)
}

/// Parses a signed decimal integer the way `str::parse::<i64>` does.
pub fn parse_i64(s: &Vec<char>) -> (r: Option<i64>)
    ensures
        r matches Some(v) ==> parse_i64_spec(s@) == Some(v as int),
        r is None ==> parse_i64_spec(s@) is None,
{
    let n = s.len();
    let mut from: usize = 0;
    let mut neg = false;
    if n > 0 && (s[0] == '+' || s[0] == '-') {
        neg = s[0] == '-';
        from = 1;
    }
    let ghost body = s@.subrange(from as int, n as int);
    proof {
        if n > 0 && (s@[0] == '+' || s@[0] == '-') {
            assert(s@.drop_first() =~= body);
        } else {
            assert(s@ =~= body);
        }
    }
    if from >= n {
        return None;
    }
    let mut i: usize = from;
    while i < n
        invariant
            from <= i <= n,
            n == s@.len(),
            body == s@.subrange(from as int, n as int),
            (n > 0 && (s@[0] == '+' || s@[0] == '-')) ==> s@.drop_first() == body,
            !(n > 0 && (s@[0] == '+' || s@[0] == '-')) ==> s@ == body,
            forall|k: int| from <= k < i ==> is_digit(s@[k]),
        decreases n - i,
    {
        if !('0' <= s[i] && s[i] <= '9') {
            proof {
                assert(body[i - from] == s@[i as int]);
                assert(!is_digit(body[i - from]));
            }
            return None;
        }
        i = i + 1;
    }
    proof {
        assert forall|k: int| 0 <= k < body.len() implies is_digit(#[trigger] body[k]) by {
            assert(body[k] == s@[k + from]);
        }
    }
    let limit: u128 = 9_223_372_036_854_775_808;
    match digits_upto(s, from, limit) {
        None => None,
        Some(v) => {
            if neg {
                if v == limit {
                    Some(i64::MIN)
                } else {
                    Some(-(v as i64))
                }
            } else if v > i64::MAX as u128 {
                None
            } else {
                Some(v as i64)
            }
        },
    }
}

/// Parses an unsigned decimal integer the way `str::parse::<u32>` does.
pub fn parse_u32(s: &Vec<char>) -> (r: Option<u32>)
    ensures
        r matches Some(v) ==> parse_u32_spec(s@) == Some(v as int),
        r is None ==> parse_u32_spec(s@) is None,
{
    let n = s.len();
    let mut from: usize = 0;
    if n > 0 && s[0] == '+' {
        from = 1;
    }
    let ghost body = s@.subrange(from as int, n as int);
    proof {
        if n > 0 && s@[0] == '+' {
            assert(s@.drop_first() =~= body);
        } else {
            assert(s@ =~= body);
        }
    }
    if from >= n {
        return None;
    }
    let mut i: usize = from;
    while i < n
        invariant
            from <= i <= n,
            n == s@.len(),
            body == s@.subrange(from as int, n as int),
            (n > 0 && s@[0] == '+') ==> s@.drop_first() == body,
            !(n > 0 && s@[0] == '+') ==> s@ == body,
            forall|k: int| from <= k < i ==> is_digit(s@[k]),
        decreases n - i,
    {
        if !('0' <= s[i] && s[i] <= '9') {
            proof {
                assert(body[i - from] == s@[i as int]);
                assert(!is_digit(body[i - from]));
            }
            return None;
        }
        i = i + 1;
    }
    proof {
        assert forall|k: int| 0 <= k < body.len() implies is_digit(#[trigger] body[k]) by {
            assert(body[k] == s@[k + from]);
        }
    }
    match digits_upto(s, from, u32::MAX as u128) {
        None => None,
        Some(v) => Some(v as u32),
    }
}

/// Decimal digits of a natural number.
pub open spec fn nat_digits(n: nat) -> Seq<char>
    decreases n,
{
    if n < 10 {
        seq![(('0' as int) + n) as char]
    } else {
        nat_digits(n / 10).push((('0' as int) + (n % 10)) as char)
    }
}

/// Decimal text of an integer, with a leading `-` when negative.
pub open spec fn decimal(x: int) -> Seq<char> {
    if x < 0 {
        seq!['-'] + nat_digits((-x) as nat)
    } else {
        nat_digits(x as nat)
    }
}

fn nat_text(n: u64) -> (r: Vec<char>)
    ensures
        r@ == nat_digits(n as nat),
    decreases n,
{
    if n < 10 {
        let mut r = Vec::new();
        r.push(char_of_digit(n as u8));
        proof {
            assert(r@ =~= nat_digits(n as nat));
        }
        r
    } else {
        let mut r = nat_text(n / 10);
        r.push(char_of_digit((n % 10) as u8));
        r
    }
}

fn char_of_digit(d: u8) -> (c: char)
    requires
        d < 10,
    ensures
        c == (('0' as int) + d) as char,
{
    if d == 0 { '0' } else if d == 1 { '1' } else if d == 2 { '2' } else if d == 3 { '3' }
    else if d == 4 { '4' } else if d == 5 { '5' } else if d == 6 { '6' } else if d == 7 { '7' }
    else if d == 8 { '8' } else { '9' }
}

/// Decimal text of an unsigned integer (`u64::to_string`).
pub fn u64_text(x: u64) -> (r: Vec<char>)
    ensures
        r@ == decimal(x as int),
{
    nat_text(x)
}

/// Decimal text of a signed integer (`i64::to_string`).
pub fn decimal_text(x: i64) -> (r: Vec<char>)
    ensures
        r@ == decimal(x as int),
{
    if x < 0 {
        let mag: u64 = if x == i64::MIN { 9_223_372_036_854_775_808 } else { (-x) as u64 };
        let mut r = Vec::new();
        r.push('-');
        let d = nat_text(mag);
        push_chars(&mut r, &d);
        r
    } else {
        nat_text(x as u64)
    }
}

/// Decimal text of an unsigned size.
pub fn usize_text(x: usize) -> (r: Vec<char>)
    ensures
        r@ == decimal(x as int),
{
    nat_text(x as u64)
}

} // verus!

verus! {

pub open spec fn pow10(k: nat) -> int
    decreases k,
{
    if k == 0 { 1 } else { 10 * pow10((k - 1) as nat) }
}

/// Position of the first `c` in `s`.
pub open spec fn first_index(s: Seq<char>, c: char, from: int) -> Option<int>
    decreases s.len() - from,
{
    if from < 0 || from >= s.len() {
        None
    } else if s[from] == c {
        Some(from)
    } else {
        first_index(s, c, from + 1)
    }
}

/// A decimal number `[+|-]digits[.digits]` with at least one digit, as the
/// unreduced pair `(numerator, 10^fraction digits)`.
pub open spec fn parse_decimal_spec(s: Seq<char>) -> Option<(int, int)> {
    let (neg, body) = if s.len() > 0 && (s[0] == '+' || s[0] == '-') {
        (s[0] == '-', s.drop_first())
    } else {
        (false, s)
    };
    let (int_part, frac) = match first_index(body, '.', 0) {
        Some(d) => (body.subrange(0, d), body.subrange(d + 1, body.len() as int)),
        None => (body, Seq::<char>::empty()),
    };
    if all_digits(int_part) && all_digits(frac) && int_part.len() + frac.len() > 0 {
        let v = digits_value(int_part + frac);
        Some((if neg { -v } else { v }, pow10(frac.len())))
    } else {
        None
    }
}

proof fn lemma_first_index(s: Seq<char>, c: char, from: int)
    requires
        0 <= from,
    ensures
        first_index(s, c, from) matches Some(d) ==> from <= d < s.len() && s[d] == c
            && forall|k: int| from <= k < d ==> s[k] != c,
        first_index(s, c, from) is None ==> forall|k: int| from <= k < s.len() ==> s[k] != c,
    decreases s.len() - from,
{
    if from < s.len() && s[from] != c {
        lemma_first_index(s, c, from + 1);
    }
}

proof fn lemma_pow10_pos(k: nat)
    ensures
        pow10(k) >= 1,
    decreases k,
{
    if k > 0 {
        lemma_pow10_pos((k - 1) as nat);
    }
}

/// The exact value of a decimal number `[+|-]digits[.digits]` with at most
/// 18 fraction digits whose digits, read as an integer, fit `i64`.
pub open spec fn decimal_rat(s: Seq<char>) -> Option<Rat> {
    match parse_decimal_spec(s) {
        Some(p) => if p.1 <= 1_000_000_000_000_000_000 && -i64::MAX <= p.0 <= i64::MAX {
            Some(Rat::from_pair(reduce(p.0, p.1)))
        } else {
            None
        },
        None => None,
    }
}

/// A character that is not a digit inside the part before the point (or
/// after it) makes the text no decimal number.
proof fn lemma_decimal_bad_char(body: Seq<char>, j: int)
    requires
        0 <= j < body.len(),
        !is_digit(body[j]),
        first_index(body, '.', 0) matches Some(d) ==> d != j,
    ensures
        ({
            let (int_part, frac) = match first_index(body, '.', 0) {
                Some(d) => (body.subrange(0, d), body.subrange(d + 1, body.len() as int)),
                None => (body, Seq::<char>::empty()),
            };
            !(all_digits(int_part) && all_digits(frac))
        }),
{
    lemma_first_index(body, '.', 0);
    match first_index(body, '.', 0) {
        Some(d) => {
            if j < d {
                assert(body.subrange(0, d)[j] == body[j]);
            } else {
                assert(body.subrange(d + 1, body.len() as int)[j - d - 1] == body[j]);
            }
        },
        None => {},
    }
}

proof fn lemma_pow10_big(k: nat)
    requires
        k > 18,
    ensures
        pow10(k) > 1_000_000_000_000_000_000,
{
    lemma_pow10_monotone(19, k);
    reveal_with_fuel(pow10, 20);
}

/// Parses a decimal number to an exact rational (see [`decimal_rat`]).
pub fn parse_decimal(s: &Vec<char>) -> (r: Option<Rat>)
    ensures
        r == decimal_rat(s@),
        r matches Some(q) ==> q.wf(),
{
    let n = s.len();
    let mut from: usize = 0;
    let mut neg = false;
    if n > 0 && (s[0] == '+' || s[0] == '-') {
        neg = s[0] == '-';
        from = 1;
    }
    let ghost body = s@.subrange(from as int, n as int);
    proof {
        if n > 0 && (s@[0] == '+' || s@[0] == '-') {
            assert(s@.drop_first() =~= body);
        } else {
            assert(s@ =~= body);
        }
    }
    // digits before and after the point, gathered into one run
    let mut digits: Vec<char> = Vec::new();
    let mut frac_len: usize = 0;
    let mut seen_dot = false;
    let mut dot: usize = 0;
    let mut i: usize = from;
    while i < n
        invariant
            from <= i <= n,
            n == s@.len(),
            body == s@.subrange(from as int, n as int),
            (if s@.len() > 0 && (s@[0] == '+' || s@[0] == '-') { s@.drop_first() } else { s@ }) == body,
            !seen_dot ==> first_index(body, '.', 0) == first_index(body, '.', (i - from) as int)
                && digits@ == body.subrange(0, i - from) && frac_len == 0
                && all_digits(digits@),
            seen_dot ==> from <= dot < i && first_index(body, '.', 0) == Some((dot - from) as int)
                && digits@ == body.subrange(0, dot - from) + body.subrange(dot - from + 1, i - from)
                && frac_len == i - dot - 1
                && all_digits(body.subrange(0, dot - from))
                && all_digits(body.subrange(dot - from + 1, i - from)),
        decreases n - i,
    {
        let c = s[i];
        proof {
            assert(body[i - from] == c);
            lemma_first_index(body, '.', 0);
        }
        if c == '.' && !seen_dot {
            seen_dot = true;
            dot = i;
            proof {
                assert(body.subrange(dot - from + 1, i + 1 - from) =~= Seq::<char>::empty());
                assert(digits@ + Seq::<char>::empty() =~= digits@);
            }
        } else if '0' <= c && c <= '9' {
            digits.push(c);
            if seen_dot {
                frac_len = frac_len + 1;
            }
            proof {
                if seen_dot {
                    assert(body.subrange(dot - from + 1, i + 1 - from) =~= body.subrange(dot - from + 1, i - from).push(c));
                } else {
                    assert(body.subrange(0, i + 1 - from) =~= body.subrange(0, i - from).push(c));
                }
            }
        } else {
            proof {
                let j = i - from;
                if seen_dot {
                    lemma_first_index(body, '.', 0);
                } else {
                    lemma_first_index(body, '.', j);
                    assert(first_index(body, '.', j) == first_index(body, '.', j + 1));
                    lemma_first_index(body, '.', j + 1);
                }
                lemma_decimal_bad_char(body, j);
            }
            return None;
        }
        i = i + 1;
    }
    proof {
        if !seen_dot {
            assert(body.subrange(0, n - from) =~= body);
            lemma_first_index(body, '.', (n - from) as int);
        } else {
            assert(body.subrange(dot - from + 1, n - from) =~= body.subrange(dot - from + 1, body.len() as int));
        }
    }
    if digits.len() == 0 {
        return None;
    }
    if frac_len > 18 {
        proof {
            lemma_pow10_big(frac_len as nat);
        }
        return None;
    }
    proof {
        if !seen_dot {
            assert(body.subrange(0, n - from) =~= body);
        }
        assert(all_digits(digits@));
    }
    let value = match digits_upto(&digits, 0, 9_223_372_036_854_775_807u128) {
        Some(v) => v,
        None => {
            proof {
                assert(digits@.subrange(0, digits@.len() as int) =~= digits@);
            }
            return None;
        },
    };
    let mut den: i64 = 1;
    let mut k: usize = 0;
    while k < frac_len
        invariant
            k <= frac_len <= 18,
            den == pow10(k as nat),
            1 <= den <= 1_000_000_000_000_000_000,
        decreases frac_len - k,
    {
        proof {
            if k < 18 {
                assert(den <= 100_000_000_000_000_000) by {
                    lemma_pow10_bound(k as nat);
                }
            }
        }
        den = den * 10;
        k = k + 1;
    }
    proof {
        assert(digits@.subrange(0, digits@.len() as int) =~= digits@);
    }
    let num: i64 = if neg { -(value as i64) } else { value as i64 };
    Some(Rat::new(num, den))
}

proof fn lemma_pow10_bound(k: nat)
    requires
        k < 18,
    ensures
        pow10(k) <= 100_000_000_000_000_000,
{
    lemma_pow10_monotone(k, 17);
    reveal_with_fuel(pow10, 18);
}

proof fn lemma_pow10_monotone(a: nat, b: nat)
    requires
        a <= b,
    ensures
        pow10(a) <= pow10(b),
    decreases b,
{
    if a < b {
        lemma_pow10_monotone(a, (b - 1) as nat);
        lemma_pow10_pos((b - 1) as nat);
    }
}

} // verus!

verus! {

/// `a` followed by `b`.
pub fn cat2(a: &str, b: &Vec<char>) -> (r: Vec<char>)
    ensures
        r@ == a@ + b@,
{
    let mut r: Vec<char> = Vec::new();
    push_str(&mut r, a);
    push_chars(&mut r, b);
    r
}

/// `a`, `b`, `c` in turn.
pub fn cat3(a: &str, b: &Vec<char>, c: &str) -> (r: Vec<char>)
    ensures
        r@ == a@ + b@ + c@,
{
    let mut r = cat2(a, b);
    push_str(&mut r, c);
    r
}

/// `a`, `b`, `c`, `d`, `e` in turn.
pub fn cat5(a: &str, b: &Vec<char>, c: &str, d: &Vec<char>, e: &str) -> (r: Vec<char>)
    ensures
        r@ == a@ + b@ + c@ + d@ + e@,
{
    let mut r = cat3(a, b, c);
    push_chars(&mut r, d);
    push_str(&mut r, e);
    r
}

/// `str::parse::<i32>`: as for `i64`, with the value in `i32` range.
pub open spec fn parse_i32_spec(s: Seq<char>) -> Option<int> {
    match parse_i64_spec(s) {
        Some(v) => if i32::MIN <= v <= i32::MAX { Some(v) } else { None },
        None => None,
    }
}

/// Parses a signed decimal integer the way `str::parse::<i32>` does.
pub fn parse_i32(s: &Vec<char>) -> (r: Option<i32>)
    ensures
        r matches Some(v) ==> parse_i32_spec(s@) == Some(v as int),
        r is None ==> parse_i32_spec(s@) is None,
{
    match parse_i64(s) {
        Some(v) => if i32::MIN as i64 <= v && v <= i32::MAX as i64 { Some(v as i32) } else { None },
        None => None,
    }
}

/// ASCII lowercase of a character.
pub open spec fn lower(c: char) -> char {
    if 'A' <= c && c <= 'Z' { ((c as u32) + 32) as char } else { c }
}

/// Whether `s`, lowercased in ASCII, starts with `p` (lowercase ASCII).
pub open spec fn starts_with_lower(s: Seq<char>, p: Seq<char>) -> bool {
    p.len() <= s.len() && forall|i: int| 0 <= i < p.len() ==> lower(#[trigger] s[i]) == p[i]
}

pub fn lower_char(c: char) -> (r: char)
    ensures
        r == lower(c),
{
    if 'A' <= c && c <= 'Z' {
        let code = (c as u32) + 32;
        proof {
            assert(0x61 <= code <= 0x7A);
        }
        ((code as u8) as char)
    } else {
        c
    }
}

/// Tests [`starts_with_lower`].
pub fn has_prefix_lower(s: &Vec<char>, p: &str) -> (b: bool)
    ensures
        b == starts_with_lower(s@, p@),
{
    let m = p.unicode_len();
    if m > s.len() {
        return false;
    }
    let mut i: usize = 0;
    while i < m
        invariant
            m == p@.len(),
            m <= s@.len(),
            i <= m,
            forall|k: int| 0 <= k < i ==> lower(#[trigger] s@[k]) == p@[k],
        decreases m - i,
    {
        if lower_char(s[i]) != p.get_char(i) {
            return false;
        }
        i = i + 1;
    }
    true
}

} // verus!

verus! {

/// Whether two string slices hold the same characters.
pub fn str_equal(a: &str, b: &str) -> (r: bool)
    ensures
        r == (a@ == b@),
{
    let n = a.unicode_len();
    if n != b.unicode_len() {
        return false;
    }
    let mut i: usize = 0;
    while i < n
        invariant
            n == a@.len(),
            n == b@.len(),
            i <= n,
            forall|k: int| 0 <= k < i ==> a@[k] == b@[k],
        decreases n - i,
    {
        if a.get_char(i) != b.get_char(i) {
            return false;
        }
        i = i + 1;
    }
    proof {
        assert(a@ =~= b@);
    }
    true
}

} // verus!
