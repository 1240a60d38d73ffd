//! Character-level building blocks: Unicode whitespace, trimming, scanning
//! for a character, and the decimal number syntax that Rust's `str::parse`
//! accepts for `u64`, `i64` and `u8`.
use vstd::prelude::*;

verus! {

/// `char::is_whitespace`: the Unicode `White_Space` property.
pub open spec fn is_space(c: char) -> bool {
    let u = c as u32;
    ||| 0x09 <= u <= 0x0d
    ||| u == 0x20
    ||| u == 0x85
    ||| u == 0xa0
    ||| u == 0x1680
    ||| 0x2000 <= u <= 0x200a
    ||| u == 0x2028
    ||| u == 0x2029
    ||| u == 0x202f
    ||| u == 0x205f
    ||| u == 0x3000
}

/// First index at or after `i` that does not hold whitespace (or the length).
pub open spec fn skip_space(s: Seq<char>, i: int) -> int
    decreases s.len() - i,
{
    if 0 <= i < s.len() && is_space(s[i]) {
        skip_space(s, i + 1)
    } else {
        i
    }
}

/// First index at or after `i` that holds whitespace (or the length).
pub open spec fn word_end(s: Seq<char>, i: int) -> int
    decreases s.len() - i,
{
    if 0 <= i < s.len() && !is_space(s[i]) {
        word_end(s, i + 1)
    } else {
        i
    }
}

/// Walking back from `j`, the first position whose preceding char is not whitespace.
pub open spec fn back_space(s: Seq<char>, j: int) -> int
    decreases j,
{
    if 0 < j <= s.len() && is_space(s[j - 1]) {
        back_space(s, j - 1)
    } else {
        j
    }
}

/// `str::trim`: the sequence without leading and trailing whitespace.
pub open spec fn trim(s: Seq<char>) -> Seq<char> {
    let a = skip_space(s, 0);
    if a >= s.len() {
        Seq::empty()
    } else {
        s.subrange(a, back_space(s, s.len() as int))
    }
}

/// First index at or after `i` holding `c` (or the length).
pub open spec fn find_char(s: Seq<char>, i: int, c: char) -> int
    decreases s.len() - i,
{
    if 0 <= i < s.len() && s[i] != c {
        find_char(s, i + 1, c)
    } else {
        i
    }
}

pub proof fn lemma_skip_space_bounds(s: Seq<char>, i: int)
    requires
        0 <= i <= s.len(),
    ensures
        i <= skip_space(s, i) <= s.len(),
        skip_space(s, i) < s.len() ==> !is_space(s[skip_space(s, i)]),
        forall|k: int| i <= k < skip_space(s, i) ==> is_space(#[trigger] s[k]),
    decreases s.len() - i,
{
    if i < s.len() && is_space(s[i]) {
        lemma_skip_space_bounds(s, i + 1);
    }
}

pub proof fn lemma_word_end_bounds(s: Seq<char>, i: int)
    requires
        0 <= i <= s.len(),
    ensures
        i <= word_end(s, i) <= s.len(),
        word_end(s, i) < s.len() ==> is_space(s[word_end(s, i)]),
        forall|k: int| i <= k < word_end(s, i) ==> !is_space(#[trigger] s[k]),
    decreases s.len() - i,
{
    if i < s.len() && !is_space(s[i]) {
        lemma_word_end_bounds(s, i + 1);
    }
}

pub proof fn lemma_back_space_bounds(s: Seq<char>, j: int, floor: int)
    requires
        0 <= floor < j <= s.len(),
        !is_space(s[floor]),
    ensures
        floor < back_space(s, j) <= j,
        !is_space(s[back_space(s, j) - 1]),
        forall|k: int| back_space(s, j) <= k < j ==> is_space(#[trigger] s[k]),
    decreases j,
{
    if is_space(s[j - 1]) {
        lemma_back_space_bounds(s, j - 1, floor);
    }
}

pub proof fn lemma_find_char_bounds(s: Seq<char>, i: int, c: char)
    requires
        0 <= i <= s.len(),
    ensures
        i <= find_char(s, i, c) <= s.len(),
        find_char(s, i, c) < s.len() ==> s[find_char(s, i, c)] == c,
        forall|k: int| i <= k < find_char(s, i, c) ==> #[trigger] s[k] != c,
    decreases s.len() - i,
{
    if i < s.len() && s[i] != c {
        lemma_find_char_bounds(s, i + 1, c);
    }
}

/// `trim` takes whitespace off both ends and nothing else: the result is the
/// stretch of `s` from the returned index on, with only whitespace before and
/// after it, and it neither starts nor ends with whitespace.
pub proof fn law_trim_strips_whitespace_ends(s: Seq<char>) -> (a: int)
    ensures
        0 <= a <= a + trim(s).len() <= s.len(),
        s.subrange(a, a + trim(s).len()) == trim(s),
        forall|k: int| 0 <= k < a ==> is_space(#[trigger] s[k]),
        forall|k: int| a + trim(s).len() <= k < s.len() ==> is_space(#[trigger] s[k]),
        trim(s).len() > 0 ==> !is_space(trim(s)[0]) && !is_space(trim(s).last()),
{
    lemma_skip_space_bounds(s, 0);
    let a = skip_space(s, 0);
    if a >= s.len() {
        assert(s.subrange(0, 0) =~= trim(s));
        0
    } else {
        lemma_back_space_bounds(s, s.len() as int, a);
        a
    }
}

/// Whether `c` is whitespace, as `char::is_whitespace` decides.
pub fn char_is_space(c: char) -> (b: bool)
    ensures
        b == is_space(c),
{
    let u = c as u32;
    (0x09 <= u && u <= 0x0d) || u == 0x20 || u == 0x85 || u == 0xa0 || u == 0x1680 || (0x2000
        <= u && u <= 0x200a) || u == 0x2028 || u == 0x2029 || u == 0x202f || u == 0x205f || u
        == 0x3000
}

pub fn exec_skip_space(s: &Vec<char>, i: usize) -> (j: usize)
    requires
        i <= s@.len(),
    ensures
        j == skip_space(s@, i as int),
{
    let mut j = i;
    while j < s.len() && char_is_space(s[j])
        invariant
            i <= j <= s@.len(),
            skip_space(s@, i as int) == skip_space(s@, j as int),
        decreases s@.len() - j,
    {
        j = j + 1;
    }
    j
}

pub fn exec_word_end(s: &Vec<char>, i: usize) -> (j: usize)
    requires
        i <= s@.len(),
    ensures
        j == word_end(s@, i as int),
{
    let mut j = i;
    while j < s.len() && !char_is_space(s[j])
        invariant
            i <= j <= s@.len(),
            word_end(s@, i as int) == word_end(s@, j as int),
        decreases s@.len() - j,
    {
        j = j + 1;
    }
    j
}

pub fn exec_find_char(s: &Vec<char>, i: usize, c: char) -> (j: usize)
    requires
        i <= s@.len(),
    ensures
        j == find_char(s@, i as int, c),
{
    let mut j = i;
    while j < s.len() && s[j] != c
        invariant
            i <= j <= s@.len(),
            find_char(s@, i as int, c) == find_char(s@, j as int, c),
        decreases s@.len() - j,
    {
        j = j + 1;
    }
    j
}

/// A fresh vector holding `s[a..b]`.
pub fn copy_range(s: &Vec<char>, a: usize, b: usize) -> (r: Vec<char>)
    requires
        a <= b <= s@.len(),
    ensures
        r@ == s@.subrange(a as int, b as int),
{
    let mut r: Vec<char> = Vec::new();
    let mut k = a;
    while k < b
        invariant
            a <= k <= b <= s@.len(),
            r@ == s@.subrange(a as int, k as int),
        decreases b - k,
    {
        r.push(s[k]);
        k = k + 1;
    }
    r
}

/// The trimmed copy of `s`.
pub fn trim_chars(s: &Vec<char>) -> (r: Vec<char>)
    ensures
        r@ == trim(s@),
{
    let a = exec_skip_space(s, 0);
    if a >= s.len() {
        return Vec::new();
    }
    proof {
        lemma_skip_space_bounds(s@, 0);
    }
    let mut b = s.len();
    while b > 0 && char_is_space(s[b - 1])
        invariant
            0 <= b <= s@.len(),
            back_space(s@, s@.len() as int) == back_space(s@, b as int),
        decreases b,
    {
        b = b - 1;
    }
    proof {
        lemma_back_space_bounds(s@, s@.len() as int, a as int);
    }
    copy_range(s, a, b)
}

/// The chars of a string slice, in order.
pub fn chars_of(s: &str) -> (v: Vec<char>)
    ensures
        v@ == s@,
{
    let mut v: Vec<char> = Vec::new();
    for c in it: s.chars()
        invariant
            v@ == it.seq().take(it.index() as int),
    {
        v.push(c);
    }
    v
}

/// A `String` holding exactly the given chars (`FromIterator<char>` for `String`).
#[verifier::external_body]
pub(crate) fn string_from_chars(chars: &Vec<char>) -> (s: String)
    ensures
        s@ == chars@,
{
    chars.iter().collect()
}

/// Whether `c` is an ASCII decimal digit.
pub open spec fn is_digit(c: char) -> bool {
    '0' as u32 <= c as u32 <= '9' as u32
}

pub open spec fn digit_value(c: char) -> nat {
    (c as u32 - '0' as u32) as nat
}

pub open spec fn all_digits(s: Seq<char>) -> bool {
    forall|k: int| 0 <= k < s.len() ==> is_digit(#[trigger] s[k])
}

/// The number a string of decimal digits denotes.
pub open spec fn digits_value(s: Seq<char>) -> nat
    decreases s.len(),
{
    if s.len() == 0 {
        0
    } else {
        digits_value(s.drop_last()) * 10 + digit_value(s.last())
    }
}

/// The digit string after an optional leading `+` (a lone `+` stays as it is).
pub open spec fn unsigned_digits(s: Seq<char>) -> Seq<char> {
    if s.len() > 1 && s[0] == '+' {
        s.drop_first()
    } else {
        s
    }
}

/// `s.parse::<u64>()`: an optional `+`, then at least one ASCII digit, and a
/// value that fits in 64 bits.
pub open spec fn parse_u64(s: Seq<char>) -> Option<u64> {
    let d = unsigned_digits(s);
    if d.len() > 0 && all_digits(d) && digits_value(d) <= u64::MAX {
        Some(digits_value(d) as u64)
    } else {
        None
    }
}

/// `s.parse::<u8>()`, by the same syntax as `parse_u64`.
pub open spec fn parse_u8(s: Seq<char>) -> Option<u8> {
    let d = unsigned_digits(s);
    if d.len() > 0 && all_digits(d) && digits_value(d) <= u8::MAX {
        Some(digits_value(d) as u8)
    } else {
        None
    }
}

/// Why a text is not an `i64` (the kinds of `std::num::IntErrorKind`).
#[derive(Debug, Clone, Copy, PartialEq, Eq)]
pub enum IntFault {
    /// The text is empty.
    Empty,
    /// A char that is not a digit (or a sign alone).
    InvalidDigit,
    /// The value is above `i64::MAX`.
    PosOverflow,
    /// The value is below `i64::MIN`.
    NegOverflow,
}

/// Digits from index `k` on, with `acc` the magnitude read so far: the
/// first fault scanning left to right (a non-digit, or a magnitude beyond the
/// range), else the value.
pub open spec fn scan_i64(d: Seq<char>, k: int, acc: int, neg: bool) -> Result<i64, IntFault>
    decreases d.len() - k,
{
    if k < 0 || k >= d.len() {
        Ok((if neg {
            0 - acc
        } else {
            acc
        }) as i64)
    } else if !is_digit(d[k]) {
        Err(IntFault::InvalidDigit)
    } else {
        let next = acc * 10 + digit_value(d[k]);
        if !neg && next > i64::MAX {
            Err(IntFault::PosOverflow)
        } else if neg && next > 0x8000_0000_0000_0000 {
            Err(IntFault::NegOverflow)
        } else {
            scan_i64(d, k + 1, next, neg)
        }
    }
}

/// `s.parse::<i64>()`: an optional `+` or `-`, then at least one ASCII
/// digit, and a value inside the range of `i64`; otherwise the first fault.
pub open spec fn parse_i64(s: Seq<char>) -> Result<i64, IntFault> {
    if s.len() == 0 {
        Err(IntFault::Empty)
    } else if s.len() == 1 && (s[0] == '+' || s[0] == '-') {
        Err(IntFault::InvalidDigit)
    } else if s[0] == '-' {
        scan_i64(s.drop_first(), 0, 0, true)
    } else if s[0] == '+' {
        scan_i64(s.drop_first(), 0, 0, false)
    } else {
        scan_i64(s, 0, 0, false)
    }
}

proof fn lemma_digits_value_push(s: Seq<char>, k: int)
    requires
        0 <= k < s.len(),
    ensures
        digits_value(s.subrange(0, k + 1)) == digits_value(s.subrange(0, k)) * 10 + digit_value(
            s[k],
        ),
{
    assert(s.subrange(0, k + 1).drop_last() =~= s.subrange(0, k));
}

proof fn lemma_digits_value_grows(s: Seq<char>, k: int)
    requires
        0 <= k <= s.len(),
    ensures
        digits_value(s.subrange(0, k)) <= digits_value(s),
    decreases s.len() - k,
{
    if k < s.len() {
        lemma_digits_value_grows(s, k + 1);
        lemma_digits_value_push(s, k);
    } else {
        assert(s.subrange(0, k) =~= s);
    }
}

/// Scans the digits of `s[start..]`: `Some` of their value when every char is
/// a digit, there is at least one, and the value is at most `bound`.
fn digits_upto(s: &Vec<char>, start: usize, bound: u64) -> (r: Option<u64>)
    requires
        start <= s@.len(),
    ensures
        ({
            let d = s@.subrange(start as int, s@.len() as int);
            match r {
                Some(v) => d.len() > 0 && all_digits(d) && digits_value(d) <= bound && v
                    == digits_value(d),
                None => !(d.len() > 0 && all_digits(d) && digits_value(d) <= bound),
            }
        }),
{
    let ghost d = s@.subrange(start as int, s@.len() as int);
    if start >= s.len() {
        return None;
    }
    let mut acc: u64 = 0;
    let mut k = start;
    while k < s.len()
        invariant
            start <= k <= s@.len(),
            d == s@.subrange(start as int, s@.len() as int),
            all_digits(d.subrange(0, k - start)),
            acc == digits_value(d.subrange(0, k - start)),
            acc <= bound,
        decreases s@.len() - k,
    {
        let c = s[k];
        let u = c as u32;
        if u < '0' as u32 || u > '9' as u32 {
            assert(!is_digit(d[k - start]));
            return None;
        }
        let dv = (u - '0' as u32) as u64;
        proof {
            lemma_digits_value_push(d, k - start);
        }
        let next = match acc.checked_mul(10) {
            Some(m) => m.checked_add(dv),
            None => None,
        };
        match next {
            Some(n) if n <= bound => {
                acc = n;
            },
            _ => {
                proof {
                    lemma_digits_value_grows(d, k - start + 1);
                }
                return None;
            },
        }
        assert(all_digits(d.subrange(0, k + 1 - start))) by {
            assert forall|j: int| 0 <= j < k + 1 - start implies is_digit(
                #[trigger] d.subrange(0, k + 1 - start)[j],
            ) by {
                if j < k - start {
                    assert(d.subrange(0, k + 1 - start)[j] == d.subrange(0, k - start)[j]);
                }
            }
        }
        k = k + 1;
    }
    assert(d.subrange(0, k - start) =~= d);
    Some(acc)
}

/// `s.parse::<u64>()` on the chars of `s`.
pub fn parse_u64_chars(s: &Vec<char>) -> (r: Option<u64>)
    ensures
        r == parse_u64(s@),
{
    let start: usize = if s.len() > 1 && s[0] == '+' {
        1
    } else {
        0
    };
    assert(unsigned_digits(s@) =~= s@.subrange(start as int, s@.len() as int));
    digits_upto(s, start, u64::MAX)
}

/// `s.parse::<u8>()` on the chars of `s`.
pub fn parse_u8_chars(s: &Vec<char>) -> (r: Option<u8>)
    ensures
        r == parse_u8(s@),
{
    let start: usize = if s.len() > 1 && s[0] == '+' {
        1
    } else {
        0
    };
    assert(unsigned_digits(s@) =~= s@.subrange(start as int, s@.len() as int));
    match digits_upto(s, start, 255) {
        Some(v) => Some(v as u8),
        None => None,
    }
}

/// `s.parse::<i64>()` on the chars of `s`.
pub fn parse_i64_chars(s: &Vec<char>) -> (r: Result<i64, IntFault>)
    ensures
        r == parse_i64(s@),
{
    if s.len() == 0 {
        return Err(IntFault::Empty);
    }
    if s.len() == 1 && (s[0] == '+' || s[0] == '-') {
        return Err(IntFault::InvalidDigit);
    }
    let neg = s[0] == '-';
    let start: usize = if s[0] == '-' || s[0] == '+' {
        1
    } else {
        0
    };
    let ghost d = s@.subrange(start as int, s@.len() as int);
    assert(start == 1 ==> d =~= s@.drop_first());
    assert(start == 0 ==> d =~= s@);
    assert(parse_i64(s@) == scan_i64(d, 0, 0, neg));
    let bound: u64 = if neg {
        0x8000_0000_0000_0000
    } else {
        0x7fff_ffff_ffff_ffff
    };
    let mut acc: u64 = 0;
    let mut k = start;
    while k < s.len()
        invariant
            start <= k <= s@.len(),
            d == s@.subrange(start as int, s@.len() as int),
            acc <= bound,
            bound == if neg {
                0x8000_0000_0000_0000u64
            } else {
                0x7fff_ffff_ffff_ffffu64
            },
            parse_i64(s@) == scan_i64(d, k - start, acc as int, neg),
        decreases s@.len() - k,
    {
        let u = s[k] as u32;
        if u < '0' as u32 || u > '9' as u32 {
            assert(!is_digit(d[k - start]));
            return Err(IntFault::InvalidDigit);
        }
        let dv = (u - '0' as u32) as u64;
        let next = match acc.checked_mul(10) {
            Some(m) => m.checked_add(dv),
            None => None,
        };
        match next {
            Some(n) if n <= bound => {
                acc = n;
            },
            _ => {
                if neg {
                    return Err(IntFault::NegOverflow);
                } else {
                    return Err(IntFault::PosOverflow);
                }
            },
        }
        k = k + 1;
    }
    if neg {
        if acc == 0x8000_0000_0000_0000 {
            Ok(i64::MIN)
        } else {
            Ok(0 - (acc as i64))
        }
    } else {
        Ok(acc as i64)
    }
}

} // verus!
