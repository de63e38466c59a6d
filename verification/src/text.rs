//! Text as sequences of characters: searching, cutting, joining, and decimal
//! integers in both directions.

use vstd::prelude::*;

verus! {

/// `String::push` appends one character and changes nothing else.
pub assume_specification[ String::push ](s: &mut String, ch: char)
    ensures
        final(s)@ == old(s)@.push(ch),
;

/// What `str::to_lowercase` makes of a text.
pub uninterp spec fn lowercase(s: Seq<char>) -> Seq<char>;

/// `str::to_lowercase`: the Unicode lower-case form, which depends on the text
/// alone. Nothing is said about which characters change.
#[verifier::external_body]
pub(crate) fn to_lowercase(s: &str) -> (r: String)
    ensures
        r@ == lowercase(s@),
{
    s.to_lowercase()
}

/// The characters of `s`, in order.
pub fn chars_of(s: &str) -> (v: Vec<char>)
    ensures
        v@ == s@,
{
    let mut v: Vec<char> = Vec::new();
    for c in it: s.chars()
        invariant
            v@ == s@.take(it.index()),
            it.seq() == s@,
    {
        v.push(c);
        assert(s@.take(it.index() + 1) =~= s@.take(it.index()).push(c));
    }
    assert(s@.take(s@.len() as int) =~= s@);
    v
}

/// The characters of `v` from `lo` up to, not including, `hi`.
pub fn slice_of(v: &[char], lo: usize, hi: usize) -> (r: Vec<char>)
    requires
        lo <= hi <= v@.len(),
    ensures
        r@ == v@.subrange(lo as int, hi as int),
{
    let mut r: Vec<char> = Vec::new();
    for i in lo..hi
        invariant
            lo <= i <= hi <= v@.len(),
            r@ == v@.subrange(lo as int, i as int),
    {
        r.push(v[i]);
        assert(v@.subrange(lo as int, i + 1) =~= v@.subrange(lo as int, i as int).push(
            v@[i as int],
        ));
    }
    r
}

/// Whether two texts hold the same characters.
pub fn same_text(a: &str, b: &str) -> (r: bool)
    ensures
        r == (a@ == b@),
{
    let x = chars_of(a);
    let y = chars_of(b);
    same_chars(&x, &y)
}

pub fn same_chars(x: &[char], y: &[char]) -> (r: bool)
    ensures
        r == (x@ == y@),
{
    if x.len() != y.len() {
        return false;
    }
    for i in 0..x.len()
        invariant
            x@.len() == y@.len(),
            forall|j: int| 0 <= j < i ==> x@[j] == y@[j],
    {
        if x[i] != y[i] {
            return false;
        }
    }
    assert(x@ =~= y@);
    true
}

// ---------------------------------------------------------------------------
// Searching
// ---------------------------------------------------------------------------

/// The first position at or after `from` that holds `c`, or the length of `s`.
pub open spec fn find_from(s: Seq<char>, c: char, from: int) -> int
    decreases s.len() - from,
{
    if from < 0 || from >= s.len() {
        s.len() as int
    } else if s[from] == c {
        from
    } else {
        find_from(s, c, from + 1)
    }
}

/// The first position that holds `c`, or the length of `s`.
pub open spec fn find(s: Seq<char>, c: char) -> int {
    find_from(s, c, 0)
}

/// What `find_from` promises: nothing before the position holds `c`, and the
/// position itself does unless it is the end.
pub proof fn lemma_find_from(s: Seq<char>, c: char, from: int)
    requires
        0 <= from <= s.len(),
    ensures
        from <= find_from(s, c, from) <= s.len(),
        find_from(s, c, from) < s.len() ==> s[find_from(s, c, from)] == c,
        forall|j: int| from <= j < find_from(s, c, from) ==> s[j] != c,
    decreases s.len() - from,
{
    if from < s.len() && s[from] != c {
        lemma_find_from(s, c, from + 1);
    }
}

/// Searching from a position is searching what stands behind it.
pub proof fn lemma_find_skip(s: Seq<char>, c: char, from: int)
    requires
        0 <= from <= s.len(),
    ensures
        find_from(s, c, from) == from + find(s.skip(from), c),
{
    let a = find_from(s, c, from);
    let t = s.skip(from);
    let b = find(t, c);
    lemma_find_from(s, c, from);
    lemma_find_from(t, c, 0);
    if a < from + b {
        assert(t[a - from] == s[a]);
    }
    if a > from + b {
        assert(s[from + b] == t[b]);
    }
}

pub fn find_char(v: &[char], c: char, from: usize) -> (r: usize)
    requires
        from <= v@.len(),
    ensures
        r == find_from(v@, c, from as int),
        from <= r <= v@.len(),
        r < v@.len() ==> v@[r as int] == c,
        forall|j: int| from <= j < r ==> v@[j] != c,
{
    let mut i = from;
    while i < v.len()
        invariant
            from <= i <= v@.len(),
            find_from(v@, c, from as int) == find_from(v@, c, i as int),
            forall|j: int| from <= j < i ==> v@[j] != c,
        decreases v@.len() - i,
    {
        if v[i] == c {
            return i;
        }
        i += 1;
    }
    i
}

/// The last position that holds `c`, or -1.
pub open spec fn rfind(s: Seq<char>, c: char) -> int
    decreases s.len(),
{
    if s.len() == 0 {
        -1
    } else if s.last() == c {
        s.len() - 1
    } else {
        rfind(s.drop_last(), c)
    }
}

/// Finds the last position that holds `c`.
pub fn rfind_char(v: &[char], c: char) -> (r: Option<usize>)
    ensures
        match r {
            Some(i) => i == rfind(v@, c) && i < v@.len() && v@[i as int] == c && (forall|j: int|
                i < j < v@.len() ==> v@[j] != c),
            None => rfind(v@, c) == -1 && (forall|j: int| 0 <= j < v@.len() ==> v@[j] != c),
        },
{
    let mut n = v.len();
    assert(v@.take(n as int) =~= v@);
    while n > 0
        invariant
            n <= v@.len(),
            rfind(v@, c) == rfind(v@.take(n as int), c),
            forall|j: int| n <= j < v@.len() ==> v@[j] != c,
        decreases n,
    {
        assert(v@.take(n as int).drop_last() =~= v@.take(n - 1));
        if v[n - 1] == c {
            return Some(n - 1);
        }
        n -= 1;
    }
    None
}

/// Whether `s` begins with `prefix`.
pub open spec fn has_prefix(s: Seq<char>, prefix: Seq<char>) -> bool {
    prefix.len() <= s.len() && s.take(prefix.len() as int) == prefix
}

/// Whether `s` ends with `suffix`.
pub open spec fn has_suffix(s: Seq<char>, suffix: Seq<char>) -> bool {
    suffix.len() <= s.len() && s.skip(s.len() - suffix.len()) == suffix
}

pub fn starts_with(s: &str, prefix: &str) -> (b: bool)
    ensures
        b == has_prefix(s@, prefix@),
{
    let v = chars_of(s);
    let p = chars_of(prefix);
    assert(v@.skip(0) =~= v@);
    prefix_at(&v, &p, 0)
}

/// Whether `p` stands in `v` at position `at`.
pub fn prefix_at(v: &[char], p: &[char], at: usize) -> (b: bool)
    requires
        at <= v@.len(),
    ensures
        b == has_prefix(v@.skip(at as int), p@),
{
    let n = v.len();
    if n - at < p.len() {
        return false;
    }
    for i in 0..p.len()
        invariant
            n == v@.len(),
            at + p@.len() <= n,
            forall|j: int| 0 <= j < i ==> v@[at + j] == p@[j],
    {
        if v[at + i] != p[i] {
            assert(v@.skip(at as int).take(p@.len() as int)[i as int] != p@[i as int]);
            return false;
        }
    }
    assert(v@.skip(at as int).take(p@.len() as int) =~= p@);
    true
}

/// Whether `needle` stands somewhere in `s`.
pub open spec fn contains_text(s: Seq<char>, needle: Seq<char>) -> bool {
    exists|i: int| 0 <= i <= s.len() && has_prefix(#[trigger] s.skip(i), needle)
}

pub fn contains(s: &str, needle: &str) -> (b: bool)
    ensures
        b == contains_text(s@, needle@),
{
    let v = chars_of(s);
    let p = chars_of(needle);
    let mut i: usize = 0;
    while i < v.len()
        invariant
            i <= v@.len(),
            v@ == s@,
            p@ == needle@,
            forall|j: int| 0 <= j < i ==> !has_prefix(#[trigger] v@.skip(j), p@),
        decreases v@.len() - i,
    {
        if prefix_at(&v, &p, i) {
            return true;
        }
        i += 1;
    }
    prefix_at(&v, &p, i)
}

// ---------------------------------------------------------------------------
// White space
// ---------------------------------------------------------------------------

/// The characters with the Unicode property `White_Space`.
pub open spec fn is_space(c: char) -> bool {
    let n = c as u32;
    ||| 0x9 <= n <= 0xd
    ||| n == 0x20
    ||| n == 0x85
    ||| n == 0xa0
    ||| n == 0x1680
    ||| 0x2000 <= n <= 0x200a
    ||| n == 0x2028
    ||| n == 0x2029
    ||| n == 0x202f
    ||| n == 0x205f
    ||| n == 0x3000
}

fn space(c: char) -> (b: bool)
    ensures
        b == is_space(c),
{
    let n = c as u32;
    (0x9 <= n && n <= 0xd) || n == 0x20 || n == 0x85 || n == 0xa0 || n == 0x1680 || (0x2000 <= n
        && n <= 0x200a) || n == 0x2028 || n == 0x2029 || n == 0x202f || n == 0x205f || n == 0x3000
}

/// `s` without leading white space.
pub open spec fn trim_start(s: Seq<char>) -> Seq<char>
    decreases s.len(),
{
    if s.len() > 0 && is_space(s[0]) {
        trim_start(s.skip(1))
    } else {
        s
    }
}

/// `s` without trailing white space.
pub open spec fn trim_end(s: Seq<char>) -> Seq<char>
    decreases s.len(),
{
    if s.len() > 0 && is_space(s.last()) {
        trim_end(s.drop_last())
    } else {
        s
    }
}

/// `s` without white space on either side.
pub open spec fn trim(s: Seq<char>) -> Seq<char> {
    trim_end(trim_start(s))
}

pub fn trimmed(v: &[char]) -> (r: Vec<char>)
    ensures
        r@ == trim(v@),
{
    let mut lo: usize = 0;
    assert(v@.skip(0) =~= v@);
    while lo < v.len() && space(v[lo])
        invariant
            lo <= v@.len(),
            trim_start(v@) == trim_start(v@.skip(lo as int)),
        decreases v@.len() - lo,
    {
        assert(v@.skip(lo as int).skip(1) =~= v@.skip(lo + 1));
        lo += 1;
    }
    assert(trim_start(v@) == v@.skip(lo as int));
    let mut hi = v.len();
    assert(v@.subrange(lo as int, hi as int) =~= v@.skip(lo as int));
    while hi > lo && space(v[hi - 1])
        invariant
            lo <= hi <= v@.len(),
            trim_end(v@.skip(lo as int)) == trim_end(v@.subrange(lo as int, hi as int)),
        decreases hi,
    {
        assert(v@.subrange(lo as int, hi as int).drop_last() =~= v@.subrange(lo as int, hi - 1));
        hi -= 1;
    }
    slice_of(v, lo, hi)
}

// ---------------------------------------------------------------------------
// Decimal integers
// ---------------------------------------------------------------------------

pub open spec fn is_digit(c: char) -> bool {
    '0' <= c <= '9'
}

pub open spec fn digit_value(c: char) -> nat {
    (c as u32 - '0' as u32) as nat
}

pub open spec fn all_digits(s: Seq<char>) -> bool {
    forall|i: int| 0 <= i < s.len() ==> is_digit(#[trigger] s[i])
}

/// The number that a string of decimal digits denotes.
pub open spec fn digits_value(s: Seq<char>) -> nat
    decreases s.len(),
{
    if s.len() == 0 {
        0
    } else {
        digits_value(s.drop_last()) * 10 + digit_value(s.last())
    }
}

pub fn digit(c: char) -> (r: Option<u32>)
    ensures
        match r {
            Some(d) => is_digit(c) && d == digit_value(c) && d < 10,
            None => !is_digit(c),
        },
{
    if '0' <= c && c <= '9' {
        Some(c as u32 - '0' as u32)
    } else {
        None
    }
}

/// How many characters at the front of `s` are digits.
pub open spec fn digit_prefix(s: Seq<char>) -> nat
    decreases s.len(),
{
    if s.len() > 0 && is_digit(s[0]) {
        1 + digit_prefix(s.skip(1))
    } else {
        0
    }
}

/// Why a text does not denote an unsigned integer.
#[derive(Clone, Copy, Debug, PartialEq, Eq, Structural)]
pub enum IntError {
    /// The text is empty.
    Empty,
    /// A character that is no digit, or a sign with no digit behind it.
    InvalidDigit,
    /// The digits read so far already exceed the largest value.
    PosOverflow,
}

/// The unsigned integer that `s` denotes, at most `max`: an optional `+`, then
/// one digit or more. The text is read from the left and the first defect
/// counts.
pub open spec fn unsigned(s: Seq<char>, max: nat) -> Result<nat, IntError> {
    if s.len() == 0 {
        Err(IntError::Empty)
    } else {
        let t = if s[0] == '+' {
            s.skip(1)
        } else {
            s
        };
        let n = digit_prefix(t);
        if digits_value(t.take(n as int)) > max {
            Err(IntError::PosOverflow)
        } else if n < t.len() || t.len() == 0 {
            Err(IntError::InvalidDigit)
        } else {
            Ok(digits_value(t))
        }
    }
}

proof fn lemma_digit_prefix_at(s: Seq<char>, n: int)
    requires
        0 <= n <= s.len(),
        forall|j: int| 0 <= j < n ==> is_digit(#[trigger] s[j]),
    ensures
        digit_prefix(s) == n + digit_prefix(s.skip(n)),
    decreases n,
{
    if n == 0 {
        assert(s.skip(0) =~= s);
    } else {
        let t = s.skip(1);
        assert forall|j: int| 0 <= j < n - 1 implies is_digit(#[trigger] t[j]) by {
            assert(t[j] == s[j + 1]);
        }
        assert(is_digit(s[0]));
        lemma_digit_prefix_at(t, n - 1);
        assert(t.skip(n - 1) =~= s.skip(n));
    }
}

/// `digit_prefix` is within bounds and covers digits only.
pub proof fn lemma_digit_prefix(s: Seq<char>)
    ensures
        digit_prefix(s) <= s.len(),
        all_digits(s.take(digit_prefix(s) as int)),
        digit_prefix(s) < s.len() ==> !is_digit(s[digit_prefix(s) as int]),
    decreases s.len(),
{
    if s.len() > 0 && is_digit(s[0]) {
        let t = s.skip(1);
        lemma_digit_prefix(t);
        let n = digit_prefix(t) as int;
        assert forall|i: int| 0 <= i < n + 1 implies is_digit(#[trigger] s.take(n + 1)[i]) by {
            if i > 0 {
                assert(t.take(n)[i - 1] == s[i]);
                assert(is_digit(t.take(n)[i - 1]));
            }
        }
    }
}

/// A longer run of digits denotes a number at least as large.
pub proof fn lemma_digits_value_grows(s: Seq<char>, n: int, m: int)
    requires
        0 <= n <= m <= s.len(),
    ensures
        digits_value(s.take(n)) <= digits_value(s.take(m)),
    decreases m - n,
{
    if n < m {
        lemma_digits_value_grows(s, n, m - 1);
        assert(s.take(m).drop_last() =~= s.take(m - 1));
    }
}

/// Reads an unsigned integer of at most `max`.
pub fn parse_unsigned(v: &[char], max: u64) -> (r: Result<u64, IntError>)
    ensures
        match r {
            Ok(n) => unsigned(v@, max as nat) == Ok::<nat, IntError>(n as nat) && n <= max,
            Err(e) => unsigned(v@, max as nat) == Err::<nat, IntError>(e),
        },
{
    if v.len() == 0 {
        return Err(IntError::Empty);
    }
    let start: usize = if v[0] == '+' {
        1
    } else {
        0
    };
    let ghost t = v@.skip(start as int);
    proof {
        assert(v@.skip(0) =~= v@);
        lemma_digit_prefix(t);
    }
    if start == v.len() {
        assert(t.take(0).len() == 0);
        return Err(IntError::InvalidDigit);
    }
    let mut n: u64 = 0;
    let mut i: usize = start;
    assert(t.take(0) =~= Seq::<char>::empty());
    while i < v.len()
        invariant
            start <= i <= v@.len(),
            t == v@.skip(start as int),
            n == digits_value(t.take(i - start)),
            n <= max,
            forall|j: int| 0 <= j < i - start ==> is_digit(#[trigger] t[j]),
            v@.len() > 0,
            t == (if v@[0] == '+' {
                v@.skip(1)
            } else {
                v@
            }),
            t.len() > 0,
        decreases v@.len() - i,
    {
        let ghost k = i - start;
        proof {
            lemma_digit_prefix_at(t, k);
            assert(t[k] == v@[i as int]);
            assert(t.take(k + 1).drop_last() =~= t.take(k));
            lemma_digit_prefix(t);
        }
        match digit(v[i]) {
            None => {
                assert(digit_prefix(t.skip(k)) == 0) by {
                    assert(t.skip(k)[0] == v@[i as int]);
                }
                return Err(IntError::InvalidDigit);
            },
            Some(d) => {
                let next: u128 = n as u128 * 10 + d as u128;
                if next > max as u128 {
                    proof {
                        assert(t.skip(k)[0] == v@[i as int]);
                        lemma_digits_value_grows(t, k + 1, digit_prefix(t) as int);
                    }
                    return Err(IntError::PosOverflow);
                }
                n = next as u64;
            },
        }
        i += 1;
    }
    proof {
        lemma_digit_prefix_at(t, t.len() as int);
        lemma_digit_prefix(t);
        assert(t.take(t.len() as int) =~= t);
    }
    Ok(n)
}

/// The decimal digits of `n`, without leading zeros.
pub open spec fn decimal(n: nat) -> Seq<char>
    decreases n,
{
    if n < 10 {
        seq![decimal_digit(n)]
    } else {
        decimal(n / 10).push(decimal_digit(n % 10))
    }
}

pub open spec fn decimal_digit(d: nat) -> char {
    ('0' as u32 + d) as char
}

/// `n` in decimal, with a minus sign where it is negative.
pub open spec fn decimal_int(n: int) -> Seq<char> {
    if n < 0 {
        seq!['-'] + decimal((-n) as nat)
    } else {
        decimal(n as nat)
    }
}

/// The decimal digits of `n` are digits, and denote `n`.
pub proof fn lemma_decimal(n: nat)
    ensures
        decimal(n).len() > 0,
        all_digits(decimal(n)),
        digits_value(decimal(n)) == n,
        forall|max: nat| n <= max ==> #[trigger] unsigned(decimal(n), max) == Ok::<nat, IntError>(n),
    decreases n,
{
    let s = decimal(n);
    if n < 10 {
        assert(s.drop_last() =~= Seq::<char>::empty());
        assert(digits_value(s.drop_last()) == 0);
    } else {
        lemma_decimal(n / 10);
        assert(s.drop_last() =~= decimal(n / 10));
    }
    lemma_digit_prefix_at(s, s.len() as int);
    assert(s.take(s.len() as int) =~= s);
    assert(is_digit(s[0]));
}

/// In front of anything that begins with `c`, digits lead right up to it.
pub proof fn lemma_find_behind_digits(digits: Seq<char>, rest: Seq<char>, c: char)
    requires
        all_digits(digits),
        !is_digit(c),
    ensures
        rest.len() > 0 && rest[0] == c ==> find(digits + rest, c) == digits.len(),
        rest.len() == 0 ==> find(digits + rest, c) == digits.len(),
{
    let s = digits + rest;
    lemma_find_from(s, c, 0);
    let a = find(s, c);
    if a < digits.len() {
        assert(s[a] == digits[a]);
        assert(is_digit(digits[a]));
    }
    if rest.len() > 0 && rest[0] == c {
        assert(s[digits.len() as int] == c);
    }
}

/// A text without white space at its ends is not trimmed.
pub proof fn lemma_trim_nothing(s: Seq<char>)
    requires
        s.len() > 0,
        !is_space(s[0]),
        !is_space(s.last()),
    ensures
        trim(s) == s,
{
}

fn digit_char(d: u64) -> (c: char)
    requires
        d < 10,
    ensures
        c == decimal_digit(d as nat),
{
    let k: u8 = 48 + d as u8;
    k as char
}

/// Appends `n` in decimal.
pub fn append_decimal(s: &mut String, n: u64)
    ensures
        final(s)@ == old(s)@ + decimal(n as nat),
    decreases n,
{
    if n >= 10 {
        append_decimal(s, n / 10);
    }
    s.push(digit_char(n % 10));
    assert(s@ =~= old(s)@ + decimal(n as nat));
}

pub fn append_decimal_int(s: &mut String, n: i32)
    ensures
        final(s)@ == old(s)@ + decimal_int(n as int),
{
    if n < 0 {
        s.push('-');
        append_decimal(s, (-(n as i64)) as u64);
    } else {
        append_decimal(s, n as u64);
    }
    assert(s@ =~= old(s)@ + decimal_int(n as int));
}

// ---------------------------------------------------------------------------
// Laws
// ---------------------------------------------------------------------------

/// A text contains each of its parts.
pub proof fn law_texts_contain_their_parts(before: Seq<char>, part: Seq<char>, after: Seq<char>)
    ensures
        contains_text(before + part + after, part),
{
    let s = before + part + after;
    let rest = s.skip(before.len() as int);
    assert(rest.take(part.len() as int) =~= part);
    assert(has_prefix(rest, part));
}

/// What a text contains is a part of it.
pub proof fn law_contained_texts_are_parts(s: Seq<char>, part: Seq<char>)
    requires
        contains_text(s, part),
    ensures
        exists|i: int, j: int| 0 <= i <= j <= s.len() && #[trigger] s.subrange(i, j) == part,
{
    let i = choose|i: int| 0 <= i <= s.len() && has_prefix(#[trigger] s.skip(i), part);
    let j = i + part.len();
    assert(s.subrange(i, j) =~= s.skip(i).take(part.len() as int));
}

proof fn lemma_decimal_digits_of_80()
    ensures
        decimal(80) == seq!['8', '0'],
{
    reveal_with_fuel(decimal, 3);
    assert(decimal(8) =~= seq!['8']);
    assert(decimal(80) =~= seq!['8', '0']);
}

/// The digits of the default port.
pub proof fn lemma_decimal_80()
    ensures
        decimal_int(80) == seq!['8', '0'],
{
    lemma_decimal_digits_of_80();
}

/// A number is read back from its digits, with or without a plus sign; one
/// above the largest is an overflow.
pub proof fn law_numbers_are_read_back(n: nat, max: nat)
    ensures
        n <= max ==> unsigned(decimal(n), max) == Ok::<nat, IntError>(n),
        n <= max ==> unsigned(seq!['+'] + decimal(n), max) == Ok::<nat, IntError>(n),
        n > max ==> unsigned(decimal(n), max) == Err::<nat, IntError>(IntError::PosOverflow),
{
    let s = decimal(n);
    lemma_decimal(n);
    assert(is_digit(s[0]));
    lemma_digit_prefix_at(s, s.len() as int);
    assert(s.skip(s.len() as int) =~= Seq::<char>::empty());
    assert(s.take(s.len() as int) =~= s);
    assert((seq!['+'] + s).skip(1) =~= s);
}

/// What holds anything but digits is no number, but for a plus sign in front;
/// nor is what holds no digit.
pub proof fn law_other_texts_are_no_numbers(s: Seq<char>, max: nat, i: int)
    ensures
        s.len() == 0 ==> unsigned(s, max) == Err::<nat, IntError>(IntError::Empty),
        s == seq!['+'] ==> unsigned(s, max) == Err::<nat, IntError>(IntError::InvalidDigit),
        0 <= i < s.len() && !('0' <= s[i] <= '9') && (i > 0 || s[0] != '+') ==> unsigned(s, max)
            is Err,
{
    if s.len() > 0 {
        let t = if s[0] == '+' {
            s.skip(1)
        } else {
            s
        };
        let at = if s[0] == '+' {
            i - 1
        } else {
            i
        };
        let n = digit_prefix(t) as int;
        lemma_digit_prefix(t);
        assert(s == seq!['+'] ==> t =~= Seq::<char>::empty());
        assert(s == seq!['+'] ==> t.take(0) =~= Seq::<char>::empty());
        if 0 <= i < s.len() && !('0' <= s[i] <= '9') && (i > 0 || s[0] != '+') {
            assert(t[at] == s[i]);
            if n > at {
                assert(is_digit(t.take(n)[at]));
            }
        }
    }
}

/// A number that fits, with anything but a digit behind it, is an invalid digit.
pub proof fn law_numbers_end_the_text(n: nat, max: nat, c: char, rest: Seq<char>)
    requires
        n <= max,
        !('0' <= c <= '9'),
    ensures
        unsigned(decimal(n) + seq![c] + rest, max) == Err::<nat, IntError>(IntError::InvalidDigit),
{
    let d = decimal(n);
    let s = d + seq![c] + rest;
    lemma_decimal(n);
    assert(is_digit(d[0]));
    assert(s[0] == d[0]);
    assert forall|j: int| 0 <= j < d.len() implies is_digit(#[trigger] s[j]) by {
        assert(s[j] == d[j]);
        assert(is_digit(d[j]));
    }
    lemma_digit_prefix_at(s, d.len() as int);
    assert(s.skip(d.len() as int)[0] == c);
    assert(s.take(d.len() as int) =~= d);
}

/// Digits denote a number in the decimal system: each further digit counts
/// itself, and what stands before it tenfold.
pub proof fn law_each_digit_counts_tenfold(s: Seq<char>, c: char)
    requires
        '0' <= c <= '9',
    ensures
        digits_value(Seq::empty()) == 0,
        digits_value(s.push(c)) == 10 * digits_value(s) + (c as u32 - 48),
{
    assert(s.push(c).drop_last() =~= s);
}

/// A number is written with the digits 0 to 9 alone, without a leading zero,
/// and with a minus sign where it is negative.
pub proof fn law_numbers_are_written_in_decimal(n: nat)
    ensures
        digits_value(decimal(n)) == n,
        forall|i: int| 0 <= i < decimal(n).len() ==> '0' <= #[trigger] decimal(n)[i] <= '9',
        n > 0 ==> decimal(n)[0] != '0',
        n < 10 ==> decimal(n).len() == 1,
        decimal_int(n as int) == decimal(n),
        n > 0 ==> decimal_int(-n) == seq!['-'] + decimal(n),
    decreases n,
{
    lemma_decimal(n);
    assert forall|i: int| 0 <= i < decimal(n).len() implies '0' <= #[trigger] decimal(n)[i]
        <= '9' by {
        assert(is_digit(decimal(n)[i]));
    }
    if n >= 10 {
        law_numbers_are_written_in_decimal(n / 10);
        lemma_decimal(n / 10);
        assert(decimal(n)[0] == decimal(n / 10)[0]);
    }
}

/// Trimming takes away white space at the ends and nothing else.
pub proof fn law_only_white_space_is_trimmed(s: Seq<char>) -> (r: (int, int))
    ensures
        0 <= r.0 <= r.1 <= s.len(),
        trim(s) == s.subrange(r.0, r.1),
        forall|i: int| 0 <= i < r.0 || r.1 <= i < s.len() ==> is_space(#[trigger] s[i]),
        r.0 < r.1 ==> !is_space(s[r.0]) && !is_space(s[r.1 - 1]),
{
    let a = lemma_trim_start(s);
    let t = trim_start(s);
    let b = lemma_trim_end(t);
    assert(trim(s) =~= s.subrange(a, a + b));
    assert forall|i: int| 0 <= i < a || a + b <= i < s.len() implies is_space(#[trigger] s[i]) by {
        if i >= a {
            assert(t[i - a] == s[i]);
        }
    }
    if b > 0 {
        assert(t[0] == s[a]);
        assert(t[b - 1] == s[a + b - 1]);
        if a == s.len() {
            assert(t.len() == 0);
        }
    }
    (a, a + b)
}

proof fn lemma_trim_start(s: Seq<char>) -> (n: int)
    ensures
        0 <= n <= s.len(),
        trim_start(s) == s.skip(n),
        forall|i: int| 0 <= i < n ==> is_space(#[trigger] s[i]),
        n < s.len() ==> !is_space(s[n]),
    decreases s.len(),
{
    if s.len() > 0 && is_space(s[0]) {
        let rest = s.skip(1);
        let m = lemma_trim_start(rest);
        assert(rest.skip(m) =~= s.skip(m + 1));
        assert forall|i: int| 0 <= i < m + 1 implies is_space(#[trigger] s[i]) by {
            if i > 0 {
                assert(rest[i - 1] == s[i]);
            }
        }
        if m < rest.len() {
            assert(rest[m] == s[m + 1]);
        }
        m + 1
    } else {
        assert(s.skip(0) =~= s);
        0
    }
}

proof fn lemma_trim_end(s: Seq<char>) -> (n: int)
    ensures
        0 <= n <= s.len(),
        trim_end(s) == s.take(n),
        forall|i: int| n <= i < s.len() ==> is_space(#[trigger] s[i]),
        n > 0 ==> !is_space(s[n - 1]),
    decreases s.len(),
{
    if s.len() > 0 && is_space(s.last()) {
        let rest = s.drop_last();
        let m = lemma_trim_end(rest);
        assert(rest.take(m) =~= s.take(m));
        assert forall|i: int| m <= i < s.len() implies is_space(#[trigger] s[i]) by {
            if i < s.len() - 1 {
                assert(rest[i] == s[i]);
            }
        }
        m
    } else {
        assert(s.take(s.len() as int) =~= s);
        s.len() as int
    }
}

/// Of the ASCII characters, the blank, the tab, the line feed, the vertical
/// tab, the form feed and the carriage return are white space; no letter, digit
/// or mark is.
pub proof fn law_ascii_white_space(c: char)
    requires
        c as u32 <= 127,
    ensures
        is_space(c) <==> c == ' ' || c == '\t' || c == '\n' || c as u32 == 11 || c as u32 == 12 || c
            == '\r',
{
}

} // verus!
