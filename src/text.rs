//! Character-level helpers: whitespace trimming, literal comparison and
//! decimal / hexadecimal integer parsing, all over `Seq<char>` models.

use vstd::prelude::*;

verus! {

/// Unicode `White_Space` characters, the set that `char::is_whitespace` tests.
pub open spec fn is_white_space(c: char) -> bool {
    let u = c as u32;
    (0x09 <= u && u <= 0x0d) || u == 0x20 || u == 0x85 || u == 0xa0 || u == 0x1680 || (0x2000
        <= u && u <= 0x200a) || u == 0x2028 || u == 0x2029 || u == 0x202f || u == 0x205f || u
        == 0x3000
}

pub fn white_space(c: char) -> (r: bool)
    ensures
        r == is_white_space(c),
{
    let u = c as u32;
    (0x09 <= u && u <= 0x0d) || u == 0x20 || u == 0x85 || u == 0xa0 || u == 0x1680 || (0x2000
        <= u && u <= 0x200a) || u == 0x2028 || u == 0x2029 || u == 0x202f || u == 0x205f || u
        == 0x3000
}

pub open spec fn trim_start(s: Seq<char>) -> Seq<char>
    decreases s.len(),
{
    if s.len() > 0 && is_white_space(s[0]) {
        trim_start(s.drop_first())
    } else {
        s
    }
}

pub open spec fn trim_end(s: Seq<char>) -> Seq<char>
    decreases s.len(),
{
    if s.len() > 0 && is_white_space(s.last()) {
        trim_end(s.drop_last())
    } else {
        s
    }
}

/// `s` without leading and trailing whitespace.
pub open spec fn trimmed(s: Seq<char>) -> Seq<char> {
    trim_end(trim_start(s))
}

pub open spec fn is_digit(c: char) -> bool {
    '0' <= c && c <= '9'
}

pub open spec fn all_digits(s: Seq<char>) -> bool {
    forall|i: int| 0 <= i < s.len() ==> is_digit(#[trigger] s[i])
}

/// The number that a string of decimal digits denotes.
pub open spec fn digits_value(s: Seq<char>) -> int
    decreases s.len(),
{
    if s.len() == 0 {
        0
    } else {
        10 * digits_value(s.drop_last()) + (s.last() as int - '0' as int)
    }
}

/// A non-empty run of decimal digits whose value is at most `limit`.
pub open spec fn bounded_digits(d: Seq<char>, limit: int) -> bool {
    d.len() > 0 && all_digits(d) && digits_value(d) <= limit
}

/// Unsigned decimal text: an optional `+`, then digits; `None` when malformed or too large.
pub open spec fn u32_of(s: Seq<char>) -> Option<u32> {
    let d = if s.len() > 0 && s[0] == '+' {
        s.drop_first()
    } else {
        s
    };
    if bounded_digits(d, u32::MAX as int) {
        Some(digits_value(d) as u32)
    } else {
        None
    }
}

/// Signed decimal text: an optional `+` or `-`, then digits; `None` when malformed or out of range.
pub open spec fn i32_of(s: Seq<char>) -> Option<i32> {
    if s.len() > 0 && s[0] == '-' {
        let d = s.drop_first();
        if bounded_digits(d, 0x8000_0000) {
            Some((0 - digits_value(d)) as i32)
        } else {
            None
        }
    } else {
        let d = if s.len() > 0 && s[0] == '+' {
            s.drop_first()
        } else {
            s
        };
        if bounded_digits(d, i32::MAX as int) {
            Some(digits_value(d) as i32)
        } else {
            None
        }
    }
}

proof fn lemma_digits_prefix(s: Seq<char>, k: int)
    requires
        0 <= k <= s.len(),
        all_digits(s),
    ensures
        0 <= digits_value(s.take(k)) <= digits_value(s),
    decreases s.len(),
{
    if s.len() > 0 {
        if k == s.len() {
            assert(s.take(k) =~= s);
            assert(all_digits(s.drop_last()));
            lemma_digits_prefix(s.drop_last(), k - 1);
            assert(s.drop_last().take(k - 1) =~= s.drop_last());
        } else {
            assert(s.drop_last().take(k) =~= s.take(k));
            assert(all_digits(s.drop_last()));
            lemma_digits_prefix(s.drop_last(), k);
            lemma_digits_prefix(s.drop_last(), s.len() - 1);
            assert(s.drop_last().take(s.len() - 1) =~= s.drop_last());
            assert(is_digit(s[s.len() - 1]));
        }
    } else {
        assert(s.take(k) =~= s);
    }
}

proof fn lemma_digits_nonneg(d: Seq<char>)
    ensures
        all_digits(d) ==> digits_value(d) >= 0,
{
    if all_digits(d) {
        lemma_digits_prefix(d, d.len() as int);
        assert(d.take(d.len() as int) =~= d);
    }
}

/// The characters of `s`, one by one.
pub fn chars_of(s: &str) -> (r: Vec<char>)
    ensures
        r@ == s@,
{
    let mut r: Vec<char> = Vec::new();
    for c in it: s.chars()
        invariant
            r@ == it.seq().take(it.index() as int),
    {
        r.push(c);
    }
    assert(r@ =~= s@);
    r
}

/// Whether `s` holds exactly the characters of `lit`.
pub fn text_is(s: &str, lit: &str) -> (r: bool)
    ensures
        r == (s@ == lit@),
{
    let a = chars_of(s);
    let b = chars_of(lit);
    if a.len() != b.len() {
        return false;
    }
    let mut i: usize = 0;
    while i < a.len()
        invariant
            a.len() == b.len(),
            0 <= i <= a.len(),
            a@ == s@,
            b@ == lit@,
            forall|j: int| 0 <= j < i ==> a@[j] == b@[j],
        decreases a.len() - i,
    {
        if a[i] != b[i] {
            return false;
        }
        i += 1;
    }
    assert(a@ =~= b@);
    true
}

/// Bounds of `c[lo..hi]` with its leading and trailing whitespace removed.
pub fn trim_bounds(c: &Vec<char>, lo: usize, hi: usize) -> (r: (usize, usize))
    requires
        lo <= hi <= c.len(),
    ensures
        lo <= r.0 <= r.1 <= hi,
        c@.subrange(r.0 as int, r.1 as int) == trimmed(c@.subrange(lo as int, hi as int)),
{
    let mut a = lo;
    while a < hi && white_space(c[a])
        invariant
            lo <= a <= hi <= c.len(),
            trim_start(c@.subrange(lo as int, hi as int)) == trim_start(
                c@.subrange(a as int, hi as int),
            ),
        decreases hi - a,
    {
        assert(c@.subrange(a as int, hi as int).drop_first() =~= c@.subrange(
            a + 1,
            hi as int,
        ));
        a += 1;
    }
    let mut b = hi;
    while b > a && white_space(c[b - 1])
        invariant
            lo <= a <= b <= hi <= c.len(),
            trimmed(c@.subrange(lo as int, hi as int)) == trim_end(
                c@.subrange(a as int, b as int),
            ),
        decreases b - a,
    {
        assert(c@.subrange(a as int, b as int).drop_last() =~= c@.subrange(
            a as int,
            b - 1,
        ));
        b -= 1;
    }
    (a, b)
}

/// Value of the digits `c[lo..hi]` when there is at least one, all are digits and
/// the value is at most `limit`.
fn digits_in(c: &Vec<char>, lo: usize, hi: usize, limit: u64) -> (r: Option<u64>)
    requires
        lo <= hi <= c.len(),
        limit <= 0x1_0000_0000,
    ensures
        r == (if bounded_digits(c@.subrange(lo as int, hi as int), limit as int) {
            Some(digits_value(c@.subrange(lo as int, hi as int)) as u64)
        } else {
            None::<u64>
        }),
        r matches Some(v) ==> v <= limit,
{
    let ghost s = c@.subrange(lo as int, hi as int);
    if lo == hi {
        return None;
    }
    let mut v: u64 = 0;
    let mut i = lo;
    while i < hi
        invariant
            lo <= i <= hi <= c.len(),
            s == c@.subrange(lo as int, hi as int),
            limit <= 0x1_0000_0000,
            s.take(i - lo) == c@.subrange(lo as int, i as int),
            all_digits(c@.subrange(lo as int, i as int)),
            v as int == digits_value(c@.subrange(lo as int, i as int)),
            v <= limit,
        decreases hi - i,
    {
        let ch = c[i];
        assert(c@.subrange(lo as int, i + 1).drop_last() =~= c@.subrange(lo as int, i as int));
        if !('0' <= ch && ch <= '9') {
            assert(s[i - lo] == ch);
            return None;
        }
        let d = (ch as u32 - '0' as u32) as u64;
        v = v * 10 + d;
        assert(s.take(i + 1 - lo) =~= c@.subrange(lo as int, i + 1));
        assert(all_digits(c@.subrange(lo as int, i + 1)));
        if v > limit {
            proof {
                if all_digits(s) {
                    lemma_digits_prefix(s, i + 1 - lo);
                }
            }
            return None;
        }
        i += 1;
    }
    assert(c@.subrange(lo as int, i as int) =~= s);
    Some(v)
}

/// Parses `c[lo..hi]` as an unsigned 32-bit decimal number.
pub fn u32_in(c: &Vec<char>, lo: usize, hi: usize) -> (r: Option<u32>)
    requires
        lo <= hi <= c.len(),
    ensures
        r == u32_of(c@.subrange(lo as int, hi as int)),
{
    let ghost s = c@.subrange(lo as int, hi as int);
    let start = if lo < hi && c[lo] == '+' {
        assert(s.drop_first() =~= c@.subrange(lo + 1, hi as int));
        lo + 1
    } else {
        lo
    };
    proof {
        lemma_digits_nonneg(c@.subrange(start as int, hi as int));
        if !(lo < hi && s[0] == '+') {
            assert(c@.subrange(start as int, hi as int) =~= s);
        }
    }
    match digits_in(c, start, hi, 0xffff_ffff) {
        Some(v) => Some(v as u32),
        None => None,
    }
}

/// Parses `c[lo..hi]` as a signed 32-bit decimal number.
pub fn i32_in(c: &Vec<char>, lo: usize, hi: usize) -> (r: Option<i32>)
    requires
        lo <= hi <= c.len(),
    ensures
        r == i32_of(c@.subrange(lo as int, hi as int)),
{
    let ghost s = c@.subrange(lo as int, hi as int);
    if lo < hi && c[lo] == '-' {
        assert(s.drop_first() =~= c@.subrange(lo + 1, hi as int));
        proof {
            lemma_digits_nonneg(c@.subrange(lo + 1, hi as int));
        }
        match digits_in(c, lo + 1, hi, 0x8000_0000) {
            Some(v) => Some((0 - (v as i64)) as i32),
            None => None,
        }
    } else {
        let start = if lo < hi && c[lo] == '+' {
            assert(s.drop_first() =~= c@.subrange(lo + 1, hi as int));
            lo + 1
        } else {
            lo
        };
        proof {
            lemma_digits_nonneg(c@.subrange(start as int, hi as int));
            if !(lo < hi && s[0] == '+') {
                assert(c@.subrange(start as int, hi as int) =~= s);
            }
        }
        match digits_in(c, start, hi, 0x7fff_ffff) {
            Some(v) => Some(v as i32),
            None => None,
        }
    }
}

/// Parses `s` as an unsigned 32-bit decimal number, as `str::parse::<u32>` reads it.
pub fn parse_u32(s: &str) -> (r: Option<u32>)
    ensures
        r == u32_of(s@),
{
    let c = chars_of(s);
    assert(c@.subrange(0, c@.len() as int) =~= c@);
    u32_in(&c, 0, c.len())
}

/// Parses `s` as a signed 32-bit decimal number, as `str::parse::<i32>` reads it.
pub fn parse_i32(s: &str) -> (r: Option<i32>)
    ensures
        r == i32_of(s@),
{
    let c = chars_of(s);
    assert(c@.subrange(0, c@.len() as int) =~= c@);
    i32_in(&c, 0, c.len())
}

} // verus!
