//! Texts: comparing, searching and reading numbers out of them.

use vstd::prelude::*;

verus! {

/// The characters of a text.
pub fn characters(s: &str) -> (v: Vec<char>)
    ensures
        v@ == s@,
{
    let n: usize = s.unicode_len();
    let mut v: Vec<char> = Vec::new();
    while v.len() < n
        invariant
            v@.len() <= n,
            n == s@.len(),
            v@ == s@.take(v@.len() as int),
        decreases n - v@.len(),
    {
        let i: usize = v.len();
        let c: char = s.get_char(i);
        proof {
            assert(s@.take(i + 1) =~= s@.take(i as int).push(c));
        }
        v.push(c);
    }
    proof {
        assert(s@.take(n as int) =~= s@);
    }
    v
}

/// The text `t` stands at position `i`.
pub open spec fn stands_at(s: Seq<char>, t: Seq<char>, i: int) -> bool {
    0 <= i && i + t.len() <= s.len() && s.subrange(i, i + t.len()) == t
}

/// The text `t` occurs.
pub open spec fn occurs(s: Seq<char>, t: Seq<char>) -> bool {
    exists|i: int| #[trigger] stands_at(s, t, i)
}

fn at(s: &Vec<char>, t: &Vec<char>, i: usize) -> (r: bool)
    requires
        i <= s@.len(),
    ensures
        r == stands_at(s@, t@, i as int),
{
    let len: usize = s.len();
    if t.len() > len - i {
        return false;
    }
    let mut k: usize = 0;
    while k < t.len()
        invariant
            k <= t@.len(),
            len == s@.len(),
            i + t@.len() <= s@.len(),
            forall|j: int| 0 <= j < k ==> s@[i + j] == #[trigger] t@[j],
        decreases t@.len() - k,
    {
        if s[i + k] != t[k] {
            proof {
                assert(s@.subrange(i as int, i + t@.len())[k as int] != t@[k as int]);
            }
            return false;
        }
        k = k + 1;
    }
    proof {
        assert(s@.subrange(i as int, i + t@.len()) =~= t@);
    }
    true
}

/// Whether the text `t` occurs in `s`.
pub fn contains(s: &str, t: &str) -> (r: bool)
    ensures
        r == occurs(s@, t@),
{
    let (a, b): (Vec<char>, Vec<char>) = (characters(s), characters(t));
    let mut i: usize = 0;
    while i < a.len()
        invariant
            i <= a@.len(),
            a@ == s@,
            b@ == t@,
            forall|j: int| 0 <= j < i ==> !#[trigger] stands_at(s@, t@, j),
        decreases a@.len() - i,
    {
        if at(&a, &b, i) {
            return true;
        }
        i = i + 1;
    }
    at(&a, &b, i)
}

/// Whether two texts are the same.
pub fn same(s: &str, t: &str) -> (r: bool)
    ensures
        r == (s@ == t@),
{
    let (a, b): (Vec<char>, Vec<char>) = (characters(s), characters(t));
    if a.len() != b.len() {
        return false;
    }
    let r: bool = at(&a, &b, 0);
    proof {
        assert(s@.subrange(0, t@.len() as int) =~= s@);
    }
    r
}

/// Whether a text begins with another.
pub fn begins(s: &str, t: &str) -> (r: bool)
    ensures
        r == stands_at(s@, t@, 0),
{
    let (a, b): (Vec<char>, Vec<char>) = (characters(s), characters(t));
    at(&a, &b, 0)
}

/// A text of these characters.
pub fn copy(s: &str) -> (out: String)
    ensures
        out@ == s@,
{
    String::from_str(s)
}

/// Why a text is not a number.
#[derive(Clone, Copy, Debug, PartialEq, Eq, Structural)]
pub enum NumberError {
    /// There is nothing to read.
    Empty,
    /// A character is no digit.
    InvalidDigit,
    /// The number is too large.
    TooLarge,
    /// The number is too small.
    TooSmall,
}

/// A decimal digit.
pub open spec fn is_digit(c: char) -> bool {
    '0' <= c <= '9'
}

/// The number that digits continue: from position `i` on, behind `n`, up or down.
pub open spec fn spec_digits(s: Seq<char>, i: int, n: int, negative: bool, low: int, high: int) -> core::result::Result<
    int,
    NumberError,
>
    decreases s.len() - i,
{
    if !(0 <= i < s.len()) {
        Ok(n)
    } else if !is_digit(s[i]) {
        Err(NumberError::InvalidDigit)
    } else {
        let d = s[i] as int - 48;
        let next = if negative {
            10 * n - d
        } else {
            10 * n + d
        };
        if next > high {
            Err(NumberError::TooLarge)
        } else if next < low {
            Err(NumberError::TooSmall)
        } else {
            spec_digits(s, i + 1, next, negative, low, high)
        }
    }
}

/// The number that a text writes: digits, behind a `+` or, where numbers below zero are allowed, a
/// `-`.
pub open spec fn spec_number(s: Seq<char>, low: int, high: int) -> core::result::Result<int, NumberError> {
    if s.len() == 0 {
        Err(NumberError::Empty)
    } else if s.len() == 1 && (s[0] == '+' || s[0] == '-') {
        Err(NumberError::InvalidDigit)
    } else if s[0] == '+' {
        spec_digits(s, 1, 0, false, low, high)
    } else if s[0] == '-' && low < 0 {
        spec_digits(s, 1, 0, true, low, high)
    } else {
        spec_digits(s, 0, 0, false, low, high)
    }
}

/// The number that a text writes, between `low` and `high`.
pub fn number(s: &str, low: i128, high: i128) -> (r: core::result::Result<i128, NumberError>)
    requires
        -0x1_0000_0000 <= low <= 0,
        0 <= high <= 0xffff_ffff_ffff_ffff,
    ensures
        match spec_number(s@, low as int, high as int) {
            Ok(n) => r matches Ok(v) && v == n,
            Err(e) => r == Err::<i128, NumberError>(e),
        },
{
    let c: Vec<char> = characters(s);
    if c.len() == 0 {
        return Err(NumberError::Empty);
    }
    if c.len() == 1 && (c[0] == '+' || c[0] == '-') {
        return Err(NumberError::InvalidDigit);
    }
    let negative: bool = c[0] == '-' && low < 0;
    let mut i: usize = if c[0] == '+' || negative { 1 } else { 0 };
    let mut n: i128 = 0;
    while i < c.len()
        invariant
            i <= c@.len(),
            c@ == s@,
            -0x1_0000_0000 <= low <= 0,
            0 <= high <= 0xffff_ffff_ffff_ffff,
            low <= n <= high,
            spec_number(s@, low as int, high as int) == spec_digits(
                s@,
                i as int,
                n as int,
                negative,
                low as int,
                high as int,
            ),
        decreases c@.len() - i,
    {
        let d: char = c[i];
        if d < '0' || d > '9' {
            return Err(NumberError::InvalidDigit);
        }
        let v: i128 = (d as u32 - 48) as i128;
        let next: i128 = if negative { 10 * n - v } else { 10 * n + v };
        if next > high {
            return Err(NumberError::TooLarge);
        }
        if next < low {
            return Err(NumberError::TooSmall);
        }
        n = next;
        i = i + 1;
    }
    Ok(n)
}

/// A text before and behind the first `sep`.
pub fn split_once(s: &str, sep: char) -> (r: Option<(String, String)>)
    ensures
        match r {
            Some((a, b)) => s@ == a@ + seq![sep] + b@ && !a@.contains(sep),
            None => !s@.contains(sep),
        },
{
    let n: usize = s.unicode_len();
    let mut i: usize = 0;
    while i < n
        invariant
            i <= n,
            n == s@.len(),
            forall|j: int| 0 <= j < i ==> #[trigger] s@[j] != sep,
        decreases n - i,
    {
        if s.get_char(i) == sep {
            let (a, b): (String, String) = (
                String::from_str(s.substring_char(0, i)),
                String::from_str(s.substring_char(i + 1, n)),
            );
            proof {
                assert(a@ + seq![sep] + b@ =~= s@);
            }
            return Some((a, b));
        }
        i = i + 1;
    }
    None
}

/// A number that is read lies between its bounds.
pub proof fn lemma_number_within(s: Seq<char>, low: int, high: int)
    requires
        low <= 0 <= high,
    ensures
        spec_number(s, low, high) matches Ok(n) ==> low <= n <= high,
{
    lemma_digits_within(s, 0, 0, false, low, high);
    lemma_digits_within(s, 1, 0, false, low, high);
    lemma_digits_within(s, 1, 0, true, low, high);
}

proof fn lemma_digits_within(s: Seq<char>, i: int, n: int, negative: bool, low: int, high: int)
    requires
        low <= n <= high,
    ensures
        spec_digits(s, i, n, negative, low, high) matches Ok(v) ==> low <= v <= high,
    decreases s.len() - i,
{
    if 0 <= i < s.len() && is_digit(s[i]) {
        let d = s[i] as int - 48;
        let next = if negative {
            10 * n - d
        } else {
            10 * n + d
        };
        if low <= next <= high {
            lemma_digits_within(s, i + 1, next, negative, low, high);
        }
    }
}

} // verus!
