//! Numbers and names, the command line, and how errors are classed.

use vstd::prelude::*;
use vstd::arithmetic::power;

use crate::cli;
use crate::cli::{ArgErrorView, ArgsView, Command, CommandError};
use crate::codec;
use crate::codec::{ErrorCategory, LimitKind};
use crate::encoder::yuv;
use crate::error::Error;
use crate::header::OperatingPoint;
use crate::text;
use crate::text::NumberError;

verus! {

/// A character is one of the ten digits.
pub open spec fn digit(c: char) -> bool {
    48 <= c as int <= 57
}

/// All of `s[from..to]` are digits.
pub open spec fn digits(s: Seq<char>, from: int, to: int) -> bool {
    forall|i: int| from <= i < to ==> digit(#[trigger] s[i])
}

/// What the digits `s[from..to]` write in base ten.
pub open spec fn value(s: Seq<char>, from: int, to: int) -> int
    decreases to - from,
{
    if to <= from {
        0
    } else {
        (s[from] as int - 48) * power::pow(10, (to - from - 1) as nat) + value(s, from + 1, to)
    }
}

/// A number grows tenfold with every digit that is appended.
proof fn lemma_value_appended(s: Seq<char>, from: int, to: int)
    requires
        from < to,
    ensures
        value(s, from, to) == 10 * value(s, from, to - 1) + (s[to - 1] as int - 48),
    decreases to - from,
{
    if from + 1 < to {
        lemma_value_appended(s, from + 1, to);
        let (d, p, q) = (
            s[from] as int - 48,
            power::pow(10, (to - from - 1) as nat),
            power::pow(10, (to - from - 2) as nat),
        );
        power::lemma_pow_adds(10, 1, (to - from - 2) as nat);
        power::lemma_pow1(10);
        assert(p == 10 * q);
        assert(d * p == 10 * (d * q)) by (nonlinear_arith)
            requires
                p == 10 * q,
        ;
    } else {
        power::lemma_pow0(10);
        assert(value(s, from + 1, to) == 0);
        assert(value(s, from, to - 1) == 0);
    }
}

proof fn lemma_value_grows(s: Seq<char>, from: int, mid: int, to: int)
    requires
        from <= mid <= to,
        digits(s, from, to),
    ensures
        0 <= value(s, from, mid) <= value(s, from, to),
    decreases to - from,
{
    if from < to {
        assert(digit(s[to - 1]));
        lemma_value_appended(s, from, to);
        if mid < to {
            lemma_value_grows(s, from, mid, to - 1);
        } else {
            lemma_value_grows(s, from, from, to - 1);
        }
    }
}

proof fn lemma_digits_read(
    s: Seq<char>,
    k: int,
    i: int,
    negative: bool,
    low: int,
    high: int,
)
    requires
        0 <= k <= i <= s.len(),
        digits(s, k, i),
        low <= 0 <= high,
        negative ==> -value(s, k, i) >= low,
        !negative ==> value(s, k, i) <= high,
    ensures
        ({
            let sign: int = if negative {
                -1
            } else {
                1
            };
            let r = text::spec_digits(s, i, sign * value(s, k, i), negative, low, high);
            let n = sign * value(s, k, s.len() as int);
            &&& r matches Ok(v) ==> digits(s, k, s.len() as int) && v == n
            &&& digits(s, k, s.len() as int) && low <= n <= high ==> r == Ok::<int, NumberError>(n)
            &&& digits(s, k, s.len() as int) && n > high ==> r == Err::<int, NumberError>(
                NumberError::TooLarge,
            )
            &&& digits(s, k, s.len() as int) && n < low ==> r == Err::<int, NumberError>(
                NumberError::TooSmall,
            )
        }),
    decreases s.len() - i,
{
    let len = s.len() as int;
    lemma_value_grows(s, k, k, i);
    if i < len {
        if digit(s[i]) {
            lemma_value_appended(s, k, i + 1);
            lemma_value_grows(s, k, k, i + 1);
            assert(digits(s, k, i + 1));
            let next = value(s, k, i + 1);
            if (negative && -next >= low) || (!negative && next <= high) {
                lemma_digits_read(s, k, i + 1, negative, low, high);
            }
            if digits(s, k, len) {
                lemma_value_grows(s, k, i + 1, len);
            }
            let (v, d) = (value(s, k, i), s[i] as int - 48);
            assert(1 * v == v && -1 * v == -v);
            assert(1 * value(s, k, i + 1) == 10 * (1 * v) + d);
            assert(-1 * value(s, k, i + 1) == 10 * (-1 * v) - d);
        } else {
            assert(!digits(s, k, len));
        }
    }
}

/// A text of digits is read as the number that they write in base ten, whatever stands before it as
/// a sign, and is refused where that number is out of bounds.
pub proof fn law_numbers_are_read_in_base_ten(s: Seq<char>, low: int, high: int)
    requires
        low <= 0 <= high,
        s.len() > 0,
        digits(s, 0, s.len() as int),
    ensures
        ({
            let n = value(s, 0, s.len() as int);
            let plus = seq!['+'] + s;
            let minus = seq!['-'] + s;
            &&& 0 <= n
            &&& text::spec_number(s, low, high) == if n <= high {
                Ok::<int, NumberError>(n)
            } else {
                Err::<int, NumberError>(NumberError::TooLarge)
            }
            &&& text::spec_number(plus, low, high) == text::spec_number(s, low, high)
            &&& low < 0 ==> text::spec_number(minus, low, high) == if -n >= low {
                Ok::<int, NumberError>(-n)
            } else {
                Err::<int, NumberError>(NumberError::TooSmall)
            }
            &&& low == 0 ==> text::spec_number(minus, low, high) is Err
        }),
{
    let len = s.len() as int;
    let (plus, minus) = (seq!['+'] + s, seq!['-'] + s);
    lemma_value_grows(s, 0, 0, len);
    assert(digit(s[0]));
    assert(plus[0] == '+' && minus[0] == '-');
    lemma_digits_read(s, 0, 0, false, low, high);
    assert forall|i: int| 1 <= i < len + 1 implies digit(#[trigger] plus[i]) && digit(
        minus[i],
    ) by {
        assert(digit(s[i - 1]));
        assert(plus[i] == s[i - 1] && minus[i] == s[i - 1]);
    }
    assert forall|i: int| 1 <= i < len + 1 implies digit(#[trigger] minus[i]) by {
        assert(minus[i] == s[i - 1]);
        assert(digit(s[i - 1]));
    }
    lemma_digits_read(plus, 1, 1, false, low, high);
    lemma_digits_read(minus, 1, 1, true, low, high);
    lemma_value_shifted(s, plus, 0, len);
    lemma_value_shifted(s, minus, 0, len);
    if low == 0 {
        assert(!digit(minus[0]));
    }
}

proof fn lemma_value_shifted(s: Seq<char>, t: Seq<char>, from: int, to: int)
    requires
        0 <= from <= to <= s.len(),
        t.len() == s.len() + 1,
        forall|i: int| 0 <= i < s.len() ==> t[i + 1] == #[trigger] s[i],
    ensures
        value(t, from + 1, to + 1) == value(s, from, to),
    decreases to - from,
{
    if from < to {
        assert(t[from + 1] == s[from]);
        lemma_value_shifted(s, t, from + 1, to);
    }
}

/// Whatever is read as a number is digits, behind a sign or none.
pub proof fn law_only_digits_are_numbers(s: Seq<char>, low: int, high: int)
    requires
        low <= 0 <= high,
        text::spec_number(s, low, high) is Ok,
    ensures
        s.len() > 0,
        digits(s, 1, s.len() as int),
        digit(s[0]) || (s.len() > 1 && (s[0] == '+' || (s[0] == '-' && low < 0))),
{
    lemma_digits_read(s, 0, 0, false, low, high);
    lemma_digits_read(s, 1, 1, false, low, high);
    lemma_digits_read(s, 1, 1, true, low, high);
}

/// A byte is one of the ten digits.
pub open spec fn byte_digit(b: u8) -> bool {
    48 <= b <= 57
}

/// The number that bytes write is in base ten: the first digit counts for as many tens as digits
/// follow.
pub proof fn law_bytes_write_base_ten(b: Seq<u8>, from: int, to: int)
    requires
        from < to,
    ensures
        yuv::number(b, from, to) == (b[from] - 48) * power::pow(10, (to - from - 1) as nat)
            + yuv::number(b, from + 1, to),
        to == from + 1 ==> yuv::number(b, from, to) == b[from] - 48,
    decreases to - from,
{
    if from + 1 < to {
        law_bytes_write_base_ten(b, from, to - 1);
        let (d, p, q) = (
            b[from] - 48,
            power::pow(10, (to - from - 1) as nat),
            power::pow(10, (to - from - 2) as nat),
        );
        power::lemma_pow_adds(10, 1, (to - from - 2) as nat);
        power::lemma_pow1(10);
        assert(d * p == 10 * (d * q)) by (nonlinear_arith)
            requires
                p == 10 * q,
        ;
    } else {
        power::lemma_pow0(10);
        assert(yuv::number(b, from, from) == 0);
        assert(yuv::number(b, to, to) == 0);
    }
}

proof fn lemma_run_start(b: Seq<u8>, end: int)
    requires
        0 <= end <= b.len(),
    ensures
        0 <= yuv::run_start(b, end) <= end,
        forall|k: int| yuv::run_start(b, end) <= k < end ==> byte_digit(#[trigger] b[k]),
        yuv::run_start(b, end) > 0 ==> !byte_digit(b[yuv::run_start(b, end) - 1]),
    decreases end,
{
    if 0 < end && byte_digit(b[end - 1]) {
        lemma_run_start(b, end - 1);
    }
}

proof fn lemma_run_end(b: Seq<u8>, start: int)
    requires
        0 <= start <= b.len(),
    ensures
        start <= yuv::run_end(b, start) <= b.len(),
        forall|k: int| start <= k < yuv::run_end(b, start) ==> byte_digit(#[trigger] b[k]),
        yuv::run_end(b, start) < b.len() ==> !byte_digit(b[yuv::run_end(b, start)]),
    decreases b.len() - start,
{
    if start < b.len() && byte_digit(b[start]) {
        lemma_run_end(b, start + 1);
    }
}

/// `<digits>x<digits>` stands around position `i`, with all the digits that there are.
pub open spec fn size_at(b: Seq<u8>, from: int, i: int, to: int) -> bool {
    &&& 0 <= from < i && i + 1 < to <= b.len()
    &&& b[i] == 120
    &&& forall|k: int| from <= k < i || i < k < to ==> byte_digit(#[trigger] b[k])
    &&& from > 0 ==> !byte_digit(b[from - 1])
    &&& to < b.len() ==> !byte_digit(b[to])
}

proof fn lemma_size_at(b: Seq<u8>, i: int, from: int, to: int)
    requires
        size_at(b, from, i, to),
    ensures
        yuv::run_start(b, i) == from,
        yuv::run_end(b, i + 1) == to,
{
    lemma_run_start(b, i);
    lemma_run_end(b, i + 1);
    let (f, t) = (yuv::run_start(b, i), yuv::run_end(b, i + 1));
    if f < from {
        assert(byte_digit(b[from - 1]));
    }
    if f > from {
        assert(byte_digit(b[f - 1]));
    }
    if t > to {
        assert(byte_digit(b[to]));
    }
    if t < to {
        assert(byte_digit(b[t]));
    }
}

proof fn lemma_dims_from(b: Seq<u8>, i: int)
    requires
        0 <= i <= b.len(),
    ensures
        match yuv::spec_find_dims(b, i) {
            Some((w, h)) => exists|k: int|
                i <= k < b.len() && #[trigger] yuv::dims_at(b, k) == Some((w, h)) && forall|j: int|
                    i <= j < k ==> (#[trigger] yuv::dims_at(b, j)) is None,
            None => forall|j: int| i <= j < b.len() ==> (#[trigger] yuv::dims_at(b, j)) is None,
        },
    decreases b.len() - i,
{
    if i < b.len() {
        if yuv::dims_at(b, i) is None {
            lemma_dims_from(b, i + 1);
            if let Some((w, h)) = yuv::spec_find_dims(b, i + 1) {
                let k = choose|k: int|
                    i + 1 <= k < b.len() && #[trigger] yuv::dims_at(b, k) == Some((w, h))
                        && forall|j: int|
                        i + 1 <= j < k ==> (#[trigger] yuv::dims_at(b, j)) is None;
                assert(yuv::dims_at(b, k) == Some((w, h)));
            }
        } else {
            let (w, h) = yuv::dims_at(b, i)->0;
            assert(yuv::dims_at(b, i) == Some((w, h)));
        }
    }
}

/// The size of a picture is the first `<digits>x<digits>` of its name, width before height, with
/// all the digits that there are on either side.
pub proof fn law_sizes_are_found(b: Seq<u8>, w: int, h: int)
    requires
        yuv::spec_find_dims(b, 0) == Some((w, h)),
    ensures
        exists|from: int, i: int, to: int|
            #[trigger] size_at(b, from, i, to) && w == yuv::number(b, from, i) && h == yuv::number(
                b,
                i + 1,
                to,
            ) && forall|f: int, j: int, t: int|
                j < i && #[trigger] size_at(b, f, j, t) ==> yuv::number(b, f, j) > usize::MAX
                    || yuv::number(b, j + 1, t) > usize::MAX,
{
    lemma_dims_from(b, 0);
    let k = choose|k: int|
        0 <= k < b.len() && #[trigger] yuv::dims_at(b, k) == Some((w, h)) && forall|j: int|
            0 <= j < k ==> (#[trigger] yuv::dims_at(b, j)) is None;
    assert(yuv::dims_at(b, k) == Some((w, h)));
    lemma_run_start(b, k);
    lemma_run_end(b, k + 1);
    let (from, to) = (yuv::run_start(b, k), yuv::run_end(b, k + 1));
    assert(size_at(b, from, k, to));
    assert forall|f: int, j: int, t: int| j < k && #[trigger] size_at(b, f, j, t) implies
        yuv::number(b, f, j) > usize::MAX || yuv::number(b, j + 1, t) > usize::MAX by {
        lemma_size_at(b, j, f, t);
        assert(yuv::dims_at(b, j) is None);
    }
}

/// A name with a size that fits is never without one.
pub proof fn law_sizes_are_not_missed(b: Seq<u8>, from: int, i: int, to: int)
    requires
        size_at(b, from, i, to),
        yuv::number(b, from, i) <= usize::MAX,
        yuv::number(b, i + 1, to) <= usize::MAX,
    ensures
        yuv::spec_find_dims(b, 0) is Some,
{
    lemma_size_at(b, i, from, to);
    lemma_dims_from(b, 0);
    assert(yuv::dims_at(b, i) is Some);
}

/// `<digits>bit` stands with the letter `b` at position `i`.
pub open spec fn depth_at(b: Seq<u8>, from: int, i: int) -> bool {
    &&& 0 <= from < i && i + 3 <= b.len()
    &&& b[i] == 98 && b[i + 1] == 105 && b[i + 2] == 116
    &&& forall|k: int| from <= k < i ==> byte_digit(#[trigger] b[k])
    &&& from > 0 ==> !byte_digit(b[from - 1])
}

proof fn lemma_depth_at(b: Seq<u8>, i: int)
    requires
        0 <= i < b.len(),
    ensures
        yuv::stands_at(b, seq![98u8, 105u8, 116u8], i) && yuv::run_start(b, i) < i <==> exists|
            from: int,
        | #[trigger] depth_at(b, from, i),
        forall|from: int| #[trigger] depth_at(b, from, i) ==> from == yuv::run_start(b, i),
{
    let t = seq![98u8, 105u8, 116u8];
    lemma_run_start(b, i);
    let f = yuv::run_start(b, i);
    if yuv::stands_at(b, t, i) && f < i {
        let part = b.subrange(i, i + 3);
        assert(part[0] == 98 && part[1] == 105 && part[2] == 116);
        assert(depth_at(b, f, i));
    }
    assert forall|from: int| #[trigger] depth_at(b, from, i) implies from == f && yuv::stands_at(
        b,
        t,
        i,
    ) by {
        assert(b.subrange(i, i + 3) =~= t);
        if f < from {
            assert(byte_digit(b[from - 1]));
        }
        if f > from {
            assert(byte_digit(b[f - 1]));
        }
    }
}

/// The bit depth of a picture is the first `<digits>bit` of its name; there is none where no such
/// text stands in the name, or its number is above 255.
pub proof fn law_depths_are_found(b: Seq<u8>, i: int)
    requires
        0 <= i <= b.len(),
    ensures
        match yuv::spec_find_bits(b, i) {
            Some(n) => exists|from: int, k: int|
                #[trigger] depth_at(b, from, k) && i <= k && n == yuv::number(b, from, k) && 0 <= n
                    <= 255 && forall|f: int, j: int|
                    i <= j < k ==> !#[trigger] depth_at(b, f, j),
            None => forall|from: int, k: int|
                #[trigger] depth_at(b, from, k) && i <= k && (forall|f: int, j: int|
                    i <= j < k ==> !#[trigger] depth_at(b, f, j)) ==> yuv::number(b, from, k) > 255,
        },
    decreases b.len() - i,
{
    if i < b.len() {
        lemma_depth_at(b, i);
        lemma_run_start(b, i);
        let f = yuv::run_start(b, i);
        if yuv::stands_at(b, seq![98u8, 105u8, 116u8], i) && f < i {
            assert(depth_at(b, f, i));
            lemma_bytes_value(b, f, i);
            if yuv::spec_find_bits(b, i) is None {
                assert forall|from: int, k: int|
                    #[trigger] depth_at(b, from, k) && i <= k && (forall|f: int, j: int|
                        i <= j < k ==> !#[trigger] depth_at(b, f, j)) implies yuv::number(b, from, k)
                    > 255 by {
                    if i < k {
                        assert(!depth_at(b, f, i));
                    }
                }
            }
        } else {
            law_depths_are_found(b, i + 1);
            match yuv::spec_find_bits(b, i + 1) {
                Some(n) => {
                    let (from, k) = choose|from: int, k: int|
                        #[trigger] depth_at(b, from, k) && i + 1 <= k && n == yuv::number(b, from, k)
                            && 0 <= n <= 255 && forall|f: int, j: int|
                            i + 1 <= j < k ==> !#[trigger] depth_at(b, f, j);
                    assert(depth_at(b, from, k));
                    assert forall|f: int, j: int| i <= j < k implies !#[trigger] depth_at(
                        b,
                        f,
                        j,
                    ) by {}
                },
                None => {
                    assert forall|from: int, k: int|
                        #[trigger] depth_at(b, from, k) && i <= k && (forall|f: int, j: int|
                            i <= j < k ==> !#[trigger] depth_at(b, f, j)) implies yuv::number(
                        b,
                        from,
                        k,
                    ) > 255 by {
                        if i == k {
                            assert(depth_at(b, from, i));
                        }
                    }
                },
            }
        }
    }
}

proof fn lemma_bytes_value(b: Seq<u8>, from: int, to: int)
    requires
        forall|k: int| from <= k < to ==> byte_digit(#[trigger] b[k]),
    ensures
        0 <= yuv::number(b, from, to),
    decreases to - from,
{
    if from < to {
        assert(byte_digit(b[to - 1]));
        lemma_bytes_value(b, from, to - 1);
    }
}

/// A picture is read only where the file holds all of its samples, of one byte up to 8 bit and of
/// two above, and only with 1 to 16 bit.
pub proof fn law_read_files_hold_their_planes(name: Seq<u8>, len: int, l: yuv::YuvLayout)
    requires
        yuv::spec_layout(name, len) == Ok::<yuv::YuvLayout, Error>(l),
    ensures
        1 <= l.bit_depth <= 16,
        l.bit_depth <= 8 ==> l.width * l.height + 2 * (l.chroma_width * l.chroma_height) <= len,
        l.bit_depth > 8 ==> 2 * (l.width * l.height + 2 * (l.chroma_width * l.chroma_height))
            <= len,
        yuv::spec_find_dims(name, 0) == Some((l.width, l.height)),
        l.bit_depth == match yuv::spec_find_bits(name, 0) {
            Some(n) => n,
            None => 8,
        },
{
    law_depths_are_found(name, 0);
    let n = l.width * l.height + 2 * (l.chroma_width * l.chroma_height);
    assert(n * 1 == n && n * 2 == 2 * n);
}

/// A file that is long enough, of 1 to 16 bit and with a chroma format, is read.
pub proof fn law_whole_files_are_read(name: Seq<u8>, len: int, w: int, h: int, cw: int, ch: int)
    requires
        yuv::spec_find_dims(name, 0) == Some((w, h)),
        yuv::spec_chroma_size(name, w, h) == Some((cw, ch)),
        yuv::spec_find_bits(name, 0) matches Some(n) ==> 1 <= n <= 16,
        0 <= len,
        2 * (w * h + 2 * (cw * ch)) <= len || (w * h + 2 * (cw * ch) <= len && (
        yuv::spec_find_bits(name, 0) matches Some(n) ==> n <= 8)),
    ensures
        yuv::spec_layout(name, len) is Ok,
{
    let n = w * h + 2 * (cw * ch);
    assert(n * 1 == n && n * 2 == 2 * n);
    let l = yuv::YuvLayout {
        width: w,
        height: h,
        chroma_width: cw,
        chroma_height: ch,
        bit_depth: match yuv::spec_find_bits(name, 0) {
            Some(n) => n,
            None => 8,
        },
    };
    assert(l.samples() == n);
}

/// The file name of a path is what stands behind its last separator.
pub proof fn law_file_names_have_no_separator(path: Seq<u8>, i: int)
    requires
        0 <= i <= path.len(),
    ensures
        ({
            let at = yuv::name_start(path, i);
            &&& 0 <= at <= i
            &&& at > 0 ==> path[at - 1] == 47 || path[at - 1] == 92
            &&& forall|k: int| at <= k < i ==> #[trigger] path[k] != 47 && path[k] != 92
        }),
    decreases i,
{
    if i > 0 && path[i - 1] != 47 && path[i - 1] != 92 {
        law_file_names_have_no_separator(path, i - 1);
    }
}

/// Raw planes are written to names that end in `.yuv`, in capitals or not.
pub proof fn law_raw_names(stem: Seq<char>, dot: char, y: char, u: char, v: char)
    ensures
        cli::spec_names_yuv(stem + seq![dot, y, u, v]) <==> dot == '.' && (y == 'y' || y == 'Y') && (
        u == 'u' || u == 'U') && (v == 'v' || v == 'V'),
        stem.len() < 4 ==> !cli::spec_names_yuv(stem),
{
    let name = stem + seq![dot, y, u, v];
    let n = name.len() as int;
    assert(name[n - 4] == dot && name[n - 3] == y && name[n - 2] == u && name[n - 1] == v);
    if cli::spec_names_yuv(name) {
        lemma_lower(y, 'y');
        lemma_lower(u, 'u');
        lemma_lower(v, 'v');
    }
}

proof fn lemma_lower(c: char, l: char)
    requires
        'a' <= l <= 'z',
        cli::lower(c) == l,
    ensures
        c == l || c as int + 32 == l as int,
{
}

/// An option that takes a value sets its own setting and leaves every other as it was.
pub proof fn law_options_set_their_own(a: ArgsView, v: Seq<char>)
    ensures
        cli::with_value(a, "--models"@, v) == Ok::<ArgsView, ArgErrorView>(
            ArgsView { models: Some(v), ..a },
        ),
        cli::with_value(a, "--out"@, v) == Ok::<ArgsView, ArgErrorView>(
            ArgsView { out: Some(v), ..a },
        ),
        cli::with_value(a, "--op"@, v) matches Ok(b) ==> b.op is Some && b == (ArgsView {
            op: b.op,
            ops: a.ops.push(b.op->0),
            ..a
        }),
        cli::with_value(a, "--model"@, v) matches Ok(b) ==> exists|n: usize|
            n < 4 && text::spec_number(v, 0, usize::MAX as int) == Ok::<int, NumberError>(n as int)
                && b == (ArgsView { model_ids: #[trigger] a.model_ids.push(n), ..a }),
        cli::with_value(a, "--only"@, v) matches Ok(b) ==> b == (ArgsView { only: Some(v), ..a })
            && (v == "common"@ || v == "synthesis"@),
        cli::with_value(a, "--beta-disp"@, v) matches Ok(b) ==> b == (ArgsView {
            beta_disp: b.beta_disp,
            ..a
        }) && text::spec_number(v, -0x8000_0000, 0x7fff_ffff) == Ok::<int, NumberError>(
            b.beta_disp as int,
        ),
        cli::with_value(a, "--repeat"@, v) matches Ok(b) ==> b == (ArgsView {
            repeat: b.repeat,
            time: true,
            ..a
        }) && text::spec_number(v, 0, usize::MAX as int) == Ok::<int, NumberError>(
            b.repeat as int,
        ),
        cli::with_value(a, "--pool-mb"@, v) matches Ok(b) ==> b.pool_mb is Some && b == (ArgsView {
            pool_mb: b.pool_mb,
            ..a
        }) && text::spec_number(v, 0, usize::MAX as int) == Ok::<int, NumberError>(
            b.pool_mb->0 as int,
        ),
{
    reveal_options();
    text::lemma_number_within(v, 0, usize::MAX as int);
    text::lemma_number_within(v, i32::MIN as int, i32::MAX as int);
    if let Ok(b) = cli::with_value(a, "--model"@, v) {
        let n = text::spec_number(v, 0, usize::MAX as int)->Ok_0 as usize;
        assert(b == (ArgsView { model_ids: a.model_ids.push(n), ..a }));
    }
}

proof fn reveal_options()
    ensures
        "--models"@.len() == 8 && "--models"@[2] == 'm',
        "--op"@.len() == 4,
        "--model"@.len() == 7,
        "--only"@.len() == 6,
        "--out"@.len() == 5,
        "--beta-disp"@.len() == 11,
        "--max-channels"@.len() == 14,
        "--repeat"@.len() == 8 && "--repeat"@[2] == 'r',
        "--pool-mb"@.len() == 9,
{
    reveal_strlit("--models");
    reveal_strlit("--op");
    reveal_strlit("--model");
    reveal_strlit("--only");
    reveal_strlit("--out");
    reveal_strlit("--beta-disp");
    reveal_strlit("--max-channels");
    reveal_strlit("--repeat");
    reveal_strlit("--pool-mb");
}

/// The operating points are named `sop`, `bop` and `hop`.
pub proof fn law_operating_points_are_named(v: Seq<char>)
    ensures
        v == "sop"@ <==> cli::spec_op(v) == Some(OperatingPoint::Sop),
        v == "bop"@ <==> cli::spec_op(v) == Some(OperatingPoint::Bop),
        v == "hop"@ <==> cli::spec_op(v) == Some(OperatingPoint::Hop),
{
    reveal_strlit("sop");
    reveal_strlit("bop");
    reveal_strlit("hop");
    assert("sop"@[0] == 's' && "bop"@[0] == 'b' && "hop"@[0] == 'h');
}

/// A pair of channel counts is luma's, a comma, and chroma's.
pub proof fn law_channel_pairs(a: ArgsView, y: Seq<char>, uv: Seq<char>)
    requires
        !y.contains(','),
    ensures
        ({
            let v = y + seq![','] + uv;
            match (text::spec_number(y, 0, 0xffff), text::spec_number(uv, 0, 0xffff)) {
                (Ok(m), Ok(n)) => cli::with_value(a, "--max-channels"@, v) == Ok::<
                    ArgsView,
                    ArgErrorView,
                >(ArgsView { max_channels: (Some(m as u16), Some(n as u16)), ..a }),
                _ => cli::with_value(a, "--max-channels"@, v) is Err,
            }
        }),
{
    reveal_options();
    let v = y + seq![','] + uv;
    assert(v[y.len() as int] == ',');
    assert(v.take(y.len() as int) =~= y);
    lemma_comma(v, 0, y.len() as int, y);
    assert(v.take(y.len() as int) =~= y);
    assert(v.skip(y.len() as int + 1) =~= uv);
}

proof fn lemma_comma(v: Seq<char>, from: int, at: int, y: Seq<char>)
    requires
        0 <= from <= at < v.len(),
        at == y.len(),
        v[at] == ',',
        v.take(at) == y,
        !y.contains(','),
    ensures
        cli::comma(v, from) == Some(at),
    decreases at - from,
{
    if from < at {
        assert(v.take(at)[from] == v[from]);
        assert(y[from] != ',');
        lemma_comma(v, from + 1, at, y);
    }
}

/// A flag switches its own setting on and leaves every other as it was; what begins with two
/// hyphens and is no option is refused, and anything else is a path.
pub proof fn law_flags_switch_their_own(a: ArgsView, arg: Seq<char>)
    ensures
        cli::with_flag(a, "--single-thread"@) == Ok::<ArgsView, ArgErrorView>(
            ArgsView { single_thread: true, ..a },
        ),
        cli::with_flag(a, "--scalar"@) == Ok::<ArgsView, ArgErrorView>(
            ArgsView { scalar: true, ..a },
        ),
        cli::with_flag(a, "--time"@) == Ok::<ArgsView, ArgErrorView>(ArgsView { time: true, ..a }),
        cli::with_flag(a, "--discard"@) == Ok::<ArgsView, ArgErrorView>(
            ArgsView { discard: true, ..a },
        ),
        cli::with_flag(a, "-h"@) == Err::<ArgsView, ArgErrorView>(ArgErrorView::Help),
        cli::with_flag(a, "--help"@) == Err::<ArgsView, ArgErrorView>(ArgErrorView::Help),
        arg != "-h"@ && !(arg.len() >= 2 && arg[0] == '-' && arg[1] == '-') ==> cli::with_flag(
            a,
            arg,
        ) == Ok::<ArgsView, ArgErrorView>(ArgsView { positional: a.positional.push(arg), ..a }),
{
    reveal_strlit("--single-thread");
    reveal_strlit("--scalar");
    reveal_strlit("--time");
    reveal_strlit("--discard");
    reveal_strlit("-h");
    reveal_strlit("--help");
    reveal_strlit("--");
    assert("--scalar"@.len() == 8 && "--time"@.len() == 6 && "--discard"@.len() == 9);
    assert("--help"@.len() == 6 && "--help"@[2] == 'h' && "--time"@[2] == 't');
    assert("--single-thread"@.len() == 15 && "-h"@.len() == 2);
    if text::stands_at(arg, "--"@, 0) {
        let part = arg.subrange(0, 2);
        assert(part[0] == '-' && part[1] == '-');
        assert(arg[0] == '-' && arg[1] == '-');
    }
    if arg == "--single-thread"@ || arg == "--scalar"@ || arg == "--time"@ || arg == "--discard"@
        || arg == "--help"@ {
        assert(arg[0] == '-' && arg[1] == '-');
    }
}

/// A command line is read from its first word to its last: each option with its value, each other
/// word alone, and the first error ends it.
pub proof fn law_words_are_read_in_order(args: Seq<Seq<char>>, a: ArgsView)
    ensures
        args.len() == 0 ==> cli::spec_parse(args, 0, a) == Ok::<ArgsView, ArgErrorView>(a),
        args.len() == 1 && cli::takes_value(args[0]) ==> cli::spec_parse(args, 0, a) == Err::<
            ArgsView,
            ArgErrorView,
        >(ArgErrorView::NeedsValue(args[0])),
        args.len() >= 2 && cli::takes_value(args[0]) ==> match cli::with_value(
            a,
            args[0],
            args[1],
        ) {
            Ok(b) => cli::spec_parse(args, 0, a) == cli::spec_parse(args.skip(2), 0, b),
            Err(e) => cli::spec_parse(args, 0, a) == Err::<ArgsView, ArgErrorView>(e),
        },
        args.len() >= 1 && !cli::takes_value(args[0]) ==> match cli::with_flag(a, args[0]) {
            Ok(b) => cli::spec_parse(args, 0, a) == cli::spec_parse(args.skip(1), 0, b),
            Err(e) => cli::spec_parse(args, 0, a) == Err::<ArgsView, ArgErrorView>(e),
        },
{
    if args.len() >= 1 {
        if cli::takes_value(args[0]) {
            if args.len() >= 2 {
                if let Ok(b) = cli::with_value(a, args[0], args[1]) {
                    lemma_parse_skip(args, 2, 0, b);
                }
            }
        } else if let Ok(b) = cli::with_flag(a, args[0]) {
            lemma_parse_skip(args, 1, 0, b);
        }
    }
}

proof fn lemma_parse_skip(args: Seq<Seq<char>>, n: int, i: int, a: ArgsView)
    requires
        0 <= n <= args.len(),
        0 <= i,
    ensures
        cli::spec_parse(args, n + i, a) == cli::spec_parse(args.skip(n), i, a),
    decreases args.len() - n - i,
{
    let rest = args.skip(n);
    if n + i < args.len() {
        assert(rest[i] == args[n + i]);
        if cli::takes_value(args[n + i]) {
            if n + i + 1 < args.len() {
                assert(rest[i + 1] == args[n + i + 1]);
                if let Ok(b) = cli::with_value(a, args[n + i], args[n + i + 1]) {
                    lemma_parse_skip(args, n, i + 2, b);
                }
            }
        } else if let Ok(b) = cli::with_flag(a, args[n + i]) {
            lemma_parse_skip(args, n, i + 1, b);
        }
    }
}

/// The first word is the command, and its paths follow in the order of the command's description;
/// the models are needed for all but the headers.
pub proof fn law_commands_take_their_paths(
    a: ArgsView,
    r: core::result::Result<Command, CommandError>,
)
    requires
        cli::asks_for(a, r),
    ensures
        match r {
            Ok(Command::Info(input)) => a.positional == seq!["info"@, input@],
            Ok(Command::Decode { models, input, output }) => a.positional == seq![
                "decode"@,
                input@,
                output@,
            ] && a.models == Some(models@),
            Ok(Command::Encode { models, input, output, model_id, op }) => {
                &&& a.positional == seq!["encode"@, input@, output@]
                &&& a.models == Some(models@)
                &&& a.model_ids.len() == 0 ==> model_id == 1
                &&& a.model_ids.len() > 0 ==> model_id == a.model_ids[0]
                &&& a.op is None ==> op == OperatingPoint::Bop
                &&& a.op matches Some(o) ==> op == o
            },
            Ok(Command::Preload { models, input }) => a.positional == seq!["preload"@, input@]
                && a.models == Some(models@),
            Ok(Command::PackModels { models, out, ids, ops, common, synthesis }) => {
                &&& a.positional == seq!["pack-models"@]
                &&& a.models == Some(models@)
                &&& a.out == Some(out@)
                &&& a.model_ids.len() > 0 ==> ids@ == a.model_ids
                &&& a.model_ids.len() == 0 ==> ids@.len() == 4 && forall|i: int|
                    0 <= i < 4 ==> #[trigger] ids@[i] == i
                &&& a.ops.len() > 0 ==> ops@ == a.ops
                &&& a.ops.len() == 0 ==> ops@.len() == 3 && ops@.contains(OperatingPoint::Sop)
                    && ops@.contains(OperatingPoint::Bop) && ops@.contains(OperatingPoint::Hop)
                &&& a.only is None ==> common && synthesis
                &&& a.only is Some ==> common != synthesis
                &&& a.only matches Some(part) ==> (common <==> part == "common"@)
            },
            Err(CommandError::NoModels) => a.models is None,
            Err(CommandError::NoOut) => a.out is None && a.positional == seq!["pack-models"@],
            Err(CommandError::Usage) => a.positional.len() == 0 || a.positional.len() > 3
                || !(a.positional[0] == "info"@ && a.positional.len() == 2),
        },
{
    let p = a.positional;
    match r {
        Ok(Command::Info(input)) => assert(p =~= seq!["info"@, input@]),
        Ok(Command::Decode { models, input, output }) => assert(p =~= seq![
            "decode"@,
            input@,
            output@,
        ]),
        Ok(Command::Encode { models, input, output, model_id, op }) => assert(p =~= seq![
            "encode"@,
            input@,
            output@,
        ]),
        Ok(Command::Preload { models, input }) => assert(p =~= seq!["preload"@, input@]),
        Ok(Command::PackModels { models, out, ids, ops, common, synthesis }) => {
            assert(p =~= seq!["pack-models"@]);
            if a.ops.len() == 0 {
                assert(ops@[0] == OperatingPoint::Sop && ops@[1] == OperatingPoint::Bop && ops@[2]
                    == OperatingPoint::Hop);
            }
        },
        Err(CommandError::NoOut) => assert(p =~= seq!["pack-models"@]),
        _ => {},
    }
}

/// A reason that names a bound is classed by it, whatever stands around the name; one that names
/// none is about the number of samples.
pub proof fn law_reasons_name_their_bound(before: Seq<char>, behind: Seq<char>)
    ensures
        codec::spec_limit_kind(before + "max_width"@ + behind) == LimitKind::Width,
        !names(before + "max_height"@ + behind, "max_width"@) ==> codec::spec_limit_kind(
            before + "max_height"@ + behind,
        ) == LimitKind::Height,
        ({
            let s = before + "max_input_bytes"@ + behind;
            !names(s, "max_width"@) && !names(s, "max_height"@) ==> codec::spec_limit_kind(s)
                == LimitKind::InputSize
        }),
        ({
            let s = before + "max_memory_bytes"@ + behind;
            !names(s, "max_width"@) && !names(s, "max_height"@) && !names(s, "max_input_bytes"@)
                ==> codec::spec_limit_kind(s) == LimitKind::Memory
        }),
{
    lemma_named(before, "max_width"@, behind);
    lemma_named(before, "max_height"@, behind);
    lemma_named(before, "max_input_bytes"@, behind);
    lemma_named(before, "max_memory_bytes"@, behind);
    let s = before + "max_height"@ + behind;
    lemma_names(s, "max_width"@);
    let s = before + "max_input_bytes"@ + behind;
    lemma_names(s, "max_width"@);
    lemma_names(s, "max_height"@);
    let s = before + "max_memory_bytes"@ + behind;
    lemma_names(s, "max_width"@);
    lemma_names(s, "max_height"@);
    lemma_names(s, "max_input_bytes"@);
}

/// A text is part of another.
pub open spec fn names(s: Seq<char>, t: Seq<char>) -> bool {
    exists|i: int| 0 <= i && i + t.len() <= s.len() && #[trigger] s.subrange(i, i + t.len()) == t
}

proof fn lemma_names(s: Seq<char>, t: Seq<char>)
    ensures
        text::occurs(s, t) <==> names(s, t),
{
    if text::occurs(s, t) {
        let i = choose|i: int| #[trigger] text::stands_at(s, t, i);
        assert(s.subrange(i, i + t.len()) == t);
    }
    if names(s, t) {
        let i = choose|i: int|
            0 <= i && i + t.len() <= s.len() && #[trigger] s.subrange(i, i + t.len()) == t;
        assert(text::stands_at(s, t, i));
    }
}

proof fn lemma_named(a: Seq<char>, t: Seq<char>, b: Seq<char>)
    ensures
        text::occurs(a + t + b, t),
{
    let s = a + t + b;
    let i = a.len() as int;
    assert(s.subrange(i, i + t.len()) =~= t);
    assert(text::stands_at(s, t, i));
}

/// A reason that names no bound is about the number of samples.
pub proof fn law_other_reasons_are_about_samples(s: Seq<char>)
    ensures
        codec::spec_limit_kind(s) == LimitKind::Pixels <==> !names(s, "max_width"@) && !names(
            s,
            "max_height"@,
        ) && !names(s, "max_input_bytes"@) && !names(s, "max_memory_bytes"@),
{
    lemma_names(s, "max_width"@);
    lemma_names(s, "max_height"@);
    lemma_names(s, "max_input_bytes"@);
    lemma_names(s, "max_memory_bytes"@);
}

/// An error is classed by whose fault it is: the stream's bytes, a tool that is not supported, the
/// request, a bound, a shared resource, or the caller's wish to stop.
pub proof fn law_errors_are_classed(e: Error)
    ensures
        codec::spec_category(e) is UnexpectedEof <==> e is UnexpectedEof,
        codec::spec_category(e) is Malformed <==> e is InvalidData || e is NonConforming,
        codec::spec_category(e) is UnsupportedFeature <==> e is Unsupported,
        codec::spec_category(e) is InvalidParameters <==> e is Model || e is InvalidArgument,
        codec::spec_category(e) is Busy <==> e is ResourceBusy,
        codec::spec_category(e) is Limits <==> e is LimitExceeded,
        codec::spec_category(e) is Stopped <==> e is Cancelled,
        e matches Error::Cancelled(r) ==> codec::spec_category(e) == ErrorCategory::Stopped(r),
{
}

/// A message tells what kind of error it is: no two kinds begin alike.
pub proof fn law_messages_tell_the_kind(e: Error, f: Error)
    requires
        e.message_prefix() == f.message_prefix(),
    ensures
        e is UnexpectedEof <==> f is UnexpectedEof,
        e is InvalidData <==> f is InvalidData,
        e is Unsupported <==> f is Unsupported,
        e is NonConforming <==> f is NonConforming,
        e is Model <==> f is Model,
        e is InvalidArgument <==> f is InvalidArgument,
        e is LimitExceeded <==> f is LimitExceeded,
        e is ResourceBusy <==> f is ResourceBusy,
        e is Cancelled <==> f is Cancelled,
{
    reveal_strlit("unexpected end of data");
    reveal_strlit("invalid codestream: ");
    reveal_strlit("unsupported: ");
    reveal_strlit("non-conforming codestream: ");
    reveal_strlit("model error: ");
    reveal_strlit("invalid argument: ");
    reveal_strlit("limit exceeded: ");
    reveal_strlit("resource busy: ");
    reveal_strlit("stopped: ");
    assert("unexpected end of data"@.len() == 22);
    assert("invalid codestream: "@.len() == 20);
    assert("unsupported: "@.len() == 13 && "unsupported: "@[0] == 'u');
    assert("non-conforming codestream: "@.len() == 27);
    assert("model error: "@.len() == 13 && "model error: "@[0] == 'm');
    assert("invalid argument: "@.len() == 18);
    assert("limit exceeded: "@.len() == 16);
    assert("resource busy: "@.len() == 15);
    assert("stopped: "@.len() == 9);
}

/// A message ends with the detail that the error carries.
pub proof fn law_messages_carry_the_detail(e: Error)
    ensures
        e matches Error::InvalidData(s) ==> e.message_detail() == s@,
        e matches Error::Unsupported(s) ==> e.message_detail() == s@,
        e matches Error::NonConforming(s) ==> e.message_detail() == s@,
        e matches Error::Model(s) ==> e.message_detail() == s@,
        e matches Error::InvalidArgument(s) ==> e.message_detail() == s@,
        e matches Error::LimitExceeded(s) ==> e.message_detail() == s@,
        e matches Error::ResourceBusy(s) ==> e.message_detail() == s@,
{
}

/// What is packed is what was asked for, in its order, and everything where nothing was: the four
/// models and the three operating points, the smaller first. An encode takes the first model that
/// was asked for, and model 1 where none was.
pub proof fn law_everything_is_packed_by_default(ids: Seq<usize>, ops: Seq<OperatingPoint>, i: int)
    ensures
        ids.len() > 0 ==> cli::packed_ids(ids) == ids,
        ids.len() == 0 ==> cli::packed_ids(ids).len() == 4 && (0 <= i < 4 ==> cli::packed_ids(
            ids,
        )[i] == i),
        ops.len() > 0 ==> cli::packed_ops(ops) == ops,
        ops.len() == 0 ==> cli::packed_ops(ops).len() == 3 && (0 <= i < 3 ==> cli::packed_ops(
            ops,
        )[i].spec_id() == i),
        ids.len() > 0 ==> cli::encode_model(ids) == ids[0],
        ids.len() == 0 ==> cli::encode_model(ids) == 1,
{
    assert(0 <= i < 4 ==> i == 0 || i == 1 || i == 2 || i == 3);
}

/// Without options one decode runs, on all threads, of all channels, at the stream's operating point.
pub proof fn law_no_options(models: Option<Seq<char>>)
    ensures
        ({
            let a = cli::no_args(models);
            &&& a.models == models
            &&& a.positional.len() == 0 && a.ops.len() == 0 && a.model_ids.len() == 0
            &&& a.op is None && a.max_channels.0 is None && a.max_channels.1 is None
            &&& a.out is None && a.only is None && a.pool_mb is None
            &&& a.beta_disp == 0 && a.repeat == 1
            &&& !a.single_thread && !a.scalar && !a.time && !a.discard
        }),
{
}

} // verus!
