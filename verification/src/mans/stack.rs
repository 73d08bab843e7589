//! Bit stacks: the mathematical model of what the entropy coder writes and reads back.
//!
//! The encoder pushes numbers of a few bits, least significant bit first; the decoder pops them
//! from the end. In bytes, the first bit is the lowest bit of the first byte.

use vstd::prelude::*;
use vstd::arithmetic::div_mod;
use vstd::arithmetic::power2;

verus! {

/// The low `n` bits of `v`, least significant first.
pub open spec fn digits(v: nat, n: nat) -> Seq<bool> {
    Seq::new(n, |i: int| (v / power2::pow2(i as nat)) % 2 == 1)
}

/// The number that a bit string spells, least significant bit first.
pub open spec fn number(s: Seq<bool>) -> nat
    decreases s.len(),
{
    if s.len() == 0 {
        0
    } else {
        (if s[0] {
            1nat
        } else {
            0nat
        }) + 2 * number(s.subrange(1, s.len() as int))
    }
}

/// The bits of a byte string, the lowest bit of each byte first.
pub open spec fn of_bytes(bytes: Seq<u8>) -> Seq<bool> {
    Seq::new(bytes.len() * 8, |i: int| digits(bytes[i / 8] as nat, 8)[i % 8])
}

/// The low bits of a number, then those of its quotient.
pub proof fn lemma_digits_split(v: nat, n: nat, m: nat)
    ensures
        digits(v, n + m) == digits(v, n) + digits(v / power2::pow2(n), m),
{
    let whole = digits(v, n + m);
    let parts = digits(v, n) + digits(v / power2::pow2(n), m);
    assert forall|i: int| 0 <= i < n + m implies whole[i] == parts[i] by {
        if i >= n {
            let k = (i - n) as nat;
            power2::lemma_pow2_pos(n);
            power2::lemma_pow2_pos(k);
            power2::lemma_pow2_adds(n, k);
            div_mod::lemma_div_denominator(v as int, power2::pow2(n) as int, power2::pow2(k) as int);
        }
    }
    assert(whole =~= parts);
}

/// The bits of a number spell it, modulo a power of two.
pub proof fn lemma_number_of_digits(v: nat, n: nat)
    ensures
        number(digits(v, n)) == v % power2::pow2(n),
    decreases n,
{
    power2::lemma2_to64();
    if n > 0 {
        let s = digits(v, n);
        lemma_digits_split(v, 1, (n - 1) as nat);
        assert(power2::pow2(1) == 2);
        assert(s.subrange(1, s.len() as int) =~= digits(v / 2, (n - 1) as nat));
        lemma_number_of_digits(v / 2, (n - 1) as nat);
        assert(v / 1 == v);
        assert(s[0] == (v % 2 == 1));
        power2::lemma_pow2_unfold(n);
        power2::lemma_pow2_pos((n - 1) as nat);
        div_mod::lemma_mod_breakdown(v as int, 2, power2::pow2((n - 1) as nat) as int);
    } else {
        assert(v % 1 == 0);
    }
}

/// A bit string of length `n` spells a number below `2^n`.
pub proof fn lemma_number_bound(s: Seq<bool>)
    ensures
        number(s) < power2::pow2(s.len()),
    decreases s.len(),
{
    power2::lemma2_to64();
    if s.len() > 0 {
        lemma_number_bound(s.subrange(1, s.len() as int));
        power2::lemma_pow2_unfold(s.len());
    }
}

/// The number that a concatenation spells.
pub proof fn lemma_number_concat(a: Seq<bool>, b: Seq<bool>)
    ensures
        number(a + b) == number(a) + power2::pow2(a.len()) * number(b),
    decreases a.len(),
{
    power2::lemma2_to64();
    if a.len() == 0 {
        assert(a + b =~= b);
        assert(1 * number(b) == number(b));
    } else {
        let rest = a.subrange(1, a.len() as int);
        lemma_number_concat(rest, b);
        assert((a + b).subrange(1, (a + b).len() as int) =~= rest + b);
        power2::lemma_pow2_unfold(a.len());
        let (p, x) = (power2::pow2(rest.len()), number(b));
        assert(2 * (p * x) == (2 * p) * x) by (nonlinear_arith);
    }
}

/// A bit string is the bits of the number that it spells.
pub proof fn lemma_digits_of_number(s: Seq<bool>)
    ensures
        digits(number(s), s.len()) == s,
    decreases s.len(),
{
    power2::lemma2_to64();
    if s.len() == 0 {
        assert(digits(number(s), 0) =~= s);
    } else {
        let rest = s.subrange(1, s.len() as int);
        let v = number(s);
        lemma_digits_of_number(rest);
        lemma_digits_split(v, 1, rest.len());
        assert(v / 2 == number(rest));
        assert(v / 1 == v);
        assert(digits(v, 1) =~= seq![s[0]]);
        assert(digits(v, s.len()) =~= s);
    }
}

/// Cutting a number's bits in two cuts the number by a power of two.
pub proof fn lemma_cut(s: Seq<bool>, k: int)
    requires
        0 <= k <= s.len(),
    ensures
        number(s.take(k)) == number(s) % power2::pow2(k as nat),
        number(s.skip(k)) == number(s) / power2::pow2(k as nat),
{
    let (a, b) = (s.take(k), s.skip(k));
    assert(a + b =~= s);
    lemma_number_concat(a, b);
    lemma_number_bound(a);
    let (p, x, y) = (power2::pow2(k as nat) as int, number(a) as int, number(b) as int);
    assert(number(s) == y * p + x) by (nonlinear_arith)
        requires
            number(s) == x + p * y,
    ;
    div_mod::lemma_fundamental_div_mod_converse(number(s) as int, p, y, x);
}

/// Bits of bytes, one byte more.
pub proof fn lemma_of_bytes_push(bytes: Seq<u8>, b: u8)
    ensures
        of_bytes(bytes.push(b)) == of_bytes(bytes) + digits(b as nat, 8),
{
    let whole = of_bytes(bytes.push(b));
    let parts = of_bytes(bytes) + digits(b as nat, 8);
    assert forall|i: int| 0 <= i < whole.len() implies whole[i] == parts[i] by {
        if i < bytes.len() * 8 {
            assert(bytes.push(b)[i / 8] == bytes[i / 8]);
        } else {
            assert(i / 8 == bytes.len());
            assert(i % 8 == i - bytes.len() * 8);
        }
    }
    assert(whole =~= parts);
}

/// Bits of a concatenation of byte strings.
pub proof fn lemma_of_bytes_concat(a: Seq<u8>, b: Seq<u8>)
    ensures
        of_bytes(a + b) == of_bytes(a) + of_bytes(b),
{
    let whole = of_bytes(a + b);
    let parts = of_bytes(a) + of_bytes(b);
    assert forall|i: int| 0 <= i < whole.len() implies whole[i] == parts[i] by {
        if i < a.len() * 8 {
            assert((a + b)[i / 8] == a[i / 8]);
        } else {
            let j = i - a.len() * 8;
            assert(i / 8 == a.len() + j / 8);
            assert(i % 8 == j % 8);
            assert((a + b)[i / 8] == b[j / 8]);
        }
    }
    assert(whole =~= parts);
}

/// The bits of one byte of a byte string.
pub proof fn lemma_byte(bytes: Seq<u8>, i: int)
    requires
        0 <= i < bytes.len(),
    ensures
        number(of_bytes(bytes).subrange(8 * i, 8 * i + 8)) == bytes[i],
{
    let part = of_bytes(bytes).subrange(8 * i, 8 * i + 8);
    assert forall|j: int| 0 <= j < 8 implies part[j] == digits(bytes[i] as nat, 8)[j] by {
        assert((8 * i + j) / 8 == i);
        assert((8 * i + j) % 8 == j);
    }
    assert(part =~= digits(bytes[i] as nat, 8));
    lemma_number_of_digits(bytes[i] as nat, 8);
    power2::lemma2_to64();
    div_mod::lemma_small_mod(bytes[i] as nat, 256);
}

/// The number in the last `n` bits.
pub open spec fn top(s: Seq<bool>, n: nat) -> nat {
    number(s.skip(s.len() - n))
}

/// What is left below the last `n` bits.
pub open spec fn below(s: Seq<bool>, n: nat) -> Seq<bool> {
    s.take(s.len() - n)
}

/// The bytes that a bit string of whole bytes spells.
pub open spec fn to_bytes(s: Seq<bool>) -> Seq<u8> {
    Seq::new(s.len() / 8, |i: int| number(s.subrange(8 * i, 8 * i + 8)) as u8)
}

/// The bits of bytes spell the bytes.
pub proof fn lemma_bytes_of_bits(bytes: Seq<u8>)
    ensures
        to_bytes(of_bytes(bytes)) == bytes,
{
    let back = to_bytes(of_bytes(bytes));
    assert forall|i: int| 0 <= i < bytes.len() implies back[i] == bytes[i] by {
        lemma_byte(bytes, i);
    }
    assert(back =~= bytes);
}

/// A bit string of whole bytes is the bits of the bytes that it spells.
pub proof fn lemma_bits_of_bytes(s: Seq<bool>)
    requires
        s.len() % 8 == 0,
    ensures
        of_bytes(to_bytes(s)) == s,
{
    power2::lemma2_to64();
    let bytes = to_bytes(s);
    assert forall|i: int| 0 <= i < s.len() implies of_bytes(bytes)[i] == s[i] by {
        let k = i / 8;
        let part = s.subrange(8 * k, 8 * k + 8);
        lemma_number_bound(part);
        lemma_digits_of_number(part);
        assert(bytes[k] as nat == number(part));
        assert(part[i % 8] == s[i]);
    }
    assert(of_bytes(bytes) =~= s);
}

} // verus!
