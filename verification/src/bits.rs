//! Bit strings: the mathematical model of what a [`crate::bitio::BitReader`] reads and a
//! [`crate::bitio::BitWriter`] writes. The most significant bit comes first.

use vstd::prelude::*;
use vstd::arithmetic::div_mod;
use vstd::arithmetic::power2;

verus! {

/// The low `n` bits of `v`, most significant first.
pub open spec fn low_bits(v: nat, n: nat) -> Seq<bool> {
    Seq::new(n, |i: int| (v / power2::pow2((n - 1 - i) as nat)) % 2 == 1)
}

/// The number that a bit string spells, most significant bit first.
pub open spec fn value(s: Seq<bool>) -> nat
    decreases s.len(),
{
    if s.len() == 0 {
        0
    } else {
        2 * value(s.drop_last()) + if s.last() { 1nat } else { 0nat }
    }
}

/// The bits of a byte string.
pub open spec fn of_bytes(bytes: Seq<u8>) -> Seq<bool> {
    Seq::new(bytes.len() * 8, |i: int| low_bits(bytes[i / 8] as nat, 8)[i % 8])
}

/// `n` zero bits.
pub open spec fn zeros(n: nat) -> Seq<bool> {
    Seq::new(n, |i: int| false)
}

/// `part` stands in `s` at position `pos`.
pub open spec fn has_at(s: Seq<bool>, pos: int, part: Seq<bool>) -> bool {
    &&& 0 <= pos
    &&& pos + part.len() <= s.len()
    &&& s.subrange(pos, pos + part.len()) == part
}

/// A concatenation stands at a position exactly when its parts stand one after the other.
pub proof fn lemma_has_at_concat(s: Seq<bool>, pos: int, a: Seq<bool>, b: Seq<bool>)
    ensures
        has_at(s, pos, a + b) <==> has_at(s, pos, a) && has_at(s, pos + a.len(), b),
{
    if has_at(s, pos, a + b) {
        let whole = s.subrange(pos, pos + (a + b).len());
        assert forall|i: int| 0 <= i < a.len() implies s.subrange(pos, pos + a.len())[i] == a[i] by {
            assert(whole[i] == (a + b)[i]);
        }
        assert(s.subrange(pos, pos + a.len()) =~= a);
        assert forall|i: int| 0 <= i < b.len() implies s.subrange(
            pos + a.len(),
            pos + a.len() + b.len(),
        )[i] == b[i] by {
            assert(whole[a.len() + i] == (a + b)[a.len() + i]);
        }
        assert(s.subrange(pos + a.len(), pos + a.len() + b.len()) =~= b);
    }
    if has_at(s, pos, a) && has_at(s, pos + a.len(), b) {
        let left = s.subrange(pos, pos + a.len());
        let right = s.subrange(pos + a.len(), pos + a.len() + b.len());
        let whole = s.subrange(pos, pos + (a + b).len());
        assert(whole =~= left + right);
    }
}

/// Dividing by one power of two and then another is dividing by their product.
proof fn lemma_div_pow2(v: nat, j: nat, k: nat)
    ensures
        v / power2::pow2(j) / power2::pow2(k) == v / power2::pow2(j + k),
{
    power2::lemma_pow2_pos(j);
    power2::lemma_pow2_pos(k);
    power2::lemma_pow2_adds(j, k);
    div_mod::lemma_div_denominator(v as int, power2::pow2(j) as int, power2::pow2(k) as int);
}

/// A bit below position `m` does not depend on what stands above it.
pub proof fn lemma_bit_of_mod(v: nat, j: nat, m: nat)
    requires
        j < m,
    ensures
        (v % power2::pow2(m)) / power2::pow2(j) % 2 == v / power2::pow2(j) % 2,
{
    power2::lemma_pow2_pos(m);
    power2::lemma_pow2_pos(j);
    power2::lemma_pow2_adds(j, (m - j) as nat);
    power2::lemma_pow2_unfold((m - j) as nat);
    let q = v / power2::pow2(m);
    let r = v % power2::pow2(m);
    let half = power2::pow2((m - j - 1) as nat);
    div_mod::lemma_fundamental_div_mod(v as int, power2::pow2(m) as int);
    assert(v == power2::pow2(j) * (2 * half * q) + r) by (nonlinear_arith)
        requires
            v == power2::pow2(m) * q + r,
            power2::pow2(m) == power2::pow2(j) * (2 * half),
    ;
    div_mod::lemma_hoist_over_denominator(r as int, (2 * half * q) as int, power2::pow2(j));
    assert((r + (2 * half * q) * power2::pow2(j)) == v) by (nonlinear_arith)
        requires
            v == power2::pow2(j) * (2 * half * q) + r,
    ;
    assert(v / power2::pow2(j) == r / power2::pow2(j) + 2 * half * q);
    assert(2 * half * q == 2 * (half * q)) by (nonlinear_arith);
    let t = (half * q) as int;
    let u = (r / power2::pow2(j)) as int;
    assert((u + 2 * t) % 2 == u % 2);
}

/// Cutting a number's bits in two: the upper bits are those of the quotient.
pub proof fn lemma_low_bits_split(v: nat, n: nat, m: nat)
    ensures
        low_bits(v, n + m) == low_bits(v / power2::pow2(m), n) + low_bits(v, m),
{
    let whole = low_bits(v, n + m);
    let parts = low_bits(v / power2::pow2(m), n) + low_bits(v, m);
    assert forall|i: int| 0 <= i < n + m implies whole[i] == parts[i] by {
        if i < n {
            lemma_div_pow2(v, m, (n - 1 - i) as nat);
            assert(m + (n - 1 - i) as nat == (n + m - 1 - i) as nat);
        }
    }
    assert(whole =~= parts);
}

/// The low bits do not depend on what stands above them.
pub proof fn lemma_low_bits_mod(v: nat, n: nat, m: nat)
    requires
        n <= m,
    ensures
        low_bits(v % power2::pow2(m), n) == low_bits(v, n),
{
    assert forall|i: int| 0 <= i < n implies low_bits(v % power2::pow2(m), n)[i] == low_bits(v, n)[i] by {
        lemma_bit_of_mod(v, (n - 1 - i) as nat, m);
    }
    assert(low_bits(v % power2::pow2(m), n) =~= low_bits(v, n));
}

/// The bits of `hi * 2^m + lo` are those of `hi` followed by those of `lo`.
pub proof fn lemma_low_bits_join(hi: nat, n: nat, lo: nat, m: nat)
    requires
        lo < power2::pow2(m),
    ensures
        low_bits(hi * power2::pow2(m) + lo, n + m) == low_bits(hi, n) + low_bits(lo, m),
{
    let v = hi * power2::pow2(m) + lo;
    power2::lemma_pow2_pos(m);
    assert(v / power2::pow2(m) == hi && v % power2::pow2(m) == lo) by {
        div_mod::lemma_fundamental_div_mod_converse(v as int, power2::pow2(m) as int, hi as int, lo as int);
    }
    lemma_low_bits_split(v, n, m);
    lemma_low_bits_mod(v, m, m);
}

/// The low bits of a number spell the number modulo a power of two.
pub proof fn lemma_value_of_low_bits(v: nat, n: nat)
    ensures
        value(low_bits(v, n)) == v % power2::pow2(n),
    decreases n,
{
    power2::lemma2_to64();
    if n > 0 {
        let m = (n - 1) as nat;
        let s = low_bits(v, n);
        lemma_low_bits_split(v, m, 1);
        assert(power2::pow2(1) == 2);
        assert(s.drop_last() =~= low_bits(v / 2, m));
        lemma_value_of_low_bits(v / 2, m);
        assert(s.last() == ((v / power2::pow2(0)) % 2 == 1));
        assert(v / 1 == v);
        power2::lemma_pow2_unfold(n);
        power2::lemma_pow2_pos(m);
        div_mod::lemma_mod_breakdown(v as int, 2, power2::pow2(m) as int);
        assert(value(s) == 2 * ((v / 2) % power2::pow2(m)) + v % 2);
    } else {
        assert(v % 1 == 0);
    }
}

/// The low bit of a number.
pub proof fn lemma_low_bits_one(v: nat)
    ensures
        low_bits(v, 1) == seq![v % 2 == 1],
{
    power2::lemma2_to64();
    assert(v / 1 == v);
    assert(low_bits(v, 1) =~= seq![v % 2 == 1]);
}

/// A bit string of length `n` spells a number below `2^n`.
pub proof fn lemma_value_bound(s: Seq<bool>)
    ensures
        value(s) < power2::pow2(s.len()),
    decreases s.len(),
{
    power2::lemma2_to64();
    if s.len() > 0 {
        lemma_value_bound(s.drop_last());
        power2::lemma_pow2_unfold(s.len());
    }
}

/// The number that a concatenation spells.
pub proof fn lemma_value_concat(a: Seq<bool>, b: Seq<bool>)
    ensures
        value(a + b) == value(a) * power2::pow2(b.len()) + value(b),
    decreases b.len(),
{
    power2::lemma2_to64();
    if b.len() == 0 {
        assert(a + b =~= a);
    } else {
        lemma_value_concat(a, b.drop_last());
        assert((a + b).drop_last() =~= a + b.drop_last());
        power2::lemma_pow2_unfold(b.len());
        let p = power2::pow2((b.len() - 1) as nat);
        let x = value(a);
        assert(2 * (x * p) == x * (2 * p)) by (nonlinear_arith);
    }
}

/// Appending a byte appends its eight bits.
pub proof fn lemma_of_bytes_push(bytes: Seq<u8>, b: u8)
    ensures
        of_bytes(bytes.push(b)) == of_bytes(bytes) + low_bits(b as nat, 8),
{
    let whole = of_bytes(bytes.push(b));
    let parts = of_bytes(bytes) + low_bits(b as nat, 8);
    assert forall|i: int| 0 <= i < whole.len() implies whole[i] == parts[i] by {
        if i < bytes.len() * 8 {
            assert(bytes.push(b)[i / 8] == bytes[i / 8]);
        } else {
            assert(i / 8 == bytes.len());
            assert(i % 8 == i - bytes.len() * 8);
        }
    }
    assert(whole =~= parts);
}

/// The bits of a concatenation of byte strings.
pub proof fn lemma_of_bytes_concat(a: Seq<u8>, b: Seq<u8>)
    ensures
        of_bytes(a + b) == of_bytes(a) + of_bytes(b),
{
    let whole = of_bytes(a + b);
    let parts = of_bytes(a) + of_bytes(b);
    assert forall|i: int| 0 <= i < whole.len() implies whole[i] == parts[i] by {
        if i < a.len() * 8 {
            assert((a + b)[i / 8] == a[i / 8]);
        } else {
            let j = i - a.len() * 8;
            assert(i / 8 == a.len() + j / 8);
            assert(i % 8 == j % 8);
            assert((a + b)[i / 8] == b[j / 8]);
        }
    }
    assert(whole =~= parts);
}

/// A bit string of length `n` is the low `n` bits of the number that it spells.
pub proof fn lemma_low_bits_of_value(s: Seq<bool>)
    ensures
        low_bits(value(s), s.len()) == s,
    decreases s.len(),
{
    if s.len() == 0 {
        assert(low_bits(value(s), 0) =~= s);
    } else {
        let init = s.drop_last();
        let last = if s.last() { 1nat } else { 0nat };
        lemma_low_bits_of_value(init);
        power2::lemma2_to64();
        lemma_low_bits_join(value(init), init.len(), last, 1);
        lemma_low_bits_one(last);
        assert(value(init) * power2::pow2(1) == 2 * value(init)) by (nonlinear_arith)
            requires
                power2::pow2(1) == 2,
        ;
        assert(low_bits(value(s), s.len()) =~= s);
    }
}

/// `s`, filled up with zero bits to whole bytes.
pub open spec fn padded(s: Seq<bool>) -> Seq<bool> {
    s + zeros(((s.len() + 7) / 8 * 8 - s.len()) as nat)
}

/// The bytes that hold `s`, the last one filled up with zero bits.
pub open spec fn pack(s: Seq<bool>) -> Seq<u8> {
    Seq::new(
        (s.len() + 7) / 8,
        |i: int| value(padded(s).subrange(8 * i, 8 * i + 8)) as u8,
    )
}

/// Bytes are determined by their bits.
pub proof fn lemma_pack_unique(bytes: Seq<u8>, s: Seq<bool>)
    requires
        of_bytes(bytes) == padded(s),
    ensures
        bytes == pack(s),
{
    power2::lemma2_to64();
    assert((s.len() + 7) / 8 * 8 >= s.len());
    assert(of_bytes(bytes).len() == padded(s).len());
    assert(padded(s).len() == (s.len() + 7) / 8 * 8);
    assert(bytes.len() == (s.len() + 7) / 8);
    assert forall|i: int| 0 <= i < bytes.len() implies bytes[i] == pack(s)[i] by {
        let part = padded(s).subrange(8 * i, 8 * i + 8);
        assert forall|j: int| 0 <= j < 8 implies part[j] == low_bits(bytes[i] as nat, 8)[j] by {
            assert((8 * i + j) / 8 == i);
            assert((8 * i + j) % 8 == j);
        }
        assert(part =~= low_bits(bytes[i] as nat, 8));
        lemma_value_of_low_bits(bytes[i] as nat, 8);
        div_mod::lemma_small_mod(bytes[i] as nat, 256);
    }
    assert(bytes =~= pack(s));
}

/// Packing keeps the bits, at the start of the bytes.
pub proof fn lemma_pack(s: Seq<bool>)
    ensures
        of_bytes(pack(s)) == padded(s),
        has_at(of_bytes(pack(s)), 0, s),
{
    power2::lemma2_to64();
    let bytes = pack(s);
    let all = padded(s);
    assert forall|i: int| 0 <= i < all.len() implies of_bytes(bytes)[i] == all[i] by {
        let part = all.subrange(8 * (i / 8), 8 * (i / 8) + 8);
        lemma_value_bound(part);
        lemma_low_bits_of_value(part);
        assert(bytes[i / 8] as nat == value(part));
        assert(part[i % 8] == all[i]);
    }
    assert(of_bytes(bytes) =~= all);
    assert(all.subrange(0, s.len() as int) =~= s);
}

} // verus!
