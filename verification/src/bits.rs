//! Bit primitives on instruction words: gathering the bits under a mask,
//! scattering them back, reversing bit order, sign interpretation, byte
//! assembly and the small operations a field may carry.
//!
//! Every function is specified over natural numbers: a word stands for the
//! number it denotes, and a mask is read bit by bit from the low end by
//! halving.

use vstd::prelude::*;
use vstd::arithmetic::power2::{pow2, lemma_pow2_pos, lemma_pow2_unfold, lemma2_to64, lemma2_to64_rest, lemma_pow2_strictly_increases};
use vstd::bits::{lemma_u64_shl_is_mul, lemma_u64_shr_is_div, lemma_u64_pow2_no_overflow};

verus! {

/// An instruction word: wide enough for every word size up to eight bytes.
pub type Wordt = u64;

/// The signed counterpart of [`Wordt`], used to render signed operands.
pub type Signt = i64;

/// A word used as a bit selector.
pub type Bitmask = Wordt;

/// Number of bits in a word.
pub const WORD_BITS: u64 = 64;

/// The kinds of operation a field can apply to its extracted value.
#[derive(Clone, Copy, Debug, PartialEq, Eq, Structural)]
pub enum BitOpType {
    AND,
    OR,
    XOR,
    SL,
    SR,
}

/// One operation of kind `typ` with the immediate operand `val`.
#[derive(Clone, Copy, Debug, PartialEq, Eq, Structural)]
pub struct BitOp {
    pub typ: BitOpType,
    pub val: Wordt,
}

/// Number of set bits of `mask`.
pub open spec fn popcount(mask: nat) -> nat
    decreases mask,
{
    if mask == 0 {
        0
    } else {
        (mask % 2) + popcount(mask / 2)
    }
}

/// The bits of `w` that `mask` selects, packed to the low end without
/// changing their order.
pub open spec fn spec_minimize(w: nat, mask: nat) -> nat
    decreases mask,
{
    if mask == 0 {
        0
    } else if mask % 2 == 1 {
        w % 2 + 2 * spec_minimize(w / 2, mask / 2)
    } else {
        spec_minimize(w / 2, mask / 2)
    }
}

/// The low `popcount(mask)` bits of `v`, spread in order over the positions
/// that `mask` selects; every other bit is zero.
pub open spec fn spec_align(v: nat, mask: nat) -> nat
    decreases mask,
{
    if mask == 0 {
        0
    } else if mask % 2 == 1 {
        v % 2 + 2 * spec_align(v / 2, mask / 2)
    } else {
        2 * spec_align(v, mask / 2)
    }
}

/// Bit `i` of `v`, as 0 or 1.
pub open spec fn bit_at(v: nat, i: nat) -> nat {
    (v / pow2(i)) % 2
}

/// The low `width` bits of `v` in reverse order: bit `j` of the result is
/// bit `width - 1 - j` of `v`, and no bit at or above `width` is set.
pub open spec fn spec_reverse(v: nat, width: nat) -> nat
    decreases width,
{
    if width == 0 {
        0
    } else {
        2 * spec_reverse(v, (width - 1) as nat) + bit_at(v, (width - 1) as nat)
    }
}

/// What a word-sized reversal within `size` bytes gives: the low
/// `8 * size` bits of `w` in reverse order, without the bits that would
/// lie beyond the word.
pub open spec fn spec_reverse_word(w: Wordt, size: nat) -> Wordt {
    (spec_reverse(w as nat, 8 * size) % pow2(64)) as Wordt
}

/// The low `width` bits of `v` read as a two's complement number whose sign
/// bit is bit `width - 1`. A field of no bits holds zero.
pub open spec fn spec_twoscomp(v: nat, width: nat) -> int {
    let low = v % pow2(width);
    if width == 0 {
        0
    } else if low < pow2((width - 1) as nat) {
        low as int
    } else {
        low - pow2(width)
    }
}

/// The word that `x` wraps to: `x` modulo `2^64`.
pub open spec fn spec_wrap(x: int) -> Wordt {
    (x % 0x1_0000_0000_0000_0000) as Wordt
}

/// The number whose base-256 digits, least significant first, are `bytes`.
pub open spec fn spec_from_le(bytes: Seq<u8>) -> nat
    decreases bytes.len(),
{
    if bytes.len() == 0 {
        0
    } else {
        bytes[0] as nat + 256 * spec_from_le(bytes.drop_first())
    }
}

/// The number whose base-256 digits, most significant first, are `bytes`.
pub open spec fn spec_from_be(bytes: Seq<u8>) -> nat
    decreases bytes.len(),
{
    if bytes.len() == 0 {
        0
    } else {
        256 * spec_from_be(bytes.drop_last()) + bytes.last() as nat
    }
}

/// The result of one operation on `v`. A shift by the word's width or more
/// leaves no bit of `v` in the word.
pub open spec fn spec_apply_op(v: Wordt, op: BitOp) -> Wordt {
    match op.typ {
        BitOpType::AND => v & op.val,
        BitOpType::OR => v | op.val,
        BitOpType::XOR => v ^ op.val,
        BitOpType::SL => if op.val < WORD_BITS { v << op.val } else { 0 },
        BitOpType::SR => if op.val < WORD_BITS { v >> op.val } else { 0 },
    }
}

/// The operations of `ops` applied to `v` one after the other, first to last.
pub open spec fn spec_apply_ops(v: Wordt, ops: Seq<BitOp>) -> Wordt
    decreases ops.len(),
{
    if ops.len() == 0 {
        v
    } else {
        spec_apply_ops(spec_apply_op(v, ops[0]), ops.drop_first())
    }
}

proof fn lemma_halves(x: u64)
    by (bit_vector)
    ensures
        x >> 1 == x / 2,
        x & 1 == x % 2,
{
}

proof fn lemma_set_bit(acc: u64, pos: u64)
    by (bit_vector)
    requires
        pos < 64,
        acc < (1u64 << pos),
    ensures
        acc | (1u64 << pos) == acc + (1u64 << pos),
{
}

proof fn lemma_one_shl(pos: u64)
    requires
        pos < 64,
    ensures
        (1u64 << pos) == pow2(pos as nat),
{
    lemma_u64_pow2_no_overflow(pos as nat);
    lemma_u64_shl_is_mul(1, pos);
}

/// A mask of fewer than `bits` bits has at most `bits` set bits, and what it
/// gathers or scatters stays below the same bound.
pub proof fn lemma_bounds(w: nat, mask: nat, bits: nat)
    requires
        mask < pow2(bits),
    ensures
        popcount(mask) <= bits,
        spec_minimize(w, mask) < pow2(popcount(mask)),
        spec_align(w, mask) <= mask,
    decreases mask,
{
    if mask == 0 {
        lemma_pow2_pos(0);
    } else {
        if bits == 0 {
            lemma2_to64();
        }
        lemma_pow2_unfold(bits);
        lemma_bounds(w / 2, mask / 2, (bits - 1) as nat);
        lemma_bounds(w, mask / 2, (bits - 1) as nat);
        if mask % 2 == 1 {
            lemma_pow2_unfold(popcount(mask));
        }
    }
}

proof fn lemma_weighted_step(total: int, acc: int, weight: int, low: int, sub: int)
    by (nonlinear_arith)
    requires
        total == acc + weight * (low + 2 * sub),
    ensures
        total == (acc + weight * low) + (2 * weight) * sub,
        weight * 1 == weight,
        weight * 0 == 0,
{
}

/// Gathers the bits of `w` under `mask` at the low end, and counts the bits
/// of `mask`.
pub fn minimize(w: Wordt, mask: Bitmask) -> (r: (Wordt, Wordt))
    ensures
        r.0 == spec_minimize(w as nat, mask as nat),
        r.1 == popcount(mask as nat),
        r.1 <= 64,
{
    let mut value: Wordt = 0;
    let mut size: Wordt = 0;
    let mut rest: Wordt = w;
    let mut left: Bitmask = mask;
    let ghost mut seen: nat = 0;
    proof {
        lemma2_to64();
        lemma2_to64_rest();
        lemma_weighted_step(0, 0, 1, 0, 0);
    }
    while left != 0
        invariant
            size <= seen <= 64,
            left < pow2((64 - seen) as nat),
            value < pow2(size as nat),
            spec_minimize(w as nat, mask as nat) == value + pow2(size as nat) * spec_minimize(
                rest as nat,
                left as nat,
            ),
            popcount(mask as nat) == size + popcount(left as nat),
        decreases left,
    {
        let ghost sub = spec_minimize(rest as nat / 2, left as nat / 2);
        let ghost weight = pow2(size as nat);
        proof {
            if seen == 64 {
                lemma2_to64();
            }
            lemma_halves(left);
            lemma_halves(rest);
            lemma_pow2_unfold((64 - seen) as nat);
            lemma_pow2_unfold((size + 1) as nat);
            lemma_one_shl(size);
            if left % 2 == 1 {
                lemma_weighted_step(
                    spec_minimize(w as nat, mask as nat) as int,
                    value as int,
                    weight as int,
                    (rest % 2) as int,
                    sub as int,
                );
            }
        }
        if left & 1 != 0 {
            if rest & 1 != 0 {
                proof {
                    lemma_set_bit(value, size);
                }
                value = value | (1 << size);
            }
            size = size + 1;
        }
        rest = rest >> 1;
        left = left >> 1;
        proof {
            seen = seen + 1;
        }
    }
    proof {
        lemma_weighted_step(0, 0, pow2(size as nat) as int, 0, 0);
    }
    (value, size)
}

/// Spreads the low bits of `w` over the positions that `mask` selects.
pub fn align(w: Wordt, mask: Bitmask) -> (r: Wordt)
    ensures
        r == spec_align(w as nat, mask as nat),
{
    let mut ret: Wordt = 0;
    let mut rest: Wordt = w;
    let mut left: Bitmask = mask;
    let mut pos: u64 = 0;
    proof {
        lemma2_to64();
        lemma2_to64_rest();
        lemma_weighted_step(0, 0, 1, 0, 0);
    }
    while left != 0
        invariant
            pos <= 64,
            left < pow2((64 - pos) as nat),
            ret < pow2(pos as nat),
            spec_align(w as nat, mask as nat) == ret + pow2(pos as nat) * spec_align(
                rest as nat,
                left as nat,
            ),
        decreases left,
    {
        let ghost weight = pow2(pos as nat);
        proof {
            if pos == 64 {
                lemma2_to64();
            }
            lemma_halves(left);
            lemma_halves(rest);
            lemma_pow2_unfold((64 - pos) as nat);
            lemma_pow2_unfold((pos + 1) as nat);
            lemma_one_shl(pos);
            if left % 2 == 1 {
                lemma_weighted_step(
                    spec_align(w as nat, mask as nat) as int,
                    ret as int,
                    weight as int,
                    (rest % 2) as int,
                    spec_align(rest as nat / 2, left as nat / 2) as int,
                );
            } else {
                lemma_weighted_step(
                    spec_align(w as nat, mask as nat) as int,
                    ret as int,
                    weight as int,
                    0,
                    spec_align(rest as nat, left as nat / 2) as int,
                );
            }
        }
        if left & 1 != 0 {
            if rest & 1 != 0 {
                proof {
                    lemma_set_bit(ret, pos);
                }
                ret = ret | (1 << pos);
            }
            rest = rest >> 1;
        }
        left = left >> 1;
        pos = pos + 1;
    }
    proof {
        lemma_weighted_step(0, 0, pow2(pos as nat) as int, 0, 0);
    }
    ret
}

/// Every bit of a word at position 64 or above is zero.
proof fn lemma_bit_at_word(w: u64, i: u64)
    ensures
        i < 64 ==> bit_at(w as nat, i as nat) == (w >> i) & 1,
        i >= 64 ==> bit_at(w as nat, i as nat) == 0,
{
    lemma2_to64();
    lemma2_to64_rest();
    if i < 64 {
        lemma_u64_shr_is_div(w, i);
        lemma_halves(w >> i);
    } else {
        if i > 64 {
            lemma_pow2_strictly_increases(64, i as nat);
        }
        vstd::arithmetic::div_mod::lemma_basic_div(w as int, pow2(i as nat) as int);
    }
}

proof fn lemma_shift_in(acc: u64, b: u64)
    by (bit_vector)
    requires
        b <= 1,
    ensures
        (acc << 1) | b == (acc & 0x7fff_ffff_ffff_ffff) * 2 + b,
        acc & 0x7fff_ffff_ffff_ffff == acc % 0x8000_0000_0000_0000,
{
}

/// What a reversal wider than the word leaves in the word: beyond 64 bits
/// each further position only doubles the result.
proof fn lemma_reverse_beyond_word(w: u64, extra: nat)
    ensures
        spec_reverse(w as nat, 64 + extra) == pow2(extra) * spec_reverse(w as nat, 64),
    decreases extra,
{
    if extra == 0 {
        lemma2_to64();
    } else {
        lemma_reverse_beyond_word(w, (extra - 1) as nat);
        lemma_pow2_unfold(extra);
        lemma_pow2_pos((63 + extra) as nat);
        lemma2_to64();
        lemma2_to64_rest();
        if extra > 1 {
            lemma_pow2_strictly_increases(64, (63 + extra) as nat);
        }
        vstd::arithmetic::div_mod::lemma_basic_div(w as int, pow2((63 + extra) as nat) as int);
        assert(bit_at(w as nat, (63 + extra) as nat) == 0);
        assert(2 * (pow2((extra - 1) as nat) * spec_reverse(w as nat, 64)) == (2 * pow2(
            (extra - 1) as nat,
        )) * spec_reverse(w as nat, 64)) by (nonlinear_arith);
    }
}

proof fn lemma_reverse_wide(w: u64, width: nat)
    requires
        width >= 128,
    ensures
        spec_reverse(w as nat, width) % pow2(64) == 0,
{
    let extra = (width - 64) as nat;
    lemma_reverse_beyond_word(w, extra);
    vstd::arithmetic::power2::lemma_pow2_adds(64, (extra - 64) as nat);
    let r = spec_reverse(w as nat, 64);
    let k = pow2((extra - 64) as nat);
    assert(pow2(extra) * r == (k * r) * pow2(64)) by (nonlinear_arith)
        requires
            pow2(extra) == pow2(64) * k,
    ;
    lemma_pow2_pos(64);
    vstd::arithmetic::div_mod::lemma_mod_multiples_basic((k * r) as int, pow2(64) as int);
}

/// Reverses the order of the low `8 * size` bits of `w`. Bits of the result
/// that would lie beyond the word are dropped.
pub fn reverse(w: &Wordt, size: usize) -> (r: Wordt)
    ensures
        r == spec_reverse_word(*w, size as nat),
{
    if size >= 16 {
        proof {
            lemma_reverse_wide(*w, 8 * size as nat);
        }
        return 0;
    }
    let width: usize = 8 * size;
    let mut ret: Wordt = 0;
    let mut i: usize = 0;
    proof {
        lemma2_to64();
        lemma2_to64_rest();
    }
    while i < width
        invariant
            i <= width < 128,
            ret == spec_reverse(*w as nat, i as nat) % pow2(64),
            pow2(64) == 0x1_0000_0000_0000_0000,
        decreases width - i,
    {
        let b: Wordt = if i < 64 {
            (*w >> (i as u64)) & 1
        } else {
            0
        };
        proof {
            lemma_bit_at_word(*w, i as u64);
            lemma_shift_in(ret, b);
        }
        ret = (ret << 1) | b;
        i = i + 1;
    }
    ret
}

/// Reads the low `size` bits of `w`, given as the pair `(w, size)`, as a
/// two's complement number.
pub fn twoscomp(pair: (Wordt, Wordt)) -> (r: Signt)
    requires
        pair.1 <= 64,
    ensures
        r == spec_twoscomp(pair.0 as nat, pair.1 as nat),
{
    let w: Wordt = pair.0;
    let size: Wordt = pair.1;
    proof {
        lemma2_to64();
        lemma2_to64_rest();
    }
    if size == 0 {
        0
    } else if size == 64 {
        if w < 0x8000_0000_0000_0000 {
            w as i64
        } else {
            -((u64::MAX - w) as i64) - 1
        }
    } else {
        let modulus: Wordt = 1 << size;
        let half: Wordt = 1 << (size - 1);
        proof {
            lemma_one_shl(size);
            lemma_one_shl((size - 1) as u64);
            lemma_pow2_unfold(size as nat);
            lemma_pow2_strictly_increases(size as nat, 64);
            lemma_low_mask(w, size);
        }
        let low: Wordt = w & (modulus - 1);
        if low < half {
            low as i64
        } else {
            -((modulus - low) as i64)
        }
    }
}

proof fn lemma_low_mask(w: u64, n: u64)
    requires
        n < 64,
    ensures
        w & (((1u64 << n) - 1) as u64) == w as nat % pow2(n as nat),
{
    lemma_one_shl(n);
    lemma_u64_pow2_no_overflow(n as nat);
    vstd::bits::lemma_u64_low_bits_mask_is_mod(w, n as nat);
}

/// The weight of byte `k + 1` is 256 times that of byte `k`.
proof fn lemma_pow2_byte(k: nat)
    ensures
        pow2(8 * (k + 1)) == 256 * pow2(8 * k),
        pow2(8 * k) > 0,
{
    vstd::arithmetic::power2::lemma_pow2_adds(8, 8 * k);
    lemma2_to64();
    lemma_pow2_pos(8 * k);
    assert(8 + 8 * k == 8 * (k + 1));
}

/// A little-endian number splits after its first `k` bytes.
proof fn lemma_from_le_split(s: Seq<u8>, k: nat)
    requires
        k <= s.len(),
    ensures
        spec_from_le(s) == spec_from_le(s.take(k as int)) + pow2(8 * k) * spec_from_le(
            s.skip(k as int),
        ),
        spec_from_le(s.take(k as int)) < pow2(8 * k),
    decreases k,
{
    lemma2_to64();
    if k == 0 {
        assert(s.skip(0) =~= s);
        assert(s.take(0) =~= Seq::<u8>::empty());
        assert(pow2(0) * spec_from_le(s) == spec_from_le(s)) by (nonlinear_arith)
            requires
                pow2(0) == 1,
        ;
    } else {
        let tail = s.drop_first();
        let j = (k - 1) as nat;
        lemma_from_le_split(tail, j);
        assert(s.take(k as int).drop_first() =~= tail.take(j as int));
        assert(tail.skip(j as int) =~= s.skip(k as int));
        lemma_pow2_byte(j);
        let hi = spec_from_le(s.skip(k as int));
        let p = pow2(8 * j);
        assert(256 * (p * hi) == (256 * p) * hi) by (nonlinear_arith);
        assert(8 * (j + 1) == 8 * k);
        assert(spec_from_le(s.take(k as int)) == s[0] as nat + 256 * spec_from_le(
            tail.take(j as int),
        ));
    }
}

/// A big-endian number splits before its last `s.len() - k` bytes.
proof fn lemma_from_be_split(s: Seq<u8>, k: nat)
    requires
        k <= s.len(),
    ensures
        spec_from_be(s) == spec_from_be(s.take(k as int)) * pow2((8 * (s.len() - k)) as nat)
            + spec_from_be(s.skip(k as int)),
        spec_from_be(s.skip(k as int)) < pow2((8 * (s.len() - k)) as nat),
    decreases s.len() - k,
{
    lemma2_to64();
    if k == s.len() {
        assert(s.take(k as int) =~= s);
        assert(s.skip(k as int) =~= Seq::<u8>::empty());
        assert(spec_from_be(s) * pow2(0) == spec_from_be(s)) by (nonlinear_arith)
            requires
                pow2(0) == 1,
        ;
    } else {
        let front = s.drop_last();
        let j = (s.len() - 1 - k) as nat;
        lemma_from_be_split(front, k);
        assert(front.take(k as int) =~= s.take(k as int));
        assert(s.skip(k as int).drop_last() =~= front.skip(k as int));
        lemma_pow2_byte(j);
        let hi = spec_from_be(s.take(k as int));
        let p = pow2(8 * j);
        assert(256 * (hi * p) == hi * (256 * p)) by (nonlinear_arith);
        assert(8 * (j + 1) == 8 * (s.len() - k));
        assert(8 * j == 8 * (front.len() - k));
        assert(spec_from_be(s.skip(k as int)) == 256 * spec_from_be(front.skip(k as int))
            + s.last() as nat);
    }
}

proof fn lemma_mod_of_split(low: nat, hi: nat, modulus: nat)
    requires
        low < modulus,
    ensures
        (low + modulus * hi) % modulus == low,
{
    vstd::arithmetic::div_mod::lemma_mod_multiples_vanish(hi as int, low as int, modulus as int);
    vstd::arithmetic::div_mod::lemma_small_mod(low, modulus);
    assert(modulus * hi == hi * modulus) by (nonlinear_arith);
}

/// Assembles a word from bytes given least significant first. Bytes beyond
/// the eighth do not fit in the word and are dropped.
pub fn wordt_from_le(bytes: &Vec<u8>) -> (r: Wordt)
    ensures
        r == spec_from_le(bytes@) % pow2(64),
{
    let len = bytes.len();
    let used: usize = if len < 8 {
        len
    } else {
        8
    };
    let mut ret: Wordt = 0;
    let mut i: usize = used;
    let ghost mut taken: nat = 0;
    proof {
        lemma2_to64();
        lemma2_to64_rest();
        assert(bytes@.subrange(used as int, used as int) =~= Seq::<u8>::empty());
    }
    while i > 0
        invariant
            i <= used <= 8,
            used <= bytes.len(),
            taken == used - i,
            ret == spec_from_le(bytes@.subrange(i as int, used as int)),
            ret < pow2(8 * taken),
        decreases i,
    {
        i = i - 1;
        proof {
            assert(bytes@.subrange(i as int, used as int).drop_first() =~= bytes@.subrange(
                i + 1,
                used as int,
            ));
            lemma_pow2_byte(taken);
            lemma2_to64_rest();
            if taken < 7 {
                lemma_pow2_strictly_increases(8 * taken, 56);
            }
            taken = taken + 1;
        }
        ret = ret * 256 + bytes[i] as u64;
    }
    proof {
        lemma_from_le_split(bytes@, used as nat);
        assert(bytes@.subrange(0, used as int) =~= bytes@.take(used as int));
        if used < 8 {
            lemma_pow2_strictly_increases(8 * taken, 64);
        }
        lemma_mod_of_split(ret as nat, spec_from_le(bytes@.skip(used as int)), pow2(64));
        if used < 8 {
            assert(bytes@.skip(used as int) =~= Seq::<u8>::empty());
            assert(pow2(8 * taken) * 0 == 0) by (nonlinear_arith);
            vstd::arithmetic::div_mod::lemma_small_mod(ret as nat, pow2(64));
        }
    }
    ret
}

/// Assembles a word from bytes given most significant first. Only the last
/// eight bytes fit in the word.
pub fn wordt_from_be(bytes: &Vec<u8>) -> (r: Wordt)
    ensures
        r == spec_from_be(bytes@) % pow2(64),
{
    let len = bytes.len();
    let start: usize = if len < 8 {
        0
    } else {
        len - 8
    };
    let mut ret: Wordt = 0;
    let mut i: usize = start;
    let ghost mut taken: nat = 0;
    proof {
        lemma2_to64();
        lemma2_to64_rest();
        assert(bytes@.subrange(start as int, start as int) =~= Seq::<u8>::empty());
    }
    while i < len
        invariant
            start <= i <= len,
            len == bytes.len(),
            len - start <= 8,
            taken == i - start,
            ret == spec_from_be(bytes@.subrange(start as int, i as int)),
            ret < pow2(8 * taken),
        decreases len - i,
    {
        proof {
            assert(bytes@.subrange(start as int, i + 1).drop_last() =~= bytes@.subrange(
                start as int,
                i as int,
            ));
            lemma_pow2_byte(taken);
            lemma2_to64_rest();
            if taken < 7 {
                lemma_pow2_strictly_increases(8 * taken, 56);
            }
            taken = taken + 1;
        }
        ret = ret * 256 + bytes[i] as u64;
        i = i + 1;
    }
    proof {
        lemma_from_be_split(bytes@, start as nat);
        assert(bytes@.subrange(start as int, len as int) =~= bytes@.skip(start as int));
        let hi = spec_from_be(bytes@.take(start as int));
        let tail_bits = pow2((8 * (len - start)) as nat);
        assert(8 * taken == 8 * (len - start));
        if len < 8 {
            assert(bytes@.take(0) =~= Seq::<u8>::empty());
            lemma_pow2_strictly_increases(8 * taken, 64);
            assert(hi * tail_bits == 0) by (nonlinear_arith)
                requires
                    hi == 0,
            ;
            vstd::arithmetic::div_mod::lemma_small_mod(ret as nat, pow2(64));
        } else {
            assert(hi * tail_bits == tail_bits * hi) by (nonlinear_arith);
            lemma_mod_of_split(ret as nat, hi, pow2(64));
        }
    }
    ret
}

/// Applies one operation to `v`.
pub fn apply_bit_op(op: &BitOp, v: Wordt) -> (r: Wordt)
    ensures
        r == spec_apply_op(v, *op),
{
    match op.typ {
        BitOpType::AND => v & op.val,
        BitOpType::OR => v | op.val,
        BitOpType::XOR => v ^ op.val,
        BitOpType::SL => if op.val < WORD_BITS {
            v << op.val
        } else {
            0
        },
        BitOpType::SR => if op.val < WORD_BITS {
            v >> op.val
        } else {
            0
        },
    }
}

/// Applies the operations of `ops` to `v` in order, first to last.
pub fn apply_bit_ops(ops: &Vec<BitOp>, v: &mut Wordt)
    ensures
        *final(v) == spec_apply_ops(*old(v), ops@),
{
    let mut i: usize = 0;
    proof {
        assert(ops@.skip(0) =~= ops@);
    }
    while i < ops.len()
        invariant
            i <= ops.len(),
            spec_apply_ops(*old(v), ops@) == spec_apply_ops(*v, ops@.skip(i as int)),
        decreases ops.len() - i,
    {
        proof {
            assert(ops@.skip(i as int).drop_first() =~= ops@.skip(i + 1));
        }
        *v = apply_bit_op(&ops[i], *v);
        i = i + 1;
    }
}

proof fn lemma_and_halves(w: u64, m: u64)
    by (bit_vector)
    ensures
        (w & m) / 2 == (w / 2) & (m / 2),
        (w & m) % 2 == (if w % 2 == 1 && m % 2 == 1 { 1u64 } else { 0u64 }),
        m == 0 ==> w & m == 0,
{
}

/// Scattering what was gathered under a mask gives back exactly the bits of
/// the word that lie under the mask.
pub proof fn lemma_align_of_minimize(w: Wordt, mask: Bitmask)
    ensures
        spec_align(spec_minimize(w as nat, mask as nat), mask as nat) == (w & mask),
    decreases mask,
{
    lemma_and_halves(w, mask);
    let both = w & mask;
    assert(both == 2 * (both / 2) + both % 2);
    if mask != 0 {
        lemma_align_of_minimize(w / 2, mask / 2);
        let sub = spec_minimize(w as nat / 2, mask as nat / 2);
        assert(spec_align(sub, mask as nat / 2) == both / 2);
        if mask % 2 == 1 {
            let gathered = spec_minimize(w as nat, mask as nat);
            assert(gathered == w as nat % 2 + 2 * sub);
            assert(gathered % 2 == w as nat % 2);
            assert(gathered / 2 == sub);
        }
    }
}

proof fn lemma_mod_double(v: nat, p: nat)
    requires
        p > 0,
    ensures
        v % (2 * p) == v % 2 + 2 * ((v / 2) % p),
{
    let q = (v / 2) / p;
    let r = (v / 2) % p;
    vstd::arithmetic::div_mod::lemma_fundamental_div_mod((v / 2) as int, p as int);
    assert(v == q * (2 * p) + (v % 2 + 2 * r)) by (nonlinear_arith)
        requires
            v / 2 == p * q + r,
            v == 2 * (v / 2) + v % 2,
    ;
    vstd::arithmetic::div_mod::lemma_fundamental_div_mod_converse_mod(
        v as int,
        (2 * p) as int,
        q as int,
        (v % 2 + 2 * r) as int,
    );
}

/// Gathering what was scattered over a mask gives back the value, cut down
/// to as many low bits as the mask has.
pub proof fn lemma_minimize_of_align(v: nat, mask: nat)
    ensures
        spec_minimize(spec_align(v, mask), mask) == v % pow2(popcount(mask)),
    decreases mask,
{
    if mask == 0 {
        lemma2_to64();
    } else if mask % 2 == 1 {
        lemma_minimize_of_align(v / 2, mask / 2);
        lemma_pow2_pos(popcount(mask / 2));
        lemma_pow2_unfold(popcount(mask));
        lemma_mod_double(v, pow2(popcount(mask / 2)));
    } else {
        lemma_minimize_of_align(v, mask / 2);
    }
}

/// The same law on words: for a mask of fewer than 64 bits the value is cut
/// down by a bitwise AND with the low `popcount(mask)` ones; a full mask
/// keeps the whole value.
pub proof fn lemma_minimize_of_align_word(v: Wordt, mask: Bitmask)
    ensures
        popcount(mask as nat) <= 64,
        popcount(mask as nat) < 64 ==> spec_minimize(
            spec_align(v as nat, mask as nat),
            mask as nat,
        ) == v & (((1u64 << (popcount(mask as nat) as u64)) - 1) as u64),
        popcount(mask as nat) == 64 ==> spec_minimize(
            spec_align(v as nat, mask as nat),
            mask as nat,
        ) == v,
{
    lemma2_to64();
    lemma_bounds(v as nat, mask as nat, 64);
    lemma_minimize_of_align(v as nat, mask as nat);
    let n = popcount(mask as nat);
    if n < 64 {
        lemma_low_mask(v, n as u64);
    } else {
        vstd::arithmetic::div_mod::lemma_small_mod(v as nat, pow2(64));
    }
}

/// A two's complement reading of `width` bits lies between `-2^(width-1)`
/// and `2^(width-1) - 1`.
pub proof fn lemma_twoscomp_range(v: nat, width: nat)
    requires
        width >= 1,
    ensures
        -pow2((width - 1) as nat) <= spec_twoscomp(v, width) <= pow2((width - 1) as nat) - 1,
{
    lemma_pow2_unfold(width);
    lemma_pow2_pos(width);
    vstd::arithmetic::div_mod::lemma_mod_bound(v as int, pow2(width) as int);
}

/// The word that holds the signed number `t` in two's complement.
pub open spec fn spec_as_word(t: int) -> nat {
    (t % (pow2(64) as int)) as nat
}

/// Reading a two's complement result back as a word and interpreting it
/// again at the same width changes nothing.
pub proof fn lemma_twoscomp_round_trip(v: nat, width: nat)
    requires
        1 <= width <= 64,
    ensures
        spec_twoscomp(spec_as_word(spec_twoscomp(v, width)), width) == spec_twoscomp(v, width),
{
    let m = pow2(width) as int;
    let big = pow2(64) as int;
    let low = (v % pow2(width)) as int;
    let t = spec_twoscomp(v, width);
    lemma_pow2_pos(width);
    lemma_pow2_pos(64);
    lemma_pow2_unfold(width);
    vstd::arithmetic::div_mod::lemma_mod_bound(v as int, m);
    vstd::arithmetic::power2::lemma_pow2_adds(width, (64 - width) as nat);
    let k = pow2((64 - width) as nat) as int;
    lemma_pow2_pos((64 - width) as nat);
    assert(big == m * k);
    assert(m <= big) by (nonlinear_arith)
        requires
            big == m * k,
            k >= 1,
            m >= 1,
    ;
    if t >= 0 {
        vstd::arithmetic::div_mod::lemma_small_mod(t as nat, big as nat);
        vstd::arithmetic::div_mod::lemma_small_mod(low as nat, m as nat);
    } else {
        assert(t == low - m);
        // t lies in [-big, 0), so its word is t + big = low + m * (k - 1).
        vstd::arithmetic::div_mod::lemma_mod_multiples_vanish(1, t, big);
        vstd::arithmetic::div_mod::lemma_small_mod((t + big) as nat, big as nat);
        assert(t + big == m * (k - 1) + low) by (nonlinear_arith)
            requires
                t == low - m,
                big == m * k,
        ;
        vstd::arithmetic::div_mod::lemma_mod_multiples_vanish(k - 1, low, m);
        vstd::arithmetic::div_mod::lemma_small_mod(low as nat, m as nat);
        assert(m * (k - 1) == (k - 1) * m) by (nonlinear_arith);
    }
}

/// A reversal never sets a bit at or above its width.
pub proof fn lemma_reverse_bound(v: nat, width: nat)
    ensures
        spec_reverse(v, width) < pow2(width),
    decreases width,
{
    if width == 0 {
        lemma2_to64();
    } else {
        lemma_reverse_bound(v, (width - 1) as nat);
        lemma_pow2_unfold(width);
    }
}

/// Bit `i + 1` of `v` is bit `i` of `v / 2`.
proof fn lemma_bit_at_half(v: nat, i: nat)
    ensures
        bit_at(v, i + 1) == bit_at(v / 2, i),
{
    lemma_pow2_unfold(i + 1);
    lemma_pow2_pos(i);
    vstd::arithmetic::div_mod::lemma_div_denominator(v as int, 2, pow2(i) as int);
}

/// The reversal can also be built from the low end: the lowest bit of `v`
/// becomes the highest bit of the result.
proof fn lemma_reverse_low_first(v: nat, width: nat)
    requires
        width >= 1,
    ensures
        spec_reverse(v, width) == (v % 2) * pow2((width - 1) as nat) + spec_reverse(
            v / 2,
            (width - 1) as nat,
        ),
    decreases width,
{
    lemma2_to64();
    if width == 1 {
        assert(spec_reverse(v, 0) == 0);
        assert(spec_reverse(v / 2, 0) == 0);
        assert(v / pow2(0) == v) by (nonlinear_arith)
            requires
                pow2(0) == 1,
        ;
        assert(bit_at(v, 0) == v % 2);
        assert((v % 2) * pow2(0) == v % 2) by (nonlinear_arith)
            requires
                pow2(0) == 1,
        ;
    } else {
        let n = (width - 1) as nat;
        lemma_reverse_low_first(v, n);
        lemma_bit_at_half(v, (n - 1) as nat);
        lemma_pow2_unfold(n);
        let b = v % 2;
        let p = pow2((n - 1) as nat);
        assert(2 * (b * p) == b * (2 * p)) by (nonlinear_arith);
    }
}

/// Two numbers that agree on their low `width` bits have the same reversal.
proof fn lemma_reverse_same_bits(x: nat, y: nat, width: nat)
    requires
        forall|j: nat| j < width ==> bit_at(x, j) == bit_at(y, j),
    ensures
        spec_reverse(x, width) == spec_reverse(y, width),
    decreases width,
{
    if width > 0 {
        lemma_reverse_same_bits(x, y, (width - 1) as nat);
    }
}

/// Adding a multiple of `2^width` leaves the bits below `width` as they are
/// and, for a small enough `y`, puts the lowest bit of `k` at position `width`.
proof fn lemma_bits_of_sum(y: nat, k: nat, width: nat, j: nat)
    requires
        j < width,
    ensures
        bit_at(y + k * pow2(width), j) == bit_at(y, j),
{
    let d = pow2(j);
    let e = pow2((width - j - 1) as nat);
    lemma_pow2_pos(j);
    vstd::arithmetic::power2::lemma_pow2_adds(j, (width - j) as nat);
    lemma_pow2_unfold((width - j) as nat);
    assert(k * pow2(width) == (2 * (k * e)) * d) by (nonlinear_arith)
        requires
            pow2(width) == d * pow2((width - j) as nat),
            pow2((width - j) as nat) == 2 * e,
    ;
    vstd::arithmetic::div_mod::lemma_hoist_over_denominator(y as int, (2 * (k * e)) as int, d);
}

/// Reversing twice within the same width gives back any value that fits in
/// that width.
pub proof fn lemma_reverse_twice(v: nat, width: nat)
    requires
        v < pow2(width),
    ensures
        spec_reverse(spec_reverse(v, width), width) == v,
    decreases width,
{
    lemma2_to64();
    if width > 0 {
        let n = (width - 1) as nat;
        let b = v % 2;
        let inner = spec_reverse(v / 2, n);
        let r = spec_reverse(v, width);
        lemma_pow2_unfold(width);
        lemma_pow2_pos(n);
        lemma_reverse_low_first(v, width);
        lemma_reverse_bound(v / 2, n);
        lemma_reverse_twice(v / 2, n);
        assert(r == inner + b * pow2(n));
        assert forall|j: nat| j < n implies bit_at(r, j) == bit_at(inner, j) by {
            lemma_bits_of_sum(inner, b, n, j);
        }
        lemma_reverse_same_bits(r, inner, n);
        assert(b * pow2(n) == pow2(n) * b) by (nonlinear_arith);
        vstd::arithmetic::div_mod::lemma_fundamental_div_mod_converse_div(
            r as int,
            pow2(n) as int,
            b as int,
            inner as int,
        );
        assert(bit_at(r, n) == b);
    }
}

proof fn lemma_under_mask_step(a: u64, m: u64, b: u64)
    by (bit_vector)
    requires
        a <= m / 2,
        a & !(m / 2) == 0,
        b <= 1,
        b == 1 ==> m % 2 == 1,
    ensures
        (2 * a + b) <= m,
        ((2 * a + b) as u64) & !m == 0,
{
}

/// What is spread over a mask has no bit outside the mask.
pub proof fn lemma_align_under_mask(v: nat, mask: Bitmask)
    ensures
        spec_align(v, mask as nat) <= mask,
        (spec_align(v, mask as nat) as Wordt) & !mask == 0,
    decreases mask,
{
    if mask == 0 {
        assert(0u64 & !0u64 == 0) by (bit_vector);
    } else if mask % 2 == 1 {
        lemma_align_under_mask(v / 2, mask / 2);
        lemma_under_mask_step(
            spec_align(v / 2, mask as nat / 2) as u64,
            mask,
            (v % 2) as u64,
        );
    } else {
        lemma_align_under_mask(v, mask / 2);
        lemma_under_mask_step(spec_align(v, mask as nat / 2) as u64, mask, 0);
    }
}

/// On words: reversing twice within the same number of bytes, at most
/// eight, gives back any word that fits in that many bytes.
pub proof fn lemma_reverse_word_twice(w: Wordt, size: nat)
    requires
        size <= 8,
        w < pow2(8 * size),
    ensures
        spec_reverse_word(spec_reverse_word(w, size), size) == w,
{
    lemma2_to64();
    lemma_reverse_bound(w as nat, 8 * size);
    if size < 8 {
        lemma_pow2_strictly_increases(8 * size, 64);
    }
    vstd::arithmetic::div_mod::lemma_small_mod(spec_reverse(w as nat, 8 * size), pow2(64));
    lemma_reverse_twice(w as nat, 8 * size);
    vstd::arithmetic::div_mod::lemma_small_mod(w as nat, pow2(64));
}

/// Unions of masks can be regrouped, and the empty mask adds nothing.
pub(crate) proof fn lemma_or_assoc(a: u64, b: u64, c: u64)
    by (bit_vector)
    ensures
        (a | b) | c == a | (b | c),
        a | 0 == a,
{
}

} // verus!
