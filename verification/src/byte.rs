//! A fixed-width word of 32 individually addressable bits, most-significant
//! bit first, representing a two's-complement signed integer. All arithmetic
//! is built from the logic-gate operators of `Bit`.

use vstd::prelude::*;
use vstd::arithmetic::power2::*;
use vstd::arithmetic::div_mod::{
    lemma_fundamental_div_mod_converse, lemma_div_pos_is_pos, lemma_div_nonincreasing,
    lemma_add_mod_noop, lemma_small_mod,
};
use crate::bit::Bit;
use crate::model::{
    bitval, uval, ival, and_seq, or_seq, xor_seq, mask_seq, flip, one_seq, neg_seq, add_bits,
    add_carry, lemma_uval_all_false, lemma_uval_split, lemma_uval_msb, lemma_ival_range,
    lemma_add_bits_value, lemma_add_bits_front, lemma_one_seq_uval, lemma_neg_uval,
    lemma_uval_bound,
    lemma_neg_ival, lemma_masked_select, lemma_mask_const, lemma_add_overflow,
    lemma_sub_overflow, lemma_uval_push, magnitude, abs_val, quot, lemma_magnitude_uval,
    lemma_uval_bit_weight, lemma_shl_uval, lemma_shl_uval_mod, lemma_uval_zero,
    lemma_unsigned_compare, lemma_pow_abs, lemma_pow_intermediate, lemma_div_at_least_one,
    lemma_pow2_le_pow, lemma_double_negation,
};
use vstd::arithmetic::power::{pow, lemma_pow0, lemma_pow1, lemma_pow_adds, lemma_pow_positive};

verus! {

/// The fixed width of a word, in bits.
pub const WIDTH: usize = 32;

/// The failures an operation can raise. All are unrecoverable at the point
/// of detection and surfaced immediately to the caller.
#[derive(Clone, Copy, PartialEq, Eq, Structural, Debug)]
pub enum ArithError {
    /// A decimal magnitude does not fit in the fixed width, or an
    /// addition's result sign is inconsistent with its operands' shared
    /// sign (signed overflow).
    Overflow,
    /// An operation with an undefined mathematical result: division by a
    /// zero word, or a logarithm of a non-positive value or with a base
    /// at most 1.
    Domain,
}

/// A word of exactly 32 bits; index 0 is the sign bit, index 31 the least
/// significant bit. The view of a `Byte` is the `Seq<bool>` of its bits.
pub struct Byte {
    data: Vec<Bit>,
}

impl View for Byte {
    type V = Seq<bool>;

    closed spec fn view(&self) -> Seq<bool> {
        self.data@.map_values(|b: Bit| b@)
    }
}

impl Byte {
    /// A word is well formed when it holds exactly 32 bits.
    pub open spec fn wf(&self) -> bool {
        self@.len() == 32
    }

    /// The all-zero word.
    pub fn empty() -> (r: Byte)
        ensures
            r.wf(),
            r@ =~= Seq::new(32, |i: int| false),
            uval(r@) == 0,
    {
        let mut data: Vec<Bit> = Vec::new();
        let mut i: usize = 0;
        while i < 32
            invariant
                i <= 32,
                data@.len() == i,
                forall|j: int| 0 <= j < i ==> !data@[j]@,
            decreases 32 - i,
        {
            data.push(Bit::empty());
            i += 1;
        }
        let r = Byte { data };
        proof {
            assert(r@ =~= Seq::new(32, |i: int| false));
            lemma_uval_all_false(r@);
        }
        r
    }

    /// The number of bits in the word: always 32.
    pub fn len(&self) -> (r: usize)
        requires
            self.wf(),
        ensures
            r == 32,
    {
        self.data.len()
    }

    /// The number of bits in the word: always 32.
    pub fn size(&self) -> (r: usize)
        requires
            self.wf(),
        ensures
            r == 32,
    {
        self.data.len()
    }

    /// The bit at position `i` (0 is the sign bit).
    pub fn bit_at(&self, i: usize) -> (r: Bit)
        requires
            self.wf(),
            i < 32,
        ensures
            r@ == self@[i as int],
    {
        self.data[i]
    }

    /// A bit-for-bit copy of the word.
    pub fn duplicate(&self) -> (r: Byte)
        requires
            self.wf(),
        ensures
            r.wf(),
            r@ == self@,
    {
        let mut res = Byte::empty();
        let mut i: usize = 0;
        while i < 32
            invariant
                i <= 32,
                self.wf(),
                res.wf(),
                forall|j: int| 0 <= j < i ==> res@[j] == self@[j],
            decreases 32 - i,
        {
            res.set_bit(i, self.bit_at(i));
            i += 1;
        }
        proof {
            assert(res@ =~= self@);
        }
        res
    }

    /// Overwrites the bit at position `i`.
    pub fn set_bit(&mut self, i: usize, b: Bit)
        requires
            old(self).wf(),
            i < 32,
        ensures
            final(self).wf(),
            final(self)@ == old(self)@.update(i as int, b@),
    {
        self.data.set(i, b);
        proof {
            assert(self@ =~= old(self)@.update(i as int, b@));
        }
    }

    /// Element-wise gate AND of two words.
    pub fn bit_and(&self, rhs: &Byte) -> (r: Byte)
        requires
            self.wf(),
            rhs.wf(),
        ensures
            r.wf(),
            r@ == and_seq(self@, rhs@),
    {
        let mut res = Byte::empty();
        let mut i: usize = 0;
        while i < 32
            invariant
                i <= 32,
                self.wf(),
                rhs.wf(),
                res.wf(),
                forall|j: int| 0 <= j < i ==> res@[j] == (self@[j] && rhs@[j]),
            decreases 32 - i,
        {
            let b = self.bit_at(i).and(rhs.bit_at(i));
            res.set_bit(i, b);
            i += 1;
        }
        proof {
            assert(res@ =~= and_seq(self@, rhs@));
        }
        res
    }

    /// A single bit broadcast-ANDed across the word: the masked-select
    /// primitive. A 1 bit passes the word through, a 0 bit zeroes it.
    pub fn and_bit(&self, rhs: Bit) -> (r: Byte)
        requires
            self.wf(),
        ensures
            r.wf(),
            r@ == mask_seq(self@, rhs@),
    {
        let mut res = Byte::empty();
        let mut i: usize = 0;
        while i < 32
            invariant
                i <= 32,
                self.wf(),
                res.wf(),
                forall|j: int| 0 <= j < i ==> res@[j] == (self@[j] && rhs@),
            decreases 32 - i,
        {
            let b = self.bit_at(i).and(rhs);
            res.set_bit(i, b);
            i += 1;
        }
        proof {
            assert(res@ =~= mask_seq(self@, rhs@));
        }
        res
    }

    /// Element-wise gate OR of two words.
    pub fn bit_or(&self, rhs: &Byte) -> (r: Byte)
        requires
            self.wf(),
            rhs.wf(),
        ensures
            r.wf(),
            r@ == or_seq(self@, rhs@),
    {
        let mut res = Byte::empty();
        let mut i: usize = 0;
        while i < 32
            invariant
                i <= 32,
                self.wf(),
                rhs.wf(),
                res.wf(),
                forall|j: int| 0 <= j < i ==> res@[j] == (self@[j] || rhs@[j]),
            decreases 32 - i,
        {
            let b = self.bit_at(i).or(rhs.bit_at(i));
            res.set_bit(i, b);
            i += 1;
        }
        proof {
            assert(res@ =~= or_seq(self@, rhs@));
        }
        res
    }

    /// Element-wise gate XOR of two words.
    pub fn bit_xor(&self, rhs: &Byte) -> (r: Byte)
        requires
            self.wf(),
            rhs.wf(),
        ensures
            r.wf(),
            r@ == xor_seq(self@, rhs@),
    {
        let mut res = Byte::empty();
        let mut i: usize = 0;
        while i < 32
            invariant
                i <= 32,
                self.wf(),
                rhs.wf(),
                res.wf(),
                forall|j: int| 0 <= j < i ==> res@[j] == (self@[j] != rhs@[j]),
            decreases 32 - i,
        {
            let b = self.bit_at(i).xor(rhs.bit_at(i));
            res.set_bit(i, b);
            i += 1;
        }
        proof {
            assert(res@ =~= xor_seq(self@, rhs@));
        }
        res
    }

    /// One's complement: gate NOT applied to every bit.
    pub fn bit_not(&self) -> (r: Byte)
        requires
            self.wf(),
        ensures
            r.wf(),
            r@ == flip(self@),
    {
        let mut res = Byte::empty();
        let mut i: usize = 0;
        while i < 32
            invariant
                i <= 32,
                self.wf(),
                res.wf(),
                forall|j: int| 0 <= j < i ==> res@[j] == !self@[j],
            decreases 32 - i,
        {
            let b = self.bit_at(i).not();
            res.set_bit(i, b);
            i += 1;
        }
        proof {
            assert(res@ =~= flip(self@));
        }
        res
    }

    /// The OR of all value bits (positions 1 to 31): 1 exactly when some
    /// value bit is set. The sign bit does not take part.
    pub fn to_bit(&self) -> (r: Bit)
        requires
            self.wf(),
        ensures
            r@ == exists|i: int| 1 <= i < 32 && self@[i],
    {
        let mut bit = Bit::empty();
        let mut i: usize = 1;
        while i < 32
            invariant
                1 <= i <= 32,
                self.wf(),
                bit@ == exists|j: int| 1 <= j < i && self@[j],
            decreases 32 - i,
        {
            bit = self.bit_at(i).or(bit);
            i += 1;
        }
        bit
    }

    /// Logical left shift by `k`: bit `i` receives the bit previously at
    /// `i + k`, and the low `k` positions fill with 0.
    pub fn shl(&self, rhs: usize) -> (r: Byte)
        requires
            self.wf(),
            rhs <= 32,
        ensures
            r.wf(),
            forall|j: int| 0 <= j < 32 - rhs ==> r@[j] == self@[j + rhs],
            forall|j: int| 32 - rhs <= j < 32 ==> !r@[j],
    {
        let mut res = Byte::empty();
        let mut i: usize = 0;
        while i < 32 - rhs
            invariant
                rhs <= 32,
                i <= 32 - rhs,
                self.wf(),
                res.wf(),
                forall|j: int| 0 <= j < i ==> res@[j] == self@[j + rhs],
                forall|j: int| i <= j < 32 ==> !res@[j],
            decreases 32 - rhs - i,
        {
            res.set_bit(i, self.bit_at(i + rhs));
            i += 1;
        }
        res
    }

    /// Arithmetic right shift by `k`: bit `i + k` receives the bit
    /// previously at `i`, and the top `k` positions fill with a copy of the
    /// original sign bit.
    pub fn shr(&self, rhs: usize) -> (r: Byte)
        requires
            self.wf(),
            rhs <= 32,
        ensures
            r.wf(),
            forall|j: int| rhs <= j < 32 ==> r@[j] == self@[j - rhs],
            forall|j: int| 0 <= j < rhs ==> r@[j] == self@[0],
    {
        let mut res = Byte::empty();
        let mut i: usize = 0;
        while i < 32 - rhs
            invariant
                rhs <= 32,
                i <= 32 - rhs,
                self.wf(),
                res.wf(),
                forall|j: int| rhs <= j < rhs + i ==> res@[j] == self@[j - rhs],
            decreases 32 - rhs - i,
        {
            res.set_bit(i + rhs, self.bit_at(i));
            i += 1;
        }
        let mut i: usize = 0;
        while i < rhs
            invariant
                rhs <= 32,
                i <= rhs,
                self.wf(),
                res.wf(),
                forall|j: int| rhs <= j < 32 ==> res@[j] == self@[j - rhs],
                forall|j: int| 0 <= j < i ==> res@[j] == self@[0],
            decreases rhs - i,
        {
            res.set_bit(i, self.bit_at(0));
            i += 1;
        }
        res
    }

    /// Ripple-carry addition with silent wraparound: the bit-by-bit adder
    /// run from the least-significant bit to the most significant, the
    /// final carry discarded. The result is the sum modulo `2^32`.
    pub fn add_wrap(&self, rhs: &Byte) -> (r: Byte)
        requires
            self.wf(),
            rhs.wf(),
        ensures
            r.wf(),
            r@ == add_bits(self@, rhs@, false),
            uval(r@) + pow2(32) * bitval(add_carry(self@, rhs@, false)) == uval(self@) + uval(
                rhs@,
            ),
    {
        let mut res = Byte::empty();
        let mut carry = Bit::new(0);
        let mut i: usize = 32;
        proof {
            assert(self@.subrange(32, 32) =~= Seq::<bool>::empty());
            assert(rhs@.subrange(32, 32) =~= Seq::<bool>::empty());
        }
        while i > 0
            invariant
                i <= 32,
                self.wf(),
                rhs.wf(),
                res.wf(),
                carry@ == add_carry(
                    self@.subrange(i as int, 32),
                    rhs@.subrange(i as int, 32),
                    false,
                ),
                forall|j: int|
                    i <= j < 32 ==> res@[j] == add_bits(
                        self@.subrange(i as int, 32),
                        rhs@.subrange(i as int, 32),
                        false,
                    )[j - i],
            decreases i,
        {
            i -= 1;
            let a = self.bit_at(i);
            let b = rhs.bit_at(i);
            let s = carry.xor(a).xor(b);
            let c2 = a.and(b).or(a.and(carry)).or(b.and(carry));
            proof {
                let sa = self@.subrange(i as int, 32);
                let sb = rhs@.subrange(i as int, 32);
                assert(sa.drop_first() =~= self@.subrange(i as int + 1, 32));
                assert(sb.drop_first() =~= rhs@.subrange(i as int + 1, 32));
                lemma_add_bits_front(sa, sb, false);
                lemma_add_bits_value(sa, sb, false);
            }
            res.set_bit(i, s);
            carry = c2;
        }
        proof {
            assert(self@.subrange(0, 32) =~= self@);
            assert(rhs@.subrange(0, 32) =~= rhs@);
            lemma_add_bits_value(self@, rhs@, false);
            assert(res@ =~= add_bits(self@, rhs@, false));
        }
        res
    }

    /// Two's-complement negation: bitwise NOT followed by adding a word
    /// holding 1. The most negative word, whose magnitude is not
    /// representable, negates to itself.
    pub fn neg(&self) -> (r: Byte)
        requires
            self.wf(),
        ensures
            r.wf(),
            r@ == neg_seq(self@),
            uval(r@) == (if uval(self@) == 0 {
                0nat
            } else {
                (pow2(32) - uval(self@)) as nat
            }),
            ival(self@) != -pow2(31) ==> ival(r@) == -ival(self@),
    {
        let mut one = Byte::empty();
        one.set_bit(31, Bit::new(1));
        let r = self.bit_not().add_wrap(&one);
        proof {
            assert(one@ =~= one_seq());
            lemma_neg_uval(self@);
            lemma_neg_ival(self@);
        }
        r
    }

    /// Gate-level subtraction with silent wraparound: `a - b` computed as
    /// `a + (-b)`, modulo `2^32`.
    pub fn sub_wrap(&self, rhs: &Byte) -> (r: Byte)
        requires
            self.wf(),
            rhs.wf(),
        ensures
            r.wf(),
            r@ == add_bits(self@, neg_seq(rhs@), false),
    {
        self.add_wrap(&rhs.neg())
    }

    /// Checked addition: the ripple-carry sum when it is representable,
    /// and `Overflow` exactly when the operands share a sign that the true
    /// sum cannot keep.
    pub fn add(&self, rhs: &Byte) -> (r: Result<Byte, ArithError>)
        requires
            self.wf(),
            rhs.wf(),
        ensures
            r is Ok <==> -pow2(31) <= ival(self@) + ival(rhs@) < pow2(31),
            r matches Ok(w) ==> w.wf() && w@ == add_bits(self@, rhs@, false) && ival(w@) == ival(
                self@,
            ) + ival(rhs@),
            r matches Err(e) ==> e == ArithError::Overflow,
    {
        let s = self.add_wrap(rhs);
        let ov = self.bit_at(0).xor(rhs.bit_at(0)).not().and(s.bit_at(0).xor(self.bit_at(0)));
        proof {
            lemma_add_overflow(self@, rhs@);
        }
        if ov.is_true() {
            Err(ArithError::Overflow)
        } else {
            Ok(s)
        }
    }

    /// Checked subtraction: `a - b` when the difference is representable,
    /// and `Overflow` exactly when the operands' signs differ and the true
    /// difference cannot keep the first operand's sign.
    pub fn sub(&self, rhs: &Byte) -> (r: Result<Byte, ArithError>)
        requires
            self.wf(),
            rhs.wf(),
        ensures
            r is Ok <==> -pow2(31) <= ival(self@) - ival(rhs@) < pow2(31),
            r matches Ok(w) ==> w.wf() && w@ == add_bits(self@, neg_seq(rhs@), false) && ival(w@)
                == ival(self@) - ival(rhs@),
            r matches Err(e) ==> e == ArithError::Overflow,
    {
        let s = self.sub_wrap(rhs);
        let ov = self.bit_at(0).xor(rhs.bit_at(0)).and(s.bit_at(0).xor(self.bit_at(0)));
        proof {
            lemma_sub_overflow(self@, rhs@);
        }
        if ov.is_true() {
            Err(ArithError::Overflow)
        } else {
            Ok(s)
        }
    }

    /// Gate-level equality: the XOR of the operands, with the NOT of every
    /// XOR bit ANDed together into the flag bit at position 31. The flag is
    /// 1 exactly when the words are equal; every other bit is 0.
    pub fn eq(first: &Byte, second: &Byte) -> (r: Byte)
        requires
            first.wf(),
            second.wf(),
        ensures
            r.wf(),
            forall|j: int| 0 <= j < 31 ==> !r@[j],
            r@[31] == (first@ == second@),
    {
        let diff = first.bit_xor(second);
        let mut flag = Bit::new(1);
        let mut i: usize = 0;
        while i < 32
            invariant
                i <= 32,
                first.wf(),
                second.wf(),
                diff.wf(),
                diff@ == xor_seq(first@, second@),
                flag@ == (forall|j: int| 0 <= j < i ==> first@[j] == second@[j]),
            decreases 32 - i,
        {
            flag = diff.bit_at(i).not().and(flag);
            i += 1;
        }
        let mut res = Byte::empty();
        res.set_bit(31, flag);
        proof {
            if flag@ {
                assert(first@ =~= second@);
            }
        }
        res
    }

    /// Greater-or-equal: the sign of the ripple-carry difference, ORed with
    /// the equality flag. The flag bit at position 31 is 1 exactly when
    /// `first >= second`, provided the true difference is representable;
    /// every other bit is 0.
    pub fn greq(first: &Byte, second: &Byte) -> (r: Byte)
        requires
            first.wf(),
            second.wf(),
        ensures
            r.wf(),
            forall|j: int| 0 <= j < 31 ==> !r@[j],
            r@[31] == (!add_bits(first@, neg_seq(second@), false)[0] || first@ == second@),
            (-pow2(31) <= ival(first@) - ival(second@) < pow2(31)) ==> (r@[31] <==> ival(first@)
                >= ival(second@)),
    {
        let diff = first.sub_wrap(second);
        let e = Byte::eq(first, second);
        let mut res = Byte::empty();
        res.set_bit(31, diff.bit_at(0).not().or(e.bit_at(31)));
        proof {
            lemma_sub_overflow(first@, second@);
            lemma_ival_range(add_bits(first@, neg_seq(second@), false));
        }
        res
    }

    /// Converts a native signed integer to its two's-complement bit
    /// pattern, by greedily subtracting descending powers of two from the
    /// magnitude and negating the pattern when the input was negative.
    /// A magnitude that does not fit in 31 value bits raises `Overflow`
    /// instead of wrapping.
    pub fn from_dec(dec: i32) -> (r: Result<Byte, ArithError>)
        ensures
            r is Ok <==> dec > i32::MIN,
            r matches Ok(w) ==> w.wf() && ival(w@) == dec,
            r matches Err(e) ==> e == ArithError::Overflow,
    {
        if dec == i32::MIN {
            return Err(ArithError::Overflow);
        }
        let mut bits = Byte::empty();
        let mut u: u32 = if dec < 0 {
            (-dec) as u32
        } else {
            dec as u32
        };
        let ghost mag: nat = u as nat;
        let mut x: u32 = 0x8000_0000;
        let mut i: usize = 1;
        proof {
            lemma2_to64();
            lemma_uval_all_false(bits@.subrange(0, 1));
        }
        while i < 32
            invariant
                1 <= i <= 32,
                bits.wf(),
                !bits@[0],
                x == pow2((32 - i) as nat),
                u < pow2((32 - i) as nat),
                mag <= pow2(31),
                uval(bits@.subrange(0, i as int)) * pow2((32 - i) as nat) + u == mag,
            decreases 32 - i,
        {
            proof {
                lemma_pow2_unfold((32 - i) as nat);
            }
            x = x / 2;
            let ghost oldb = bits@;
            if u >= x {
                bits.set_bit(i, Bit::new(1));
                u = u - x;
            } else {
                bits.set_bit(i, Bit::new(0));
            }
            proof {
                let pre = bits@.subrange(0, i as int);
                assert(pre =~= oldb.subrange(0, i as int));
                assert(bits@.subrange(0, i as int + 1) =~= pre.push(bits@[i as int]));
                lemma_uval_push(pre, bits@[i as int]);
                let p = pow2((31 - i) as nat) as int;
                let pv = uval(pre) as int;
                assert(pv * (2 * p) == 2 * pv * p) by (nonlinear_arith);
                assert((2 * pv + 1) * p == 2 * pv * p + p) by (nonlinear_arith);
                assert((2 * pv) * p == 2 * pv * p) by (nonlinear_arith);
            }
            i += 1;
        }
        proof {
            assert(bits@.subrange(0, 32) =~= bits@);
            lemma2_to64();
            assert(uval(bits@) * 1 == uval(bits@)) by (nonlinear_arith);
            assert(uval(bits@) == mag);
            lemma_ival_range(bits@);
        }
        if dec < 0 {
            let r = bits.neg();
            proof {
                lemma_neg_ival(bits@);
            }
            Ok(r)
        } else {
            Ok(bits)
        }
    }

    /// Reads the word back as a native signed integer: the inverse of
    /// `from_dec`. The word is first sign-normalized through the
    /// masked-select idiom, the weighted value bits are summed, and the
    /// sign is reapplied.
    pub fn to_dec(&self) -> (r: i32)
        requires
            self.wf(),
        ensures
            r as int == ival(self@),
    {
        let sign = self.bit_at(0);
        let m = self.and_bit(sign.not()).bit_or(&self.neg().and_bit(sign));
        proof {
            lemma_masked_select(self@, neg_seq(self@), sign@);
            lemma_neg_uval(self@);
            lemma_uval_msb(self@);
            lemma_ival_range(self@);
            lemma_pow2_unfold(32);
            lemma2_to64();
            assert(uval(m@) <= pow2(31));
            assert(m@.subrange(0, 0) =~= Seq::<bool>::empty());
        }
        let mut acc: u32 = 0;
        let mut w: u32 = 0x8000_0000;
        let mut i: usize = 0;
        while i < 32
            invariant
                i <= 32,
                m.wf(),
                uval(m@) <= pow2(31),
                i < 32 ==> w == pow2((31 - i) as nat),
                acc == uval(m@.subrange(0, i as int)) * pow2((32 - i) as nat),
            decreases 32 - i,
        {
            proof {
                let pre = m@.subrange(0, i as int);
                assert(m@.subrange(0, i as int + 1) =~= pre.push(m@[i as int]));
                lemma_uval_push(pre, m@[i as int]);
                lemma_pow2_unfold((32 - i) as nat);
                if i < 31 {
                    lemma_pow2_unfold((31 - i) as nat);
                }
                lemma_uval_split(m@, i as int + 1);
                lemma2_to64();
                let p = pow2((31 - i) as nat) as int;
                let pv = uval(pre) as int;
                assert(pv * (2 * p) == 2 * pv * p) by (nonlinear_arith);
                assert((2 * pv + 1) * p == 2 * pv * p + p) by (nonlinear_arith);
                assert((2 * pv) * p == 2 * pv * p) by (nonlinear_arith);
                assert(uval(m@.subrange(0, i as int + 1)) * p <= uval(m@));
            }
            if m.bit_at(i).is_true() {
                acc = acc + w;
            }
            if i < 31 {
                w = w / 2;
            }
            i += 1;
        }
        proof {
            assert(m@.subrange(0, 32) =~= m@);
            assert(uval(m@) * 1 == uval(m@)) by (nonlinear_arith);
            lemma2_to64();
        }
        if sign.is_true() {
            if acc == 0x8000_0000 {
                i32::MIN
            } else {
                -(acc as i32)
            }
        } else {
            acc as i32
        }
    }

    /// Schoolbook shift-and-add multiplication on sign-normalized operands,
    /// the product's sign reapplied through the masked-select idiom. The
    /// result is exact whenever both operands' magnitudes and the true
    /// product are representable; outside that range the product wraps.
    pub fn mul(&self, rhs: &Byte) -> (r: Byte)
        requires
            self.wf(),
            rhs.wf(),
        ensures
            r.wf(),
            (ival(self@) != -pow2(31) && ival(rhs@) != -pow2(31) && -pow2(31) <= ival(self@)
                * ival(rhs@) < pow2(31)) ==> ival(r@) == ival(self@) * ival(rhs@),
            ({
                let m = ((uval(magnitude(self@)) * uval(magnitude(rhs@).subrange(1, 32))) as int)
                    % (pow2(32) as int);
                if self@[0] != rhs@[0] {
                    uval(neg_seq(r@)) == m
                } else {
                    uval(r@) == m
                }
            }),
    {
        let sa = self.bit_at(0);
        let sb = rhs.bit_at(0);
        let sign = sa.xor(sb);
        let ma = self.and_bit(sa.not()).bit_or(&self.neg().and_bit(sa));
        let mb = rhs.and_bit(sb.not()).bit_or(&rhs.neg().and_bit(sb));
        let ghost ia = ival(self@);
        let ghost ib = ival(rhs@);
        let ghost cond = ia != -pow2(31) && ib != -pow2(31) && -pow2(31) <= ia * ib < pow2(31);
        proof {
            lemma_masked_select(self@, neg_seq(self@), sa@);
            lemma_masked_select(rhs@, neg_seq(rhs@), sb@);
            lemma_magnitude_uval(self@);
            lemma_magnitude_uval(rhs@);
            lemma_ival_range(self@);
            lemma_ival_range(rhs@);
            assert(ma@ == magnitude(self@));
            assert(mb@ == magnitude(rhs@));
            if cond {
                let av = uval(ma@) as int;
                let bv = uval(mb@) as int;
                assert((ia >= 0 ==> av == ia) && (ia < 0 ==> av == -ia));
                assert((ib >= 0 ==> bv == ib) && (ib < 0 ==> bv == -ib));
                assert((ia * ib >= 0 ==> av * bv == ia * ib) && (ia * ib < 0 ==> av * bv == -(ia
                    * ib))) by (nonlinear_arith)
                    requires
                        (ia >= 0 ==> av == ia) && (ia < 0 ==> av == -ia),
                        (ib >= 0 ==> bv == ib) && (ib < 0 ==> bv == -ib),
                ;
                assert(av * bv <= pow2(31));
                lemma_uval_msb(mb@);
                assert(!mb@[0]);
                lemma_uval_all_false(mb@.subrange(0, 1));
                let z = uval(mb@.subrange(0, 1)) as int;
                assert(z == 0);
                assert(av * z == 0) by (nonlinear_arith)
                    requires
                        z == 0,
                ;
                assert(av * z * pow2(31) == 0) by (nonlinear_arith)
                    requires
                        av * z == 0,
                ;
            }
            lemma2_to64();
            lemma_small_mod(0nat, pow2(32));
            let avu = uval(ma@) as int;
            assert(mb@.subrange(1, 1) =~= Seq::<bool>::empty());
            assert(avu * 0 == 0) by (nonlinear_arith);
            assert(avu * 0 * pow2(31) == 0) by (nonlinear_arith)
                requires
                    avu * 0 == 0,
            ;
        }
        let mut acc = Byte::empty();
        let mut i: usize = 1;
        while i < 32
            invariant
                1 <= i <= 32,
                self.wf(),
                rhs.wf(),
                ma.wf(),
                mb.wf(),
                acc.wf(),
                ma@ == magnitude(self@),
                mb@ == magnitude(rhs@),
                cond ==> uval(ma@) * uval(mb@) <= pow2(31),
                cond ==> uval(acc@) == uval(ma@) * uval(mb@.subrange(0, i as int)) * pow2(
                    (32 - i) as nat,
                ),
                uval(acc@) == ((uval(ma@) * uval(mb@.subrange(1, i as int)) * pow2(
                    (32 - i) as nat,
                )) as int) % (pow2(32) as int),
            decreases 32 - i,
        {
            let partial = ma.and_bit(mb.bit_at(i)).shl(31 - i);
            proof {
                lemma2_to64();
                if cond {
                    let av = uval(ma@) as int;
                    let bfull = uval(mb@) as int;
                    let bp = uval(mb@.subrange(0, i as int)) as int;
                    let b = mb@[i as int];
                    let p = pow2((31 - i) as nat) as int;
                    lemma_pow2_unfold((32 - i) as nat);
                    assert(mb@.subrange(0, i as int + 1) =~= mb@.subrange(0, i as int).push(b));
                    lemma_uval_push(mb@.subrange(0, i as int), b);
                    let bp2 = uval(mb@.subrange(0, i as int + 1)) as int;
                    assert(bp2 == 2 * bp + bitval(b));
                    lemma_uval_split(mb@, i as int + 1);
                    assert(bfull == bp2 * p + uval(mb@.subrange(i as int + 1, 32)));
                    assert(bp2 * p <= bfull);
                    let masked = mask_seq(ma@, b);
                    if b {
                        lemma_mask_const(ma@);
                        assert(mask_seq(ma@, true) == ma@);
                        assert(masked == ma@);
                        lemma_uval_bit_weight(mb@, i as int);
                        assert(p <= bfull);
                        assert(av * p <= av * bfull) by (nonlinear_arith)
                            requires
                                p <= bfull,
                                av >= 0,
                        ;
                        lemma_shl_uval(masked, partial@, 31 - i);
                        assert(uval(partial@) == av * p);
                    } else {
                        lemma_mask_const(ma@);
                        lemma_uval_all_false(mask_seq(ma@, false));
                        lemma_shl_uval(masked, partial@, 31 - i);
                        assert(uval(partial@) == 0);
                    }
                    let bb = bitval(b) as int;
                    assert(av * bp2 * p == av * bp * (2 * p) + av * bb * p) by (nonlinear_arith)
                        requires
                            bp2 == 2 * bp + bb,
                    ;
                    assert(av * bb * p == (if b {
                        av * p
                    } else {
                        0int
                    })) by (nonlinear_arith)
                        requires
                            bb == (if b {
                                1int
                            } else {
                                0int
                            }),
                    ;
                    assert(av * (bp2 * p) <= av * bfull) by (nonlinear_arith)
                        requires
                            bp2 * p <= bfull,
                            av >= 0,
                    ;
                    assert(av * (bp2 * p) == av * bp2 * p) by (nonlinear_arith);
                    assert(uval(acc@) + uval(partial@) == av * bp2 * p);
                    assert(uval(acc@) + uval(partial@) <= pow2(31));
                }
                let avu = uval(ma@) as int;
                let bu = mb@[i as int];
                let bbu = bitval(bu) as int;
                let pu = pow2((31 - i) as nat) as int;
                let masked_u = mask_seq(ma@, bu);
                lemma_mask_const(ma@);
                if bu {
                    assert(masked_u == ma@);
                    assert(uval(masked_u) == avu * bbu) by (nonlinear_arith)
                        requires
                            uval(masked_u) == avu,
                            bbu == 1,
                    ;
                } else {
                    lemma_uval_all_false(masked_u);
                    assert(uval(masked_u) == avu * bbu) by (nonlinear_arith)
                        requires
                            uval(masked_u) == 0,
                            bbu == 0,
                    ;
                }
                lemma_shl_uval_mod(masked_u, partial@, 31 - i);
            }
            let ghost old_acc = acc@;
            let ghost old_partial = partial@;
            acc = acc.add_wrap(&partial);
            proof {
                if cond {
                    lemma2_to64();
                    let c = bitval(add_carry(old_acc, old_partial, false));
                    assert(uval(acc@) + pow2(32) * c == uval(old_acc) + uval(old_partial));
                    assert(c == 0 || c == 1);
                    assert(pow2(32) * c == 0 || pow2(32) * c == pow2(32));
                }
                let big = pow2(32) as int;
                let avu = uval(ma@) as int;
                let bu = mb@[i as int];
                let bbu = bitval(bu) as int;
                let pu = pow2((31 - i) as nat) as int;
                let bpu = uval(mb@.subrange(1, i as int)) as int;
                lemma_pow2_unfold((32 - i) as nat);
                assert(mb@.subrange(1, i as int + 1) =~= mb@.subrange(1, i as int).push(
                    mb@[i as int],
                ));
                lemma_uval_push(mb@.subrange(1, i as int), mb@[i as int]);
                let bpu2 = uval(mb@.subrange(1, i as int + 1)) as int;
                assert(bpu2 == 2 * bpu + bbu);
                let cc = bitval(add_carry(old_acc, old_partial, false)) as int;
                assert(uval(acc@) + big * cc == uval(old_acc) + uval(old_partial));
                lemma_uval_bound(acc@);
                lemma_fundamental_div_mod_converse(
                    (uval(old_acc) + uval(old_partial)) as int,
                    big,
                    cc,
                    uval(acc@) as int,
                );
                assert(uval(acc@) == (uval(old_acc) + uval(old_partial)) as int % big);
                lemma_add_mod_noop(avu * bpu * (2 * pu), avu * bbu * pu, big);
                assert(avu * bpu2 * pu == avu * bpu * (2 * pu) + avu * bbu * pu)
                    by (nonlinear_arith)
                    requires
                        bpu2 == 2 * bpu + bbu,
                ;
                assert(uval(old_partial) == (avu * bbu * pu) % big) by {
                    assert((avu * bbu) * pu == avu * bbu * pu) by (nonlinear_arith);
                };
                assert(uval(old_acc) == (avu * bpu * (2 * pu)) % big);
                assert(uval(acc@) == (avu * bpu2 * pu) % big);
            }
            i += 1;
        }
        let res = acc.and_bit(sign.not()).bit_or(&acc.neg().and_bit(sign));
        proof {
            lemma_masked_select(acc@, neg_seq(acc@), sign@);
            lemma2_to64();
            let avu = uval(ma@) as int;
            let bvu = uval(mb@.subrange(1, 32)) as int;
            assert(pow2(0) == 1);
            assert(avu * bvu * 1 == avu * bvu) by (nonlinear_arith);
            assert(uval(acc@) == (avu * bvu) % (pow2(32) as int));
            if sign@ {
                assert(res@ == neg_seq(acc@));
                lemma_double_negation(acc@);
                assert(neg_seq(res@) == acc@);
            } else {
                assert(res@ == acc@);
            }
            if cond {
                lemma2_to64();
                let av = uval(ma@) as int;
                let bv = uval(mb@) as int;
                assert(mb@.subrange(0, 32) =~= mb@);
                assert(pow2(0) == 1);
                assert(av * bv * 1 == av * bv) by (nonlinear_arith);
                assert(uval(acc@) == av * bv);
                lemma_uval_msb(acc@);
                lemma_ival_range(acc@);
                lemma_neg_ival(acc@);
                lemma_neg_uval(acc@);
                lemma_pow2_unfold(32);
                assert((sa@ == sb@) ==> ia * ib >= 0) by (nonlinear_arith)
                    requires
                        sa@ == (ia < 0),
                        sb@ == (ib < 0),
                ;
                assert((sa@ != sb@) ==> ia * ib <= 0) by (nonlinear_arith)
                    requires
                        sa@ == (ia < 0),
                        sb@ == (ib < 0),
                ;
                if sign@ {
                    assert(res@ == neg_seq(acc@));
                    assert(ia * ib <= 0);
                    assert(av * bv == -(ia * ib) || av * bv == 0);
                    if uval(acc@) == 0 {
                        assert(ival(res@) == 0);
                    } else if uval(acc@) == pow2(31) {
                        assert(acc@[0]);
                        assert(ival(acc@) == -pow2(31));
                        assert(ival(res@) == -pow2(31));
                    } else {
                        assert(!acc@[0]);
                        assert(ival(acc@) == av * bv);
                        assert(ival(res@) == -(av * bv));
                    }
                } else {
                    assert(res@ == acc@);
                    assert(ia * ib >= 0);
                    assert(av * bv == ia * ib);
                    assert(uval(acc@) < pow2(31));
                    assert(!acc@[0]);
                    assert(ival(res@) == ia * ib);
                }
            }
        }
        res
    }

    /// Restoring binary long division on sign-normalized operands: at each
    /// bit position the remainder is shifted left, the next dividend bit
    /// brought in, compared against the divisor through `greq`, and the
    /// divisor conditionally subtracted through the masked-select idiom.
    /// The quotient's sign is the XOR of the operands' signs. Division by a
    /// zero word raises `Domain`. The quotient is truncated toward zero;
    /// the one quotient with no representation (the most negative word
    /// divided by minus one) comes back as the most negative word.
    pub fn div(&self, rhs: &Byte) -> (r: Result<Byte, ArithError>)
        requires
            self.wf(),
            rhs.wf(),
        ensures
            r is Ok <==> ival(rhs@) != 0,
            r matches Err(e) ==> e == ArithError::Domain,
            r matches Ok(q) ==> q.wf() && (!(ival(self@) == -pow2(31) && ival(rhs@) == -1)
                ==> ival(q@) == quot(ival(self@), ival(rhs@))) && ((ival(self@) == -pow2(31)
                && ival(rhs@) == -1) ==> ival(q@) == -pow2(31)),
    {
        let zero = Byte::empty();
        let z = Byte::eq(rhs, &zero);
        proof {
            lemma_uval_msb(rhs@);
            lemma_ival_range(rhs@);
            if ival(rhs@) == 0 {
                assert(!rhs@[0]);
                assert(uval(rhs@) == 0);
                lemma_uval_zero(rhs@);
                assert(rhs@ =~= zero@);
            }
            if rhs@ == zero@ {
                assert(uval(rhs@) == 0);
            }
        }
        if z.bit_at(31).is_true() {
            return Err(ArithError::Domain);
        }
        let sa = self.bit_at(0);
        let sb = rhs.bit_at(0);
        let sign = sa.xor(sb);
        let ma = self.and_bit(sa.not()).bit_or(&self.neg().and_bit(sa));
        let mb = rhs.and_bit(sb.not()).bit_or(&rhs.neg().and_bit(sb));
        let mut one = Byte::empty();
        one.set_bit(31, Bit::new(1));
        proof {
            lemma_masked_select(self@, neg_seq(self@), sa@);
            lemma_masked_select(rhs@, neg_seq(rhs@), sb@);
            lemma_magnitude_uval(self@);
            lemma_magnitude_uval(rhs@);
            lemma_ival_range(self@);
            lemma_ival_range(rhs@);
            assert(one@ =~= one_seq());
            lemma_one_seq_uval();
            assert(uval(mb@) >= 1);
            assert(ma@.subrange(0, 0) =~= Seq::<bool>::empty());
        }
        let mut res = Byte::empty();
        let mut rem = Byte::empty();
        proof {
            assert(res@.subrange(0, 0) =~= Seq::<bool>::empty());
            assert(uval(Seq::<bool>::empty()) == 0);
            let bv0 = uval(mb@) as int;
            assert(0int * bv0 == 0) by (nonlinear_arith);
        }
        let mut i: usize = 0;
        while i < 32
            invariant
                i <= 32,
                self.wf(),
                rhs.wf(),
                ma.wf(),
                mb.wf(),
                one.wf(),
                res.wf(),
                rem.wf(),
                ma@ == magnitude(self@),
                mb@ == magnitude(rhs@),
                one@ == one_seq(),
                1 <= uval(mb@) <= pow2(31),
                uval(ma@) <= pow2(31),
                uval(rem@) < uval(mb@),
                uval(ma@.subrange(0, i as int)) == uval(res@.subrange(0, i as int)) * uval(mb@)
                    + uval(rem@),
            decreases 32 - i,
        {
            let ghost old_rem_v = uval(rem@);
            let din = one.and_bit(ma.bit_at(i));
            let shifted = rem.shl(1);
            proof {
                lemma2_to64();
                lemma_one_seq_uval();
                lemma_mask_const(one@);
                if ma@[i as int] {
                    assert(mask_seq(one@, true) == one@);
                } else {
                    lemma_uval_all_false(mask_seq(one@, false));
                }
                assert(uval(rem@) * pow2(1) < pow2(32));
                lemma_shl_uval(rem@, shifted@, 1);
            }
            let rem2 = shifted.add_wrap(&din);
            proof {
                lemma2_to64();
                let c = bitval(add_carry(shifted@, din@, false));
                assert(uval(rem2@) + pow2(32) * c == uval(shifted@) + uval(din@));
                assert(c == 0 || c == 1);
                assert(pow2(32) * c == 0 || pow2(32) * c == pow2(32));
                assert(uval(rem2@) == 2 * old_rem_v + bitval(ma@[i as int]));
            }
            let g = Byte::greq(&rem2, &mb);
            let qb = g.to_bit();
            proof {
                lemma_unsigned_compare(rem2@, mb@);
                if qb@ {
                    assert(exists|j: int| 1 <= j < 32 && g@[j]);
                    let j = choose|j: int| 1 <= j < 32 && g@[j];
                    assert(j == 31);
                }
                assert(qb@ == g@[31]);
                assert(qb@ <==> uval(rem2@) >= uval(mb@));
            }
            let ghost oldres = res@;
            res.set_bit(i, qb);
            let diff = rem2.sub_wrap(&mb);
            rem = rem2.and_bit(qb.not()).bit_or(&diff.and_bit(qb));
            proof {
                lemma_masked_select(rem2@, diff@, qb@);
                assert(res@.subrange(0, i as int) =~= oldres.subrange(0, i as int));
                assert(res@.subrange(0, i as int + 1) =~= res@.subrange(0, i as int).push(qb@));
                lemma_uval_push(res@.subrange(0, i as int), qb@);
                assert(ma@.subrange(0, i as int + 1) =~= ma@.subrange(0, i as int).push(
                    ma@[i as int],
                ));
                lemma_uval_push(ma@.subrange(0, i as int), ma@[i as int]);
                let bv = uval(mb@) as int;
                let qp = uval(oldres.subrange(0, i as int)) as int;
                assert((2 * qp) * bv == 2 * (qp * bv)) by (nonlinear_arith);
                assert((2 * qp + 1) * bv == 2 * (qp * bv) + bv) by (nonlinear_arith);
            }
            i += 1;
        }
        let rq = res.and_bit(sign.not()).bit_or(&res.neg().and_bit(sign));
        proof {
            lemma_masked_select(res@, neg_seq(res@), sign@);
            lemma2_to64();
            lemma_magnitude_uval(self@);
            lemma_magnitude_uval(rhs@);
            lemma_ival_range(self@);
            lemma_ival_range(rhs@);
            assert(ma@.subrange(0, 32) =~= ma@);
            assert(res@.subrange(0, 32) =~= res@);
            let av = uval(ma@) as int;
            let bv = uval(mb@) as int;
            let qv = uval(res@) as int;
            let rv = uval(rem@) as int;
            assert(av == qv * bv + rv);
            lemma_fundamental_div_mod_converse(av, bv, qv, rv);
            assert(qv == av / bv);
            lemma_div_pos_is_pos(av, bv);
            lemma_div_nonincreasing(av, bv);
            assert(0 <= qv <= av);
            if qv == pow2(31) {
                assert(qv * bv >= qv * 1) by (nonlinear_arith)
                    requires
                        qv >= 0,
                        bv >= 1,
                ;
                assert(qv * 1 == qv) by (nonlinear_arith);
                assert(av == pow2(31));
                if bv >= 2 {
                    assert(qv * bv >= qv * 2) by (nonlinear_arith)
                        requires
                            qv >= 0,
                            bv >= 2,
                    ;
                    assert(false);
                }
                assert(bv == 1);
            }
            lemma_uval_msb(res@);
            lemma_ival_range(res@);
            lemma_neg_ival(res@);
            lemma_neg_uval(res@);
            lemma_pow2_unfold(32);
            let ia = ival(self@);
            let ib = ival(rhs@);
            assert(av == abs_val(ia) && bv == abs_val(ib));
            assert(sign@ == ((ia < 0) != (ib < 0)));
            if sign@ {
                assert(rq@ == neg_seq(res@));
                if qv == 0 {
                    assert(ival(rq@) == 0);
                } else if qv == pow2(31) {
                    assert(res@[0]);
                    assert(ival(res@) == -pow2(31));
                    assert(ival(rq@) == -pow2(31));
                    assert(av == pow2(31) && bv == 1);
                    assert(ia == -pow2(31) && ib == 1);
                } else {
                    assert(!res@[0]);
                    assert(ival(res@) == qv);
                    assert(ival(rq@) == -qv);
                }
            } else {
                assert(rq@ == res@);
                if qv == pow2(31) {
                    assert(av == pow2(31) && bv == 1);
                    assert(ia == -pow2(31) && ib == -1);
                    assert(res@[0]);
                    assert(ival(rq@) == -pow2(31));
                } else {
                    assert(!res@[0]);
                    assert(ival(rq@) == qv);
                }
            }
        }
        Ok(rq)
    }

    /// Exponentiation by square-and-multiply: for each exponent bit from
    /// most to least significant the accumulator is squared, then
    /// conditionally multiplied by the base through the masked-select
    /// idiom. A negative exponent has no integer result and raises
    /// `Domain`. The result is exact whenever the base is not the most
    /// negative word and the true power's magnitude stays below `2^31`;
    /// outside that range the power wraps.
    pub fn pow(&self, expo: &Byte) -> (r: Result<Byte, ArithError>)
        requires
            self.wf(),
            expo.wf(),
        ensures
            r is Ok <==> ival(expo@) >= 0,
            r matches Err(e) ==> e == ArithError::Domain,
            r matches Ok(w) ==> w.wf() && ((ival(self@) != -pow2(31) && pow(
                abs_val(ival(self@)),
                ival(expo@) as nat,
            ) < pow2(31)) ==> ival(w@) == pow(ival(self@), ival(expo@) as nat)),
            r matches Ok(w) ==> (ival(expo@) == 0 ==> ival(w@) == 1),
    {
        proof {
            lemma_ival_range(expo@);
        }
        if expo.bit_at(0).is_true() {
            return Err(ArithError::Domain);
        }
        let ghost bb = ival(self@);
        let ghost ee = uval(expo@);
        let ghost pcond = bb != -pow2(31) && pow(abs_val(bb), ee) < pow2(31);
        let mut res = Byte::empty();
        res.set_bit(31, Bit::new(1));
        proof {
            assert(res@ =~= one_seq());
            lemma_one_seq_uval();
            assert(!one_seq()[0]);
            assert(ival(res@) == 1);
            lemma_pow0(bb);
            assert(expo@.subrange(0, 0) =~= Seq::<bool>::empty());
            lemma2_to64();
            if pcond {
                lemma_pow_abs(bb, ee);
                assert(abs_val(pow(bb, ee)) == pow(abs_val(bb), ee));
            }
        }
        let mut i: usize = 0;
        while i < 32
            invariant
                i <= 32,
                self.wf(),
                expo.wf(),
                res.wf(),
                !expo@[0],
                bb == ival(self@),
                ee == uval(expo@),
                pcond == (bb != -pow2(31) && pow(abs_val(bb), ee) < pow2(31)),
                pcond ==> ival(res@) == pow(bb, uval(expo@.subrange(0, i as int))),
                ee == 0 ==> ival(res@) == 1,
            decreases 32 - i,
        {
            let bit = expo.bit_at(i);
            let ghost ek = uval(expo@.subrange(0, i as int));
            proof {
                lemma2_to64();
                assert(expo@.subrange(0, i as int + 1) =~= expo@.subrange(0, i as int).push(
                    expo@[i as int],
                ));
                lemma_uval_push(expo@.subrange(0, i as int), expo@[i as int]);
                lemma_uval_split(expo@, i as int + 1);
                let ek2 = uval(expo@.subrange(0, i as int + 1)) as int;
                let pw = pow2((31 - i) as nat) as int;
                assert(ek2 * pw <= ee) by (nonlinear_arith)
                    requires
                        ee == ek2 * pw + uval(expo@.subrange(i as int + 1, 32)),
                        uval(expo@.subrange(i as int + 1, 32)) >= 0,
                ;
                assert(ek2 <= ek2 * pw) by (nonlinear_arith)
                    requires
                        pw >= 1,
                        ek2 >= 0,
                ;
                if pcond {
                    lemma_pow_abs(bb, ee);
                    lemma_pow_abs(bb, ek as nat);
                    lemma_pow_abs(bb, (2 * ek) as nat);
                    lemma_pow_abs(bb, ek2 as nat);
                    lemma_pow_intermediate(bb, ek as nat, ee);
                    lemma_pow_intermediate(bb, (2 * ek) as nat, ee);
                    lemma_pow_intermediate(bb, ek2 as nat, ee);
                    lemma_pow_adds(bb, ek as nat, ek as nat);
                    lemma_pow_adds(bb, (2 * ek) as nat, 1);
                    lemma_pow1(bb);
                }
            }
            let sq = res.mul(&res);
            let masked_base = self.and_bit(bit);
            let m2 = sq.mul(&masked_base);
            let next = sq.and_bit(bit.not()).bit_or(&m2.and_bit(bit));
            proof {
                lemma_masked_select(sq@, m2@, bit@);
                if ee == 0 {
                    lemma_uval_zero(expo@);
                    assert(!bit@);
                    lemma2_to64();
                    lemma_ival_range(res@);
                    assert(ival(res@) * ival(res@) == 1) by (nonlinear_arith)
                        requires
                            ival(res@) == 1,
                    ;
                    assert(ival(sq@) == 1);
                    assert(next@ == sq@);
                }
                if pcond {
                    lemma2_to64();
                    lemma_ival_range(res@);
                    lemma_ival_range(sq@);
                    lemma_mask_const(self@);
                    if bit@ {
                        assert(masked_base@ == self@);
                    } else {
                        lemma_uval_all_false(mask_seq(self@, false));
                        lemma_uval_msb(masked_base@);
                        assert(ival(masked_base@) == 0);
                        let sv = ival(sq@);
                        assert(sv * 0 == 0) by (nonlinear_arith);
                    }
                }
            }
            res = next;
            i += 1;
        }
        proof {
            assert(expo@.subrange(0, 32) =~= expo@);
            lemma_uval_msb(expo@);
            assert(ival(expo@) == uval(expo@));
        }
        Ok(res)
    }

    /// Integer logarithm to a given base, by repeated division: the count
    /// of divisions needed to bring the value to zero, less one. Raises
    /// `Domain` for a non-positive value or a base of at most 1. The
    /// result `r` is the floor logarithm: `base^r <= value < base^(r+1)`.
    pub fn log(&self, base: &Byte) -> (r: Result<Byte, ArithError>)
        requires
            self.wf(),
            base.wf(),
        ensures
            r is Ok <==> (ival(self@) >= 1 && ival(base@) >= 2),
            r matches Err(e) ==> e == ArithError::Domain,
            r matches Ok(w) ==> w.wf() && ival(w@) >= 0 && pow(ival(base@), ival(w@) as nat)
                <= ival(self@) < pow(ival(base@), (ival(w@) + 1) as nat),
    {
        if self.to_dec() <= 0 {
            return Err(ArithError::Domain);
        }
        if base.to_dec() <= 1 {
            return Err(ArithError::Domain);
        }
        let ghost v = ival(self@);
        let ghost b = ival(base@);
        let mut one = Byte::empty();
        one.set_bit(31, Bit::new(1));
        proof {
            assert(one@ =~= one_seq());
            lemma_one_seq_uval();
            assert(!one_seq()[0]);
            assert(ival(one@) == 1);
            lemma_ival_range(self@);
            lemma_ival_range(base@);
            lemma_pow2_unfold(32);
            lemma_pow0(b);
            vstd::arithmetic::div_mod::lemma_div_basics(v);
        }
        let mut cur = self.duplicate();
        let mut res = one.neg();
        proof {
            lemma_neg_ival(one@);
            assert(ival(res@) == -1);
        }
        while cur.to_dec() > 0
            invariant
                self.wf(),
                base.wf(),
                one.wf(),
                cur.wf(),
                res.wf(),
                v == ival(self@),
                b == ival(base@),
                1 <= v < pow2(31),
                2 <= b < pow2(31),
                ival(one@) == 1,
                -1 <= ival(res@) <= 30,
                ival(cur@) == v / pow(b, (ival(res@) + 1) as nat),
                ival(res@) >= 0 ==> pow(b, ival(res@) as nat) <= v,
                ival(cur@) >= 0,
            decreases ival(cur@),
        {
            let ghost k = (ival(res@) + 1) as nat;
            let ghost oldcur = ival(cur@);
            proof {
                lemma_pow_positive(b, k);
                assert(oldcur >= 1);
                assert(v / pow(b, k) >= 1);
                lemma_div_at_least_one(v, pow(b, k));
                assert(pow(b, k) <= v);
                lemma_pow2_le_pow(b, k);
                lemma2_to64();
                if k >= 31 {
                    if k > 31 {
                        lemma_pow2_strictly_increases(31, k);
                    }
                    assert(pow2(31) <= pow2(k));
                    assert(false);
                }
                assert(ival(res@) <= 29);
            }
            let q = match cur.div(base) {
                Ok(q) => q,
                Err(_) => {
                    proof {
                        assert(false);
                    }
                    Byte::empty()
                },
            };
            proof {
                assert(ival(q@) == quot(ival(cur@), b));
                assert(abs_val(ival(cur@)) == ival(cur@));
                assert(abs_val(b) == b);
                assert(ival(q@) == ival(cur@) / b);
                vstd::arithmetic::div_mod::lemma_div_pos_is_pos(ival(cur@), b);
                vstd::arithmetic::div_mod::lemma_div_decreases(ival(cur@), b);
                vstd::arithmetic::div_mod::lemma_div_denominator(v, pow(b, k), b);
                lemma_pow_adds(b, k, 1);
                lemma_pow1(b);
                assert(pow(b, k + 1) == pow(b, k) * b);
                lemma_add_overflow(res@, one@);
                lemma_ival_range(res@);
            }
            cur = q;
            res = res.add_wrap(&one);
        }
        proof {
            let k = (ival(res@) + 1) as nat;
            assert(ival(cur@) == 0);
            assert(v / pow(b, k) == 0);
            lemma_pow_positive(b, k);
            vstd::arithmetic::div_mod::lemma_small_div_converse(v, pow(b, k));
            assert(v < pow(b, k));
            assert(ival(res@) >= 0) by {
                if ival(res@) == -1 {
                    lemma_pow0(b);
                    assert(v < 1);
                }
            }
        }
        Ok(res)
    }
}

} // verus!
